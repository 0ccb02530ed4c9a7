//! Short (8.3) names, the checksum that ties long-name entries to them, and
//! the rule that decides when a name needs long-name entries.

use vstd::prelude::*;
use crate::text::chars_eq;
use crate::vfs::fat32::entry::{name_text, short_name_text};
use crate::text::{
    chars_of, contains_char, find_last, last_index_of, lemma_last_index_of, to_uppercase,
    uppercase_of,
};

verus! {

/// One step of the short-name checksum: rotate right by one bit, then add
/// the next byte, both modulo 256.
pub open spec fn checksum_step(sum: u8, b: u8) -> u8 {
    ((sum as int / 2 + (sum as int % 2) * 128 + b as int) % 256) as u8
}

/// The checksum of a sequence of bytes, taken from the first to the last.
pub open spec fn checksum_of(s: Seq<u8>) -> u8
    decreases s.len(),
{
    if s.len() == 0 {
        0
    } else {
        checksum_step(checksum_of(s.drop_last()), s.last())
    }
}

/// The checksum that long-name entries carry for the short name `short_name`.
pub fn lfn_checksum(short_name: &[u8; 11]) -> (r: u8)
    ensures
        r == checksum_of(short_name@),
{
    let mut sum: u8 = 0;
    let mut i: usize = 0;
    while i < 11
        invariant
            i <= 11,
            sum == checksum_of(short_name@.subrange(0, i as int)),
        decreases 11 - i,
    {
        let rotated: u16 = (sum / 2) as u16 + ((sum % 2) as u16) * 128;
        proof {
            let t = short_name@.subrange(0, i + 1);
            assert(t.drop_last() =~= short_name@.subrange(0, i as int));
            assert(t.last() == short_name@[i as int]);
        }
        sum = ((rotated + short_name[i] as u16) % 256) as u8;
        i += 1;
    }
    assert(short_name@.subrange(0, 11) =~= short_name@);
    sum
}

/// Whether `c` is an ASCII digit or an ASCII letter of either case.
pub open spec fn is_ascii_alnum(c: char) -> bool {
    ('0' <= c && c <= '9') || ('A' <= c && c <= 'Z') || ('a' <= c && c <= 'z')
}

/// Whether `c` is a lowercase ASCII letter.
pub open spec fn is_ascii_lower(c: char) -> bool {
    'a' <= c && c <= 'z'
}

/// The byte a character of a name becomes in a short name: itself when it
/// is an ASCII letter, digit, underscore or hyphen, else an underscore.
pub open spec fn sanitize(c: char) -> u8 {
    if is_ascii_alnum(c) || c == '_' || c == '-' {
        c as u8
    } else {
        '_' as u8
    }
}

/// The part of the uppercased name that fills the eight base positions.
///
/// A name without a dot is all base. Otherwise the base is what precedes
/// the last dot of the uppercased name.
pub open spec fn short_base(name: Seq<char>, upper: Seq<char>) -> Seq<char> {
    let d = last_index_of(upper, '.');
    if !name.contains('.') {
        if d < 0 {
            upper
        } else {
            upper.subrange(d + 1, upper.len() as int)
        }
    } else if d < 0 {
        upper
    } else {
        upper.subrange(0, d)
    }
}

/// The part of the uppercased name that fills the three extension positions:
/// nothing for a name without a dot, else what follows the last dot.
pub open spec fn short_ext(name: Seq<char>, upper: Seq<char>) -> Seq<char> {
    let d = last_index_of(upper, '.');
    if !name.contains('.') {
        Seq::empty()
    } else if d < 0 {
        upper
    } else {
        upper.subrange(d + 1, upper.len() as int)
    }
}

/// The eleven bytes of the short name made from `name` and its uppercase
/// form: up to eight sanitized base characters, up to three sanitized
/// extension characters, each part padded with spaces.
pub open spec fn short_name_bytes(name: Seq<char>, upper: Seq<char>) -> Seq<u8> {
    let base = short_base(name, upper);
    let ext = short_ext(name, upper);
    Seq::new(
        11,
        |i: int|
            if i < 8 {
                if i < base.len() {
                    sanitize(base[i])
                } else {
                    32u8
                }
            } else if i - 8 < ext.len() {
                sanitize(ext[i - 8])
            } else {
                32u8
            },
    )
}

/// Computes the short-name byte for one character.
pub fn sanitize_char(c: char) -> (r: u8)
    ensures
        r == sanitize(c),
{
    if ('0' <= c && c <= '9') || ('A' <= c && c <= 'Z') || ('a' <= c && c <= 'z') || c == '_'
        || c == '-' {
        c as u8
    } else {
        95
    }
}

/// Builds the short name from a name and the uppercase form of that name.
pub fn short_name_from(name: &[char], upper: &[char]) -> (r: [u8; 11])
    ensures
        r@ == short_name_bytes(name@, upper@),
{
    let mut result = [32u8; 11];
    proof {
        crate::bytes::lemma_repeated(result, 32u8);
    }
    let dot = find_last(upper, '.');
    let has_dot = contains_char(name, '.');
    let n: usize = upper.len();
    proof {
        lemma_last_index_of(upper@, '.');
    }
    // Bounds of the base and of the extension inside `upper`.
    let (base_from, base_to, ext_from, ext_to): (usize, usize, usize, usize) = if !has_dot {
        match dot {
            None => (0, n, 0, 0),
            Some(d) => (d + 1, n, 0, 0),
        }
    } else {
        match dot {
            None => (0, n, 0, n),
            Some(d) => (0, d, d + 1, n),
        }
    };
    let ghost base = short_base(name@, upper@);
    let ghost ext = short_ext(name@, upper@);
    assert(base =~= upper@.subrange(base_from as int, base_to as int));
    assert(ext =~= upper@.subrange(ext_from as int, ext_to as int));
    let mut i: usize = 0;
    while i < 8 && i < base_to - base_from
        invariant
            i <= 8,
            i <= base_to - base_from,
            base_from <= base_to <= n,
            n == upper@.len(),
            base == upper@.subrange(base_from as int, base_to as int),
            forall|k: int| 0 <= k < i ==> result@[k] == sanitize(base[k]),
            forall|k: int| i <= k < 11 ==> result@[k] == 32u8,
        decreases 8 - i,
    {
        result[i] = sanitize_char(upper[base_from + i]);
        i += 1;
    }
    assert(i == 8 || i == base.len());
    assert forall|k: int| 0 <= k < 8 implies result@[k] == short_name_bytes(name@, upper@)[k] by {
    }
    let mut j: usize = 0;
    while j < 3 && j < ext_to - ext_from
        invariant
            j <= 3,
            j <= ext_to - ext_from,
            ext_from <= ext_to <= n,
            n == upper@.len(),
            ext == upper@.subrange(ext_from as int, ext_to as int),
            forall|k: int| 0 <= k < 8 ==> result@[k] == short_name_bytes(name@, upper@)[k],
            forall|k: int| 0 <= k < j ==> result@[8 + k] == sanitize(ext[k]),
            forall|k: int| 8 + j <= k < 11 ==> result@[k] == 32u8,
        decreases 3 - j,
    {
        result[8 + j] = sanitize_char(upper[ext_from + j]);
        j += 1;
    }
    assert(result@ =~= short_name_bytes(name@, upper@));
    result
}

/// The short name stored for `name`.
///
/// The name is uppercased by the standard library, whose result is known
/// here only by name; everything after that is `short_name_bytes`.
pub fn make_short_name(name: &str) -> (r: [u8; 11])
    ensures
        r@ == short_name_bytes(name@, uppercase_of(name@)),
{
    let upper = to_uppercase(name);
    let name_chars = chars_of(name);
    let upper_chars = chars_of(upper.as_str());
    short_name_from(name_chars.as_slice(), upper_chars.as_slice())
}

/// Whether a character cannot be stored in a short name as it is: a
/// lowercase ASCII letter, or anything that is not an ASCII letter, digit,
/// dot, underscore or hyphen.
pub open spec fn forces_long(c: char) -> bool {
    is_ascii_lower(c) || (!is_ascii_alnum(c) && c != '.' && c != '_' && c != '-')
}

/// Whether `name` needs long-name entries: by its form, or because the
/// short name made from it would not display as `name`.
pub open spec fn needs_lfn_spec(name: Seq<char>) -> bool {
    long_by_form(name) || short_name_text(short_name_bytes(name, uppercase_of(name))) != name
}

/// Whether `name` is long by its form: more than 12 characters, a base of
/// more than 8 or an extension of more than 3 (split at the last dot), or
/// a character that a short name cannot hold.
pub open spec fn long_by_form(name: Seq<char>) -> bool {
    let d = last_index_of(name, '.');
    ||| name.len() > 12
    ||| (d >= 0 && (d > 8 || name.len() - d - 1 > 3))
    ||| (d < 0 && name.len() > 8)
    ||| exists|i: int| 0 <= i < name.len() && forces_long(#[trigger] name[i])
}

/// Decides whether the characters `name` are long by their form.
pub fn needs_lfn_chars(name: &[char]) -> (r: bool)
    ensures
        r == long_by_form(name@),
{
    let n: usize = name.len();
    if n > 12 {
        return true;
    }
    proof {
        lemma_last_index_of(name@, '.');
    }
    match find_last(name, '.') {
        Some(d) => {
            if d > 8 || n - d - 1 > 3 {
                return true;
            }
        },
        None => {
            if n > 8 {
                return true;
            }
        },
    }
    let mut i: usize = 0;
    while i < n
        invariant
            i <= n,
            n == name@.len(),
            forall|k: int| 0 <= k < i ==> !forces_long(#[trigger] name@[k]),
        decreases n - i,
    {
        let c = name[i];
        let alnum = ('0' <= c && c <= '9') || ('A' <= c && c <= 'Z') || ('a' <= c && c <= 'z');
        if ('a' <= c && c <= 'z') || (!alnum && c != '.' && c != '_' && c != '-') {
            return true;
        }
        i += 1;
    }
    false
}

/// Decides whether `name` needs long-name entries.
pub fn needs_lfn(name: &str) -> (r: bool)
    ensures
        r == needs_lfn_spec(name@),
{
    let chars = chars_of(name);
    if needs_lfn_chars(chars.as_slice()) {
        return true;
    }
    let short = make_short_name(name);
    let shown = name_text(&short);
    !chars_eq(shown.as_slice(), chars.as_slice())
}

} // verus!
