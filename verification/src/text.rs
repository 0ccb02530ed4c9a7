//! Conversions between strings and sequences of characters.

use vstd::prelude::*;
use vstd::string::*;

verus! {

/// Whether `v` is the code of a character: not a surrogate and at most 0x10FFFF.
pub open spec fn is_scalar(v: u32) -> bool {
    v <= 0xD7FF || (0xE000 <= v && v <= 0x10FFFF)
}

/// The uppercase form that the standard library gives a string.
pub uninterp spec fn uppercase_of(s: Seq<char>) -> Seq<char>;

/// The lowercase form that the standard library gives a string.
pub uninterp spec fn lowercase_of(s: Seq<char>) -> Seq<char>;

/// Calls `String::push`: the character is appended at the end.
#[verifier::external_body]
pub(crate) fn push_char(s: &mut String, c: char)
    ensures
        final(s)@ == old(s)@.push(c),
{
    s.push(c)
}

/// Calls `char::from_u32`: the character with code `v`, which exists
/// exactly when `v` is neither a surrogate nor above 0x10FFFF.
#[verifier::external_body]
pub(crate) fn char_from_u32(v: u32) -> (r: Option<char>)
    ensures
        r == if is_scalar(v) {
            Some(v as char)
        } else {
            None
        },
{
    char::from_u32(v)
}

/// Calls `str::to_uppercase`; the result is known only by name.
#[verifier::external_body]
pub(crate) fn to_uppercase(s: &str) -> (r: String)
    ensures
        r@ == uppercase_of(s@),
{
    s.to_uppercase()
}

/// Calls `str::to_lowercase`; the result is known only by name.
#[verifier::external_body]
pub(crate) fn to_lowercase(s: &str) -> (r: String)
    ensures
        r@ == lowercase_of(s@),
{
    s.to_lowercase()
}

/// Calls `core::str::from_utf8`, which accepts exactly the byte sequences
/// that are valid UTF-8 and reads them as the text they encode.
#[verifier::external_body]
pub(crate) fn text_of_bytes(bytes: &[u8]) -> (r: Option<String>)
    ensures
        r is Some <==> vstd::utf8::valid_utf8(bytes@),
        r is Some ==> r->0@ == vstd::utf8::decode_utf8(bytes@),
{
    core::str::from_utf8(bytes).ok().map(|s| s.to_owned())
}

/// The text that `bytes` encode, when they are valid UTF-8.
pub fn decode_text(bytes: &[u8]) -> (r: Option<String>)
    ensures
        r is Some <==> vstd::utf8::valid_utf8(bytes@),
        r is Some ==> r->0@ == vstd::utf8::decode_utf8(bytes@),
{
    text_of_bytes(bytes)
}

/// The characters of `s`, in order.
pub fn chars_of(s: &str) -> (v: Vec<char>)
    ensures
        v@ == s@,
{
    let n: usize = s.unicode_len();
    let mut v: Vec<char> = Vec::new();
    let mut i: usize = 0;
    while i < n
        invariant
            i <= n,
            n == s@.len(),
            v@ == s@.subrange(0, i as int),
        decreases n - i,
    {
        v.push(s.get_char(i));
        i += 1;
        assert(v@ =~= s@.subrange(0, i as int));
    }
    assert(s@.subrange(0, n as int) =~= s@);
    v
}

/// The string made of the characters of `v`, in order.
pub fn string_of(v: &[char]) -> (s: String)
    ensures
        s@ == v@,
{
    let mut s = String::new();
    let mut i: usize = 0;
    while i < v.len()
        invariant
            i <= v@.len(),
            s@ == v@.subrange(0, i as int),
        decreases v@.len() - i,
    {
        push_char(&mut s, v[i]);
        i += 1;
        assert(s@ =~= v@.subrange(0, i as int));
    }
    assert(v@.subrange(0, v@.len() as int) =~= v@);
    s
}

/// Whether two character sequences are the same.
pub fn chars_eq(a: &[char], b: &[char]) -> (r: bool)
    ensures
        r == (a@ == b@),
{
    if a.len() != b.len() {
        return false;
    }
    let mut i: usize = 0;
    while i < a.len()
        invariant
            i <= a@.len(),
            a@.len() == b@.len(),
            a@.subrange(0, i as int) == b@.subrange(0, i as int),
        decreases a@.len() - i,
    {
        if a[i] != b[i] {
            return false;
        }
        i += 1;
        assert(a@.subrange(0, i as int) =~= a@.subrange(0, i - 1).push(a@[i - 1]));
        assert(b@.subrange(0, i as int) =~= b@.subrange(0, i - 1).push(b@[i - 1]));
    }
    assert(a@.subrange(0, a@.len() as int) =~= a@);
    assert(b@.subrange(0, b@.len() as int) =~= b@);
    true
}

/// Whether `s` is exactly the text `t`.
pub fn str_is(s: &str, t: &str) -> (r: bool)
    ensures
        r == (s@ == t@),
{
    let a = chars_of(s);
    let b = chars_of(t);
    chars_eq(a.as_slice(), b.as_slice())
}

/// Position of the last occurrence of `c` in `s`, or -1 when there is none.
pub open spec fn last_index_of(s: Seq<char>, c: char) -> int
    decreases s.len(),
{
    if s.len() == 0 {
        -1
    } else if s.last() == c {
        s.len() - 1
    } else {
        last_index_of(s.drop_last(), c)
    }
}

/// The last occurrence is an occurrence, and nothing after it is one.
pub proof fn lemma_last_index_of(s: Seq<char>, c: char)
    ensures
        -1 <= last_index_of(s, c) < s.len(),
        last_index_of(s, c) >= 0 ==> s[last_index_of(s, c)] == c,
        forall|i: int| last_index_of(s, c) < i < s.len() ==> s[i] != c,
        last_index_of(s, c) < 0 <==> !s.contains(c),
    decreases s.len(),
{
    if s.len() == 0 {
    } else if s.last() == c {
        assert(s[s.len() - 1] == c);
    } else {
        let t = s.drop_last();
        lemma_last_index_of(t, c);
        assert forall|i: int| last_index_of(s, c) < i < s.len() implies s[i] != c by {
            if i < t.len() {
                assert(t[i] == s[i]);
            }
        }
        if last_index_of(s, c) >= 0 {
            assert(t[last_index_of(t, c)] == s[last_index_of(t, c)]);
        }
        if s.contains(c) {
            let k = choose|k: int| 0 <= k < s.len() && s[k] == c;
            assert(t[k] == c);
        }
    }
}

/// Finds the last occurrence of `c` in `s`.
pub fn find_last(s: &[char], c: char) -> (r: Option<usize>)
    ensures
        r is None <==> last_index_of(s@, c) < 0,
        r matches Some(i) ==> i as int == last_index_of(s@, c),
{
    let mut i: usize = s.len();
    assert(s@.subrange(0, i as int) =~= s@);
    while i > 0
        invariant
            i <= s@.len(),
            last_index_of(s@, c) == last_index_of(s@.subrange(0, i as int), c),
        decreases i,
    {
        i -= 1;
        proof {
            let t = s@.subrange(0, i + 1);
            assert(t.last() == s@[i as int]);
            assert(t.drop_last() =~= s@.subrange(0, i as int));
        }
        if s[i] == c {
            return Some(i);
        }
    }
    assert(s@.subrange(0, 0).len() == 0);
    None
}

/// Whether `c` occurs in `s`.
pub fn contains_char(s: &[char], c: char) -> (r: bool)
    ensures
        r == s@.contains(c),
{
    proof {
        lemma_last_index_of(s@, c);
    }
    find_last(s, c).is_some()
}

/// The non-empty pieces of `cur` followed by `s`, cut at every `sep` of `s`.
pub open spec fn segments_from(s: Seq<char>, sep: char, cur: Seq<char>) -> Seq<Seq<char>>
    decreases s.len(),
{
    let done: Seq<Seq<char>> = if cur.len() == 0 {
        Seq::empty()
    } else {
        seq![cur]
    };
    if s.len() == 0 {
        done
    } else if s[0] == sep {
        done.add(segments_from(s.drop_first(), sep, Seq::empty()))
    } else {
        segments_from(s.drop_first(), sep, cur.push(s[0]))
    }
}

/// The non-empty pieces of `s` between occurrences of `sep`, in order.
pub open spec fn segments(s: Seq<char>, sep: char) -> Seq<Seq<char>> {
    segments_from(s, sep, Seq::empty())
}

/// The views of a vector of character vectors.
pub open spec fn texts(v: Seq<Vec<char>>) -> Seq<Seq<char>> {
    Seq::new(v.len(), |i: int| v[i]@)
}

/// No piece is empty and no piece contains the separator.
pub proof fn lemma_segments_from(s: Seq<char>, sep: char, cur: Seq<char>)
    requires
        !cur.contains(sep),
    ensures
        forall|j: int|
            0 <= j < segments_from(s, sep, cur).len() ==> (#[trigger] segments_from(
                s,
                sep,
                cur,
            )[j]).len() > 0 && !segments_from(s, sep, cur)[j].contains(sep),
    decreases s.len(),
{
    let done: Seq<Seq<char>> = if cur.len() == 0 {
        Seq::empty()
    } else {
        seq![cur]
    };
    if s.len() == 0 {
        assert(segments_from(s, sep, cur) == done);
        if cur.len() > 0 {
            assert(done[0] == cur);
        }
    } else if s[0] == sep {
        lemma_segments_from(s.drop_first(), sep, Seq::empty());
        let rest = segments_from(s.drop_first(), sep, Seq::empty());
        assert(segments_from(s, sep, cur) == done.add(rest));
        assert forall|j: int| 0 <= j < done.add(rest).len() implies (#[trigger] done.add(
            rest,
        )[j]).len() > 0 && !done.add(rest)[j].contains(sep) by {
            if j >= done.len() {
                assert(done.add(rest)[j] == rest[j - done.len()]);
            } else {
                assert(done.add(rest)[j] == cur);
            }
        }
    } else {
        let next = cur.push(s[0]);
        assert(!next.contains(sep)) by {
            if next.contains(sep) {
                let k = choose|k: int| 0 <= k < next.len() && next[k] == sep;
                if k < cur.len() {
                    assert(cur[k] == sep);
                }
            }
        }
        lemma_segments_from(s.drop_first(), sep, next);
        assert(segments_from(s, sep, cur) == segments_from(s.drop_first(), sep, next));
    }
}

/// No piece is empty and no piece contains the separator.
pub proof fn lemma_segments(s: Seq<char>, sep: char)
    ensures
        forall|j: int|
            0 <= j < segments(s, sep).len() ==> (#[trigger] segments(s, sep)[j]).len() > 0
                && !segments(s, sep)[j].contains(sep),
{
    lemma_segments_from(s, sep, Seq::empty());
}

/// Splits `s` at every `sep` and keeps the pieces that are not empty.
pub fn split_segments(s: &[char], sep: char) -> (r: Vec<Vec<char>>)
    ensures
        texts(r@) == segments(s@, sep),
{
    let n: usize = s.len();
    let mut out: Vec<Vec<char>> = Vec::new();
    let mut cur: Vec<char> = Vec::new();
    let mut pos: usize = 0;
    proof {
        assert(s@.subrange(0, n as int) =~= s@);
        assert(texts(out@) =~= Seq::<Seq<char>>::empty());
        assert(Seq::<Seq<char>>::empty().add(segments(s@, sep)) =~= segments(s@, sep));
    }
    while pos < n
        invariant
            pos <= n,
            n == s@.len(),
            texts(out@).add(segments_from(s@.subrange(pos as int, n as int), sep, cur@))
                == segments(s@, sep),
        decreases n - pos,
    {
        let ghost tail = s@.subrange(pos as int, n as int);
        let ghost before = texts(out@);
        let ghost piece = cur@;
        proof {
            assert(tail.drop_first() =~= s@.subrange(pos + 1, n as int));
            assert(tail[0] == s@[pos as int]);
        }
        if s[pos] == sep {
            if cur.len() > 0 {
                out.push(cur);
                cur = Vec::new();
                proof {
                    assert(texts(out@) =~= before.push(piece));
                    let rest = segments_from(tail.drop_first(), sep, Seq::empty());
                    assert(before.push(piece).add(rest) =~= before.add(seq![piece].add(rest)));
                }
            } else {
                proof {
                    let rest = segments_from(tail.drop_first(), sep, Seq::empty());
                    assert(Seq::<Seq<char>>::empty().add(rest) =~= rest);
                    assert(cur@ =~= Seq::<char>::empty());
                }
            }
        } else {
            cur.push(s[pos]);
        }
        pos += 1;
    }
    proof {
        assert(s@.subrange(n as int, n as int) =~= Seq::<char>::empty());
    }
    let ghost before = texts(out@);
    let ghost piece = cur@;
    if cur.len() > 0 {
        out.push(cur);
        assert(texts(out@) =~= before.push(piece));
        assert(before.push(piece) =~= before.add(seq![piece]));
    } else {
        assert(before.add(Seq::<Seq<char>>::empty()) =~= before);
    }
    out
}

/// The decimal digit for a value below ten.
pub open spec fn digit_char(d: int) -> char {
    ((48 + d) as u8) as char
}

/// The decimal digits of `n`, without leading zeros.
pub open spec fn digits_of(n: nat) -> Seq<char>
    decreases n,
{
    if n < 10 {
        seq![digit_char(n as int)]
    } else {
        digits_of(n / 10).push(digit_char((n % 10) as int))
    }
}

/// The digits of a number read back as the number.
pub proof fn lemma_digits_read_back(n: nat)
    ensures
        digits_value(digits_of(n)) == n,
    decreases n,
{
    let last = digit_char((n % 10) as int);
    assert(last as u32 == 48 + n % 10) by {
        let b = (48 + n % 10) as u8;
        assert(b as char as u32 == b as u32);
    }
    if n < 10 {
        let s = seq![digit_char(n as int)];
        assert(s.drop_last() =~= Seq::<char>::empty());
        assert(s.last() == last);
        assert(digits_value(s.drop_last()) == 0);
    } else {
        lemma_digits_read_back(n / 10);
        let s = digits_of(n / 10).push(last);
        assert(s.drop_last() =~= digits_of(n / 10));
        assert(s.last() == last);
    }
}

/// Different numbers have different digits.
pub proof fn lemma_digits_differ(a: nat, b: nat)
    requires
        a != b,
    ensures
        digits_of(a) != digits_of(b),
{
    lemma_digits_read_back(a);
    lemma_digits_read_back(b);
}

/// Appends the decimal digits of `n` to `out`.
pub fn push_decimal(n: u64, out: &mut Vec<char>)
    ensures
        final(out)@ == old(out)@.add(digits_of(n as nat)),
    decreases n,
{
    if n >= 10 {
        push_decimal(n / 10, out);
    }
    let d: u8 = (n % 10) as u8;
    out.push((48 + d) as char);
    proof {
        if n < 10 {
            assert(old(out)@.push(digit_char(n as int)) =~= old(out)@.add(digits_of(n as nat)));
        } else {
            assert(old(out)@.add(digits_of((n / 10) as nat)).push(digit_char((n % 10) as int))
                =~= old(out)@.add(digits_of(n as nat)));
        }
    }
}

/// The decimal digits of `n`.
pub fn decimal(n: u64) -> (r: Vec<char>)
    ensures
        r@ == digits_of(n as nat),
{
    let mut out: Vec<char> = Vec::new();
    push_decimal(n, &mut out);
    assert(Seq::<char>::empty().add(digits_of(n as nat)) =~= digits_of(n as nat));
    out
}

/// Appends the characters `text` to `out`.
pub fn push_chars(out: &mut Vec<char>, text: &[char])
    ensures
        final(out)@ == old(out)@.add(text@),
{
    let mut i: usize = 0;
    while i < text.len()
        invariant
            i <= text@.len(),
            out@ == old(out)@.add(text@.subrange(0, i as int)),
        decreases text@.len() - i,
    {
        out.push(text[i]);
        i += 1;
        assert(out@ =~= old(out)@.add(text@.subrange(0, i as int)));
    }
    assert(text@.subrange(0, text@.len() as int) =~= text@);
}

/// Appends the characters of `text` to `out`.
pub fn push_str(out: &mut Vec<char>, text: &str)
    ensures
        final(out)@ == old(out)@.add(text@),
{
    let chars = chars_of(text);
    push_chars(out, chars.as_slice());
}

/// Whether `c` is a decimal digit.
pub open spec fn is_digit(c: char) -> bool {
    '0' <= c && c <= '9'
}

/// The number that the decimal digits `s` write.
pub open spec fn digits_value(s: Seq<char>) -> nat
    decreases s.len(),
{
    if s.len() == 0 {
        0
    } else {
        digits_value(s.drop_last()) * 10 + ((s.last() as u32 - 48) as nat)
    }
}

/// Whether every character of `s` is a decimal digit.
pub open spec fn all_digits(s: Seq<char>) -> bool {
    forall|i: int| 0 <= i < s.len() ==> is_digit(#[trigger] s[i])
}

/// The number that `s` writes in decimal, as the standard library reads
/// one: an optional `+`, then at least one digit and nothing else; there
/// is none when the number does not fit 64 bits.
pub open spec fn parse_decimal(s: Seq<char>) -> Option<u64> {
    let body = if s.len() > 0 && s[0] == '+' {
        s.drop_first()
    } else {
        s
    };
    if body.len() == 0 || !all_digits(body) || digits_value(body) > u64::MAX {
        None
    } else {
        Some(digits_value(body) as u64)
    }
}

/// Digits written after a number do not make it smaller.
pub proof fn lemma_digits_value_grows(s: Seq<char>, j: int)
    requires
        0 <= j <= s.len(),
        forall|i: int| 0 <= i < s.len() ==> is_digit(#[trigger] s[i]),
    ensures
        digits_value(s.subrange(0, j)) <= digits_value(s),
    decreases s.len() - j,
{
    if j == s.len() {
        assert(s.subrange(0, j) =~= s);
    } else {
        let t = s.drop_last();
        assert forall|i: int| 0 <= i < t.len() implies is_digit(#[trigger] t[i]) by {
            assert(t[i] == s[i]);
        }
        if j == s.len() - 1 {
            assert(s.subrange(0, j) =~= t);
        } else {
            lemma_digits_value_grows(t, j);
            assert(t.subrange(0, j) =~= s.subrange(0, j));
        }
        assert(is_digit(s.last()));
    }
}

/// Reads the number that `s` writes in decimal.
pub fn parse_u64(s: &[char]) -> (r: Option<u64>)
    ensures
        r == parse_decimal(s@),
{
    let n: usize = s.len();
    let start: usize = if n > 0 && s[0] == '+' {
        1
    } else {
        0
    };
    let ghost body = if start == 1 {
        s@.drop_first()
    } else {
        s@
    };
    if start == n {
        return None;
    }
    let mut value: u64 = 0;
    let mut i: usize = start;
    proof {
        assert(body.subrange(0, 0) =~= Seq::<char>::empty());
    }
    while i < n
        invariant
            start <= i <= n,
            n == s@.len(),
            body.len() == n - start,
            body == (if s@.len() > 0 && s@[0] == '+' {
                s@.drop_first()
            } else {
                s@
            }),
            forall|k: int| 0 <= k < body.len() ==> body[k] == s@[k + start],
            forall|k: int| 0 <= k < i - start ==> is_digit(#[trigger] body[k]),
            value == digits_value(body.subrange(0, i - start)),
        decreases n - i,
    {
        let c = s[i];
        if !('0' <= c && c <= '9') {
            proof {
                assert(body[i - start] == c);
                assert(!is_digit(body[i - start]));
                assert(!all_digits(body));
            }
            return None;
        }
        let d: u64 = (c as u32 - 48) as u64;
        proof {
            let head = body.subrange(0, i - start + 1);
            assert(head.drop_last() =~= body.subrange(0, i - start));
            assert(head.last() == c);
        }
        let next = match value.checked_mul(10) {
            Some(v) => v.checked_add(d),
            None => None,
        };
        match next {
            Some(v) => {
                value = v;
            },
            None => {
                proof {
                    // The digits read so far already exceed 64 bits, or the
                    // rest of the text is not made of digits.
                    if all_digits(body) {
                        lemma_digits_value_grows(body, i - start + 1);
                        assert(digits_value(body.subrange(0, i - start + 1)) == value * 10 + d);
                        assert(digits_value(body) > u64::MAX);
                    }

                }
                return None;
            },
        }
        i += 1;
    }
    proof {
        assert(body.subrange(0, n - start) =~= body);
    }
    Some(value)
}

} // verus!
