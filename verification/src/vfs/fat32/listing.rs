//! Why a name that was added to a directory with long-name entries is
//! found again when the directory is listed.

use vstd::prelude::*;
use crate::bytes::{le16_at, lemma_le16_of_bytes};
use crate::text::is_scalar;
use crate::vfs::fat32::dir::{
    all_checksums, dir_entries, entry_at, entry_name, entry_slots, is_listed, lemma_lfn_of,
    lemma_short_of, lfn_of, overlay, scan_dir, short_of, slot, DirEntryView,
};
use crate::vfs::fat32::entry::{
    short_name_text, ShortDirEntry, ATTR_LFN, ATTR_VOLUME_ID, DELETED_MARKER, LFN_LAST_ENTRY,
};
use crate::vfs::fat32::lfn::{
    assembled, chunk_units, is_lfn_run, lfn_chunk, lfn_count, take_units, unit_of, LfnEntry,
};
use crate::vfs::fat32::name::checksum_of;

verus! {

/// Whether a character can be stored in a long-name entry and read back:
/// its code fits one unit and is neither of the two codes that end a name.
pub open spec fn storable(c: char) -> bool {
    0 < c as u32 && (c as u32) < 0xFFFF
}

/// Whether every character of `name` can be stored.
pub open spec fn all_storable(name: Seq<char>) -> bool {
    forall|i: int| 0 <= i < name.len() ==> storable(#[trigger] name[i])
}

/// Units that store characters, up to the end of the units or a zero
/// unit, are read back as those characters.
pub proof fn lemma_take_units(units: Seq<u16>, chars: Seq<char>)
    requires
        chars.len() <= units.len(),
        all_storable(chars),
        forall|i: int| 0 <= i < chars.len() ==> units[i] == unit_of(#[trigger] chars[i]),
        chars.len() < units.len() ==> units[chars.len() as int] == 0,
    ensures
        take_units(units) == chars,
    decreases units.len(),
{
    if units.len() == 0 {
        assert(chars =~= Seq::<char>::empty());
    } else if chars.len() == 0 {
        assert(chars =~= Seq::<char>::empty());
    } else {
        let c = chars[0];
        assert(storable(c));
        assert(units[0] == unit_of(c));
        assert(units[0] as u32 == c as u32);
        vstd::utf8::char_is_scalar(c);
        vstd::utf8::char_u32_cast(c, c as u32);
        assert(is_scalar(units[0] as u32));
        assert((units[0] as u32) as char == c);
        let rest_units = units.drop_first();
        let rest_chars = chars.drop_first();
        assert forall|i: int| 0 <= i < rest_chars.len() implies rest_units[i] == unit_of(
            #[trigger] rest_chars[i],
        ) by {
            assert(rest_chars[i] == chars[i + 1]);
        }
        assert(all_storable(rest_chars)) by {
            assert forall|i: int| 0 <= i < rest_chars.len() implies storable(
                #[trigger] rest_chars[i],
            ) by {
                assert(rest_chars[i] == chars[i + 1]);
            }
        }
        lemma_take_units(rest_units, rest_chars);
        assert(seq![c].add(rest_chars) =~= chars);
    }
}

/// An entry whose units store at most thirteen characters holds those
/// characters.
pub proof fn lemma_chunk_chars(e: LfnEntry, chunk: Seq<char>)
    requires
        chunk.len() <= 13,
        all_storable(chunk),
        e.units() == chunk_units(chunk),
    ensures
        e.chars_spec() == chunk,
{
    let u = e.units();
    let n = chunk.len() as int;
    assert(e.name1@ =~= u.subrange(0, 5));
    assert(e.name2@ =~= u.subrange(5, 11));
    assert(e.name3@ =~= u.subrange(11, 13));
    let c1 = chunk.subrange(0, if n < 5 {
        n
    } else {
        5
    });
    assert(all_storable(c1)) by {
        assert forall|i: int| 0 <= i < c1.len() implies storable(#[trigger] c1[i]) by {
            assert(c1[i] == chunk[i]);
        }
    }
    assert forall|i: int| 0 <= i < c1.len() implies e.name1@[i] == unit_of(#[trigger] c1[i]) by {
        assert(e.name1@[i] == u[i]);
        assert(c1[i] == chunk[i]);
    }
    if n < 5 {
        assert(e.name1@[n] == u[n]);
    }
    lemma_take_units(e.name1@, c1);
    if n < 5 {
        assert(c1 =~= chunk);
    } else {
        let c2 = chunk.subrange(5, if n < 11 {
            n
        } else {
            11
        });
        assert(all_storable(c2)) by {
            assert forall|i: int| 0 <= i < c2.len() implies storable(#[trigger] c2[i]) by {
                assert(c2[i] == chunk[i + 5]);
            }
        }
        assert forall|i: int| 0 <= i < c2.len() implies e.name2@[i] == unit_of(
            #[trigger] c2[i],
        ) by {
            assert(e.name2@[i] == u[i + 5]);
            assert(c2[i] == chunk[i + 5]);
        }
        if n < 11 {
            assert(e.name2@[n - 5] == u[n]);
        }
        lemma_take_units(e.name2@, c2);
        if n < 11 {
            assert(c1.add(c2) =~= chunk);
        } else {
            let c3 = chunk.subrange(11, n);
            assert(all_storable(c3)) by {
                assert forall|i: int| 0 <= i < c3.len() implies storable(#[trigger] c3[i]) by {
                    assert(c3[i] == chunk[i + 11]);
                }
            }
            assert forall|i: int| 0 <= i < c3.len() implies e.name3@[i] == unit_of(
                #[trigger] c3[i],
            ) by {
                assert(e.name3@[i] == u[i + 11]);
                assert(c3[i] == chunk[i + 11]);
            }
            if n < 13 {
                assert(e.name3@[n - 11] == u[n]);
            }
            lemma_take_units(e.name3@, c3);
            assert(c1.add(c2).add(c3) =~= chunk);
        }
    }
}

/// The first `m` stored entries of a name hold the end of the name, from
/// the part of the last of them on.
pub proof fn lemma_assembled_part(lfns: Seq<LfnEntry>, name: Seq<char>, checksum: u8, m: int)
    requires
        is_lfn_run(lfns, name, checksum),
        all_storable(name),
        0 <= m <= lfns.len(),
    ensures
        assembled(lfns.subrange(0, m)) == name.subrange(
            if m == 0 {
                name.len() as int
            } else {
                13 * (lfns.len() - m)
            },
            name.len() as int,
        ),
    decreases m,
{
    let count = lfns.len() as int;
    let len = name.len() as int;
    if m == 0 {
        assert(lfns.subrange(0, 0) =~= Seq::<LfnEntry>::empty());
        assert(name.subrange(len, len) =~= Seq::<char>::empty());
    } else {
        lemma_assembled_part(lfns, name, checksum, m - 1);
        let part = lfns.subrange(0, m);
        assert(part.last() == lfns[m - 1]);
        assert(part.drop_last() =~= lfns.subrange(0, m - 1));
        let index = count - m;
        let chunk = lfn_chunk(name, index);
        assert(lfns[m - 1].units() == chunk_units(chunk));
        assert(13 * index < len);
        assert(all_storable(chunk)) by {
            assert forall|i: int| 0 <= i < chunk.len() implies storable(#[trigger] chunk[i]) by {
                assert(chunk[i] == name[13 * index + i]);
            }
        }
        lemma_chunk_chars(lfns[m - 1], chunk);
        if m == 1 {
            assert(chunk =~= name.subrange(13 * index, len));
            assert(chunk.add(Seq::<char>::empty()) =~= chunk);
        } else {
            assert(13 * index + 13 <= len);
            assert(chunk.add(name.subrange(13 * (index + 1), len)) =~= name.subrange(
                13 * index,
                len,
            ));
        }
    }
}

/// The stored entries of a name hold the name.
pub proof fn lemma_assembled_run(lfns: Seq<LfnEntry>, name: Seq<char>, checksum: u8)
    requires
        is_lfn_run(lfns, name, checksum),
        all_storable(name),
        name.len() > 0,
    ensures
        assembled(lfns) == name,
        lfns.len() > 0,
{
    lemma_assembled_part(lfns, name, checksum, lfns.len() as int);
    assert(lfns.subrange(0, lfns.len() as int) =~= lfns);
    assert(name.subrange(0, name.len() as int) =~= name);
}

/// What was found before a slot is still found after it.
pub proof fn lemma_scan_keeps(
    data: Seq<u8>,
    k: int,
    parts: Seq<LfnEntry>,
    start: int,
    acc: Seq<DirEntryView>,
)
    ensures
        scan_dir(data, k, parts, start, acc).len() >= acc.len(),
        forall|i: int| 0 <= i < acc.len() ==> scan_dir(data, k, parts, start, acc)[i] == acc[i],
    decreases data.len() - 32 * k,
{
    if !(k < 0 || 32 * k + 32 > data.len()) {
        let e = slot(data, k);
        if e[0] == 0 {
        } else if e[0] == DELETED_MARKER {
            lemma_scan_keeps(data, k + 1, Seq::empty(), start, acc);
        } else if e[11] == ATTR_LFN {
            let lfn = lfn_of(e);
            if lfn.seq & LFN_LAST_ENTRY != 0 {
                lemma_scan_keeps(data, k + 1, seq![lfn], 32 * k, acc);
            } else {
                lemma_scan_keeps(data, k + 1, parts.push(lfn), start, acc);
            }
        } else {
            let short = short_of(e);
            if short.attr & ATTR_VOLUME_ID != 0 {
                lemma_scan_keeps(data, k + 1, Seq::empty(), start, acc);
            } else if is_listed(short) {
                let next = acc.push(entry_at(parts, start, k, short));
                lemma_scan_keeps(data, k + 1, Seq::empty(), start, next);
                assert forall|i: int| 0 <= i < acc.len() implies scan_dir(
                    data,
                    k,
                    parts,
                    start,
                    acc,
                )[i] == acc[i] by {
                    assert(next[i] == acc[i]);
                }
            } else {
                lemma_scan_keeps(data, k + 1, Seq::empty(), start, acc);
            }
        }
    }
}

/// What holds of a name, its stored entries and the slots they were
/// written to, for the name to be found again: the entries are those of
/// the name; the characters can be stored; the short entry is listed, is
/// neither a long-name entry nor a volume label, and does not look unused
/// or deleted; the slots lie at `offset` inside the directory; and no
/// entry of the name has a sequence byte that looks unused or deleted, or
/// is flagged as the last but the first.
pub open spec fn name_written(
    data: Seq<u8>,
    offset: int,
    lfns: Seq<LfnEntry>,
    short: ShortDirEntry,
    name: Seq<char>,
) -> bool {
    &&& is_lfn_run(lfns, name, checksum_of(short.name@))
    &&& all_storable(name)
    &&& 0 < name.len() <= 255
    &&& short.attr != ATTR_LFN
    &&& short.attr & ATTR_VOLUME_ID == 0
    &&& is_listed(short)
    &&& short.name@[0] != 0
    &&& short.name@[0] != DELETED_MARKER
    &&& 0 <= offset
    &&& offset % 32 == 0
    &&& offset + 32 * (lfns.len() + 1) <= data.len()
    &&& data == overlay(data, offset, entry_slots(lfns, short))
}

/// The sequence bytes of the stored entries of a name of at most 255
/// characters: none looks unused or deleted, the first is flagged as the
/// last part, and no other is.
pub proof fn lemma_sequence_bytes(lfns: Seq<LfnEntry>, name: Seq<char>, checksum: u8, j: int)
    requires
        is_lfn_run(lfns, name, checksum),
        0 < name.len() <= 255,
        0 <= j < lfns.len(),
    ensures
        lfns[j].seq != 0,
        lfns[j].seq != DELETED_MARKER,
        (lfns[j].seq & LFN_LAST_ENTRY != 0) == (j == 0),
        lfns.len() <= 20,
{
    let count = lfns.len() as int;
    let index = count - 1 - j;
    let n: u8 = ((index + 1) % 256) as u8;
    assert(1 <= n <= 20);
    assert(lfns[j].seq == LfnEntry::seq_byte(n, j == 0));
    assert((n | 0x40u8) != 0 && (n | 0x40u8) != 0xE5u8 && (n | 0x40u8) & 0x40u8 != 0 && n
        & 0x40u8 == 0) by (bit_vector)
        requires
            1 <= n <= 20,
    ;
}

/// The bytes of a stored long-name entry decode to the entry.
pub proof fn lemma_lfn_decodes(e: LfnEntry)
    requires
        e.attr == ATTR_LFN,
        e.entry_type == 0,
        e.cluster == 0,
    ensures
        lfn_of(e.bytes()) == e,
        e.bytes()[0] == e.seq,
        e.bytes()[11] == ATTR_LFN,
        e.bytes().len() == 32,
{
    let b = e.bytes();
    lemma_le16_of_bytes(e.name1@[0]);
    assert(e.name1@[0] == le16_at(b, 1));
    lemma_le16_of_bytes(e.name1@[1]);
    assert(e.name1@[1] == le16_at(b, 3));
    lemma_le16_of_bytes(e.name1@[2]);
    assert(e.name1@[2] == le16_at(b, 5));
    lemma_le16_of_bytes(e.name1@[3]);
    assert(e.name1@[3] == le16_at(b, 7));
    lemma_le16_of_bytes(e.name1@[4]);
    assert(e.name1@[4] == le16_at(b, 9));
    lemma_le16_of_bytes(e.name2@[0]);
    assert(e.name2@[0] == le16_at(b, 14));
    lemma_le16_of_bytes(e.name2@[1]);
    assert(e.name2@[1] == le16_at(b, 16));
    lemma_le16_of_bytes(e.name2@[2]);
    assert(e.name2@[2] == le16_at(b, 18));
    lemma_le16_of_bytes(e.name2@[3]);
    assert(e.name2@[3] == le16_at(b, 20));
    lemma_le16_of_bytes(e.name2@[4]);
    assert(e.name2@[4] == le16_at(b, 22));
    lemma_le16_of_bytes(e.name2@[5]);
    assert(e.name2@[5] == le16_at(b, 24));
    lemma_le16_of_bytes(e.name3@[0]);
    assert(e.name3@[0] == le16_at(b, 28));
    lemma_le16_of_bytes(e.name3@[1]);
    assert(e.name3@[1] == le16_at(b, 30));
    assert(le16_at(b, 26) == 0);
    assert(e.decodes(b));
    lemma_lfn_of(e, b);
}

/// From the slot of stored entry number `j` of a written name on, with
/// the entries before it gathered, the scan finds the name at the
/// position that follows what was found before.
pub proof fn lemma_scan_finds(
    data: Seq<u8>,
    offset: int,
    lfns: Seq<LfnEntry>,
    short: ShortDirEntry,
    name: Seq<char>,
    j: int,
    parts: Seq<LfnEntry>,
    start: int,
    acc: Seq<DirEntryView>,
)
    requires
        name_written(data, offset, lfns, short, name),
        0 <= j <= lfns.len(),
        j > 0 ==> parts == lfns.subrange(0, j) && start == offset,
    ensures
        scan_dir(data, offset / 32 + j, parts, start, acc).len() > acc.len(),
        scan_dir(data, offset / 32 + j, parts, start, acc)[acc.len() as int].name == name,
        scan_dir(data, offset / 32 + j, parts, start, acc)[acc.len() as int].short == short,
        scan_dir(data, offset / 32 + j, parts, start, acc)[acc.len() as int].offset == offset,
    decreases lfns.len() - j,
{
    let k0 = offset / 32;
    let k = k0 + j;
    let count = lfns.len() as int;
    let slots = entry_slots(lfns, short);
    let e = slot(data, k);
    lemma_assembled_run(lfns, name, checksum_of(short.name@));
    assert(32 * k + 32 <= data.len());
    assert forall|x: int| 0 <= x < 32 implies e[x] == slots[32 * j + x] by {
        assert(e[x] == data[32 * k + x]);
        assert(data[32 * k + x] == overlay(data, offset, slots)[32 * k + x]);
    }
    if j < count {
        let lfn = lfns[j];
        assert(e =~= lfn.bytes()) by {
            assert forall|x: int| 0 <= x < 32 implies e[x] == lfn.bytes()[x] by {
                assert((32 * j + x) / 32 == j);
                assert((32 * j + x) % 32 == x);
            }
        }
        lemma_lfn_decodes(lfn);
        lemma_sequence_bytes(lfns, name, checksum_of(short.name@), j);
        if j == 0 {
            assert(seq![lfn] =~= lfns.subrange(0, 1));
            lemma_scan_finds(data, offset, lfns, short, name, 1, seq![lfn], 32 * k, acc);
        } else {
            assert(parts.push(lfn) =~= lfns.subrange(0, j + 1));
            lemma_scan_finds(data, offset, lfns, short, name, j + 1, parts.push(lfn), start, acc);
        }
    } else {
        assert(e =~= short.bytes()) by {
            assert forall|x: int| 0 <= x < 32 implies e[x] == short.bytes()[x] by {}
        }
        short.lemma_decode_encoded();
        lemma_short_of(short, e);
        assert(e[0] == short.name@[0]);
        assert(e[11] == short.attr);
        assert(parts =~= lfns);
        assert(all_checksums(lfns, checksum_of(short.name@)));
        assert(entry_name(lfns, short) == name);
        let found = entry_at(parts, start, k, short);
        lemma_scan_keeps(data, k + 1, Seq::empty(), start, acc.push(found));
        assert(acc.push(found)[acc.len() as int] == found);
    }
}

/// Whether `entries` hold an entry with the name `name` and the short
/// entry `short`.
pub open spec fn holds_name(
    entries: Seq<DirEntryView>,
    name: Seq<char>,
    short: ShortDirEntry,
) -> bool {
    exists|i: int| 0 <= i < entries.len() && (#[trigger] entries[i]).name == name && entries[i].short == short
}

/// From any slot before a written name on, when no slot up to the name
/// ends the directory, the scan finds the name.
pub proof fn lemma_scan_reaches(
    data: Seq<u8>,
    offset: int,
    lfns: Seq<LfnEntry>,
    short: ShortDirEntry,
    name: Seq<char>,
    k: int,
    parts: Seq<LfnEntry>,
    start: int,
    acc: Seq<DirEntryView>,
)
    requires
        name_written(data, offset, lfns, short, name),
        0 <= k <= offset / 32,
        forall|j: int| 0 <= j < offset / 32 ==> #[trigger] data[32 * j] != 0,
    ensures
        holds_name(scan_dir(data, k, parts, start, acc), name, short),
    decreases offset / 32 - k,
{
    if k == offset / 32 {
        lemma_scan_finds(data, offset, lfns, short, name, 0, parts, start, acc);
        let i = acc.len() as int;
        let found = scan_dir(data, k, parts, start, acc);
        assert(0 <= i < found.len() && found[i].name == name && found[i].short == short);
    } else {
        let e = slot(data, k);
        assert(32 * k + 32 <= data.len());
        assert(e[0] == data[32 * k]);
        if e[0] == DELETED_MARKER {
            lemma_scan_reaches(data, offset, lfns, short, name, k + 1, Seq::empty(), start, acc);
        } else if e[11] == ATTR_LFN {
            let lfn = lfn_of(e);
            if lfn.seq & LFN_LAST_ENTRY != 0 {
                lemma_scan_reaches(data, offset, lfns, short, name, k + 1, seq![lfn], 32 * k, acc);
            } else {
                lemma_scan_reaches(
                    data,
                    offset,
                    lfns,
                    short,
                    name,
                    k + 1,
                    parts.push(lfn),
                    start,
                    acc,
                );
            }
        } else {
            let s = short_of(e);
            if s.attr & ATTR_VOLUME_ID != 0 {
                lemma_scan_reaches(data, offset, lfns, short, name, k + 1, Seq::empty(), start, acc);
            } else if is_listed(s) {
                lemma_scan_reaches(
                    data,
                    offset,
                    lfns,
                    short,
                    name,
                    k + 1,
                    Seq::empty(),
                    start,
                    acc.push(entry_at(parts, start, k, s)),
                );
            } else {
                lemma_scan_reaches(data, offset, lfns, short, name, k + 1, Seq::empty(), start, acc);
            }
        }
    }
}

/// A name written with long-name entries is listed: when no slot before
/// the name ends the directory, the entries of the directory hold one
/// with that name and that short entry.
pub proof fn lemma_written_name_is_listed(
    data: Seq<u8>,
    offset: int,
    lfns: Seq<LfnEntry>,
    short: ShortDirEntry,
    name: Seq<char>,
)
    requires
        name_written(data, offset, lfns, short, name),
        forall|j: int| 0 <= j < offset / 32 ==> #[trigger] data[32 * j] != 0,
    ensures
        holds_name(dir_entries(data), name, short),
{
    lemma_scan_reaches(data, offset, lfns, short, name, 0, Seq::empty(), 0, Seq::empty());
}

/// Whether `entries` hold an entry with the name `name`.
pub open spec fn lists_name(entries: Seq<DirEntryView>, name: Seq<char>) -> bool {
    exists|i: int| 0 <= i < entries.len() && (#[trigger] entries[i]).name == name
}

/// Whether `entries` hold an entry with the name `name` whose short entry
/// has the attributes `attr`, the first cluster `cluster` and the size
/// `size`.
pub open spec fn lists_entry(
    entries: Seq<DirEntryView>,
    name: Seq<char>,
    attr: u8,
    cluster: u32,
    size: u32,
) -> bool {
    exists|i: int|
        0 <= i < entries.len() && (#[trigger] entries[i]).name == name && entries[i].short.attr
            == attr && entries[i].short.cluster_spec() == cluster && entries[i].short.size
            == size
}

/// Whether no slot before byte offset `offset` ends the directory `data`.
pub open spec fn no_end_before(data: Seq<u8>, offset: int) -> bool {
    forall|j: int| 0 <= j < offset / 32 ==> #[trigger] data[32 * j] != 0
}

/// A sanitized character is a letter, a digit, an underscore or a hyphen.
pub proof fn lemma_sanitize(c: char)
    ensures
        crate::vfs::fat32::name::sanitize(c) != 0,
        crate::vfs::fat32::name::sanitize(c) != 32,
        crate::vfs::fat32::name::sanitize(c) != 46,
        crate::vfs::fat32::name::sanitize(c) != DELETED_MARKER,
{
}

/// The text of padded bytes without a dot has no dot.
pub proof fn lemma_padded_text(s: Seq<u8>)
    requires
        forall|i: int| 0 <= i < s.len() ==> #[trigger] s[i] != 46,
    ensures
        forall|i: int|
            0 <= i < crate::vfs::fat32::entry::padded_text(s).len()
                ==> #[trigger] crate::vfs::fat32::entry::padded_text(s)[i] != '.',
    decreases s.len(),
{
    if !(s.len() == 0 || s[0] == 32) {
        let rest = s.drop_first();
        assert forall|i: int| 0 <= i < rest.len() implies #[trigger] rest[i] != 46 by {
            assert(rest[i] == s[i + 1]);
        }
        lemma_padded_text(rest);
        let text = crate::vfs::fat32::entry::padded_text(s);
        let tail = crate::vfs::fat32::entry::padded_text(rest);
        assert forall|i: int| 0 <= i < text.len() implies #[trigger] text[i] != '.' by {
            if i > 0 {
                assert(text[i] == tail[i - 1]);
            } else {
                assert(s[0] != 46);
            }
        }
    }
}

/// The short name made from a name is listed, and its first byte looks
/// neither unused nor deleted.
pub proof fn lemma_short_name_is_listed(short: ShortDirEntry, name: Seq<char>, upper: Seq<char>)
    requires
        short.name@ == crate::vfs::fat32::name::short_name_bytes(name, upper),
    ensures
        is_listed(short),
        short.name@[0] != 0,
        short.name@[0] != DELETED_MARKER,
{
    let s = short.name@;
    let base = crate::vfs::fat32::name::short_base(name, upper);
    let ext = crate::vfs::fat32::name::short_ext(name, upper);
    assert forall|i: int| 0 <= i < 11 implies #[trigger] s[i] != 46 && s[i] != 0 && s[i]
        != DELETED_MARKER by {
        if i < 8 {
            if i < base.len() {
                lemma_sanitize(base[i]);
            }
        } else if i - 8 < ext.len() {
            lemma_sanitize(ext[i - 8]);
        }
    }
    let head = s.subrange(0, 8);
    let tail = s.subrange(8, 11);
    assert forall|i: int| 0 <= i < head.len() implies #[trigger] head[i] != 46 by {
        assert(head[i] == s[i]);
    }
    assert forall|i: int| 0 <= i < tail.len() implies #[trigger] tail[i] != 46 by {
        assert(tail[i] == s[i + 8]);
    }
    lemma_padded_text(head);
    lemma_padded_text(tail);
    let b = crate::vfs::fat32::entry::padded_text(head);
    let x = crate::vfs::fat32::entry::padded_text(tail);
    let text = short_name_text(s);
    let one = seq!['.'];
    let two = seq!['.', '.'];
    if x.len() == 0 {
        assert(text == b);
        if text == one {
            assert(b[0] == one[0]);
        }
        if text == two {
            assert(b[0] == two[0]);
        }
    } else {
        assert(text =~= b.push('.').add(x));
        if text == one {
            assert(text.len() == 1);
        }
        if text == two {
            assert(text.len() == 2);
            assert(text[1] == x[0]);
            assert(two[1] == '.');
        }
    }
}

/// A row of free slots begins at a slot.
pub proof fn lemma_free_scan_aligned(data: Seq<u8>, k: int, run: int, start: int, wanted: int)
    requires
        0 <= k,
        0 <= run,
        start % 32 == 0,
        0 <= start,
        run > 0 ==> start + 32 * run == 32 * k,
        32 * k <= data.len(),
    ensures
        ({
            let found = crate::vfs::fat32::dir::free_scan(data, k, run, start, wanted);
            &&& found.1 % 32 == 0
            &&& 0 <= found.1
            &&& found.0 || found.2 > 0 ==> found.1 <= data.len()
        }),
    decreases data.len() - 32 * k,
{
    if !(k < 0 || 32 * k + 32 > data.len()) {
        if crate::vfs::fat32::dir::slot_free(data, k) {
            let begun = if run == 0 {
                32 * k
            } else {
                start
            };
            if run + 1 < wanted {
                lemma_free_scan_aligned(data, k + 1, run + 1, begun, wanted);
            }
        } else {
            lemma_free_scan_aligned(data, k + 1, 0, start, wanted);
        }
    }
}

/// A name that needs long-name entries, added to a directory in which no
/// slot before the place of the new entry ends the directory, is listed.
pub proof fn lemma_added_name_is_listed(
    old_data: Seq<u8>,
    new_data: Seq<u8>,
    offset: int,
    lfns: Seq<LfnEntry>,
    short: ShortDirEntry,
    name: Seq<char>,
    upper: Seq<char>,
)
    requires
        is_lfn_run(lfns, name, checksum_of(short.name@)),
        short.name@ == crate::vfs::fat32::name::short_name_bytes(name, upper),
        all_storable(name),
        0 < name.len() <= 255,
        short.attr != ATTR_LFN,
        short.attr & ATTR_VOLUME_ID == 0,
        0 <= offset <= old_data.len(),
        offset % 32 == 0,
        old_data.len() <= new_data.len(),
        offset + 32 * (lfns.len() + 1) <= new_data.len(),
        forall|x: int| 0 <= x < offset ==> new_data[x] == old_data[x],
        new_data == overlay(new_data, offset, entry_slots(lfns, short)),
        no_end_before(old_data, offset),
    ensures
        lists_name(dir_entries(new_data), name),
        lists_entry(dir_entries(new_data), name, short.attr, short.cluster_spec(), short.size),
{
    lemma_short_name_is_listed(short, name, upper);
    assert forall|j: int| 0 <= j < offset / 32 implies #[trigger] new_data[32 * j] != 0 by {
        assert(old_data[32 * j] != 0);
    }
    lemma_written_name_is_listed(new_data, offset, lfns, short, name);
    let entries = dir_entries(new_data);
    let i = choose|i: int|
        0 <= i < entries.len() && (#[trigger] entries[i]).name == name && entries[i].short
            == short;
    assert(0 <= i < entries.len() && entries[i].name == name);
}

/// The slots at which the short entries of the entries of a directory
/// stand, found as `scan_dir` finds the entries: from slot `k` on, with
/// the slots `acc` found so far.
pub open spec fn scan_slots(data: Seq<u8>, k: int, acc: Seq<int>) -> Seq<int>
    decreases data.len() - 32 * k,
{
    if k < 0 || 32 * k + 32 > data.len() {
        acc
    } else {
        let e = slot(data, k);
        if e[0] == 0 {
            acc
        } else if e[0] == DELETED_MARKER || e[11] == ATTR_LFN {
            scan_slots(data, k + 1, acc)
        } else {
            let short = short_of(e);
            if short.attr & ATTR_VOLUME_ID == 0 && is_listed(short) {
                scan_slots(data, k + 1, acc.push(k))
            } else {
                scan_slots(data, k + 1, acc)
            }
        }
    }
}

/// The slot at which the short entry of `e` stands, going by the offset
/// and the number of slots that `e` records.
pub open spec fn short_slot(e: DirEntryView) -> int {
    e.offset / 32 + e.count - 1
}

/// Whether the long-name entries `parts` begin with one that is flagged
/// as the last of its name, as a whole run of them does.
pub open spec fn whole_run(parts: Seq<LfnEntry>) -> bool {
    parts.len() == 0 || parts[0].seq & LFN_LAST_ENTRY != 0
}

/// The entry `e` with `short` as its short entry.
pub open spec fn with_short(e: DirEntryView, short: ShortDirEntry) -> DirEntryView {
    DirEntryView { short, ..e }
}

/// The entries `entries`, found at the slots `slots`, after the short
/// entry at slot `at` became `short`.
pub open spec fn updated(
    entries: Seq<DirEntryView>,
    slots: Seq<int>,
    at: int,
    short: ShortDirEntry,
) -> Seq<DirEntryView> {
    Seq::new(
        entries.len(),
        |i: int|
            if slots[i] == at {
                with_short(entries[i], short)
            } else {
                entries[i]
            },
    )
}

/// The slots found stand for the entries found: there are as many, and
/// an entry whose long-name entries are a whole run records the slot at
/// which its short entry stands.
pub proof fn lemma_scan_slots(
    data: Seq<u8>,
    k: int,
    parts: Seq<LfnEntry>,
    start: int,
    acc: Seq<DirEntryView>,
    found: Seq<int>,
)
    requires
        k >= 0,
        acc.len() == found.len(),
        forall|i: int|
            0 <= i < acc.len() && whole_run(acc[i].lfn) ==> short_slot(#[trigger] acc[i])
                == found[i],
        parts.len() > 0 && whole_run(parts) ==> start + 32 * parts.len() == 32 * k && start % 32
            == 0,
    ensures
        scan_dir(data, k, parts, start, acc).len() == scan_slots(data, k, found).len(),
        forall|i: int|
            0 <= i < scan_dir(data, k, parts, start, acc).len() && whole_run(
                scan_dir(data, k, parts, start, acc)[i].lfn,
            ) ==> short_slot(#[trigger] scan_dir(data, k, parts, start, acc)[i]) == scan_slots(
                data,
                k,
                found,
            )[i],
    decreases data.len() - 32 * k,
{
    if !(k < 0 || 32 * k + 32 > data.len()) {
        let e = slot(data, k);
        let none = Seq::<LfnEntry>::empty();
        if e[0] == 0 {
        } else if e[0] == DELETED_MARKER {
            lemma_scan_slots(data, k + 1, none, start, acc, found);
        } else if e[11] == ATTR_LFN {
            let lfn = lfn_of(e);
            if lfn.seq & LFN_LAST_ENTRY != 0 {
                lemma_scan_slots(data, k + 1, seq![lfn], 32 * k, acc, found);
            } else {
                assert(parts.push(lfn)[0] == if parts.len() > 0 {
                    parts[0]
                } else {
                    lfn
                });
                lemma_scan_slots(data, k + 1, parts.push(lfn), start, acc, found);
            }
        } else {
            let short = short_of(e);
            if short.attr & ATTR_VOLUME_ID != 0 {
                lemma_scan_slots(data, k + 1, none, start, acc, found);
            } else if is_listed(short) {
                let entry = entry_at(parts, start, k, short);
                let next = acc.push(entry);
                let slots = found.push(k);
                assert forall|i: int| 0 <= i < next.len() && whole_run(next[i].lfn) implies short_slot(
                    #[trigger] next[i],
                ) == slots[i] by {
                    if i < acc.len() {
                        assert(next[i] == acc[i]);
                    } else {
                        assert(next[i] == entry);
                        if parts.len() > 0 {
                            assert(start / 32 + parts.len() == k) by (nonlinear_arith)
                                requires
                                    start + 32 * parts.len() == 32 * k,
                                    start % 32 == 0,
                            ;
                        }
                    }
                }
                lemma_scan_slots(data, k + 1, none, start, next, slots);
            } else {
                lemma_scan_slots(data, k + 1, none, start, acc, found);
            }
        }
    }
}

/// When the short entry at a slot is replaced by one with the same name
/// and attributes, the directory lists what it listed, at the same
/// slots, but for the short entry of the entry at that slot.
pub proof fn lemma_scan_updated(
    data: Seq<u8>,
    at: int,
    short: ShortDirEntry,
    k: int,
    parts: Seq<LfnEntry>,
    start: int,
    acc: Seq<DirEntryView>,
    found: Seq<int>,
)
    requires
        k >= 0,
        0 <= at,
        32 * at + 32 <= data.len(),
        slot(data, at)[0] != 0,
        slot(data, at)[0] != DELETED_MARKER,
        slot(data, at)[11] != ATTR_LFN,
        short.name@ == short_of(slot(data, at)).name@,
        short.attr == short_of(slot(data, at)).attr,
        exists|e: ShortDirEntry| e.decodes(slot(data, at)),
        acc.len() == found.len(),
    ensures
        scan_slots(overlay(data, 32 * at, short.bytes()), k, found) == scan_slots(data, k, found),
        scan_dir(overlay(data, 32 * at, short.bytes()), k, parts, start, updated(acc, found, at, short))
            == updated(
            scan_dir(data, k, parts, start, acc),
            scan_slots(data, k, found),
            at,
            short,
        ),
    decreases data.len() - 32 * k,
{
    let now = overlay(data, 32 * at, short.bytes());
    let before = short_of(slot(data, at));
    lemma_scan_slots_len(data, k, parts, start, acc, found);
    if !(k < 0 || 32 * k + 32 > data.len()) {
        let none = Seq::<LfnEntry>::empty();
        let same = updated(acc, found, at, short);
        if k != at {
            assert(slot(now, k) =~= slot(data, k));
        } else {
            short.lemma_decode_encoded();
            assert(slot(now, k) =~= short.bytes());
            lemma_short_of(short, slot(now, k));
            assert(before.decodes(slot(data, at)));
            assert(slot(now, k)[0] == short.name@[0]) by {
                assert(short.name@ == slot(now, k).subrange(0, 11));
                assert(slot(now, k).subrange(0, 11)[0] == slot(now, k)[0]);
            }
            assert(slot(data, k)[0] == before.name@[0]) by {
                assert(before.name@ == slot(data, k).subrange(0, 11));
                assert(slot(data, k).subrange(0, 11)[0] == slot(data, k)[0]);
            }
        }
        let e = slot(data, k);
        if e[0] == 0 {
        } else if e[0] == DELETED_MARKER {
            lemma_scan_updated(data, at, short, k + 1, none, start, acc, found);
        } else if e[11] == ATTR_LFN {
            let lfn = lfn_of(e);
            if lfn.seq & LFN_LAST_ENTRY != 0 {
                lemma_scan_updated(data, at, short, k + 1, seq![lfn], 32 * k, acc, found);
            } else {
                lemma_scan_updated(data, at, short, k + 1, parts.push(lfn), start, acc, found);
            }
        } else {
            let old_short = short_of(e);
            let new_short = short_of(slot(now, k));
            assert(new_short.attr == old_short.attr && new_short.name@ == old_short.name@);
            if old_short.attr & ATTR_VOLUME_ID != 0 {
                lemma_scan_updated(data, at, short, k + 1, none, start, acc, found);
            } else if is_listed(old_short) {
                let entry = entry_at(parts, start, k, old_short);
                let next = acc.push(entry);
                let slots = found.push(k);
                lemma_scan_updated(data, at, short, k + 1, none, start, next, slots);
                assert(updated(next, slots, at, short) =~= same.push(
                    entry_at(parts, start, k, new_short),
                )) by {
                    assert(entry_name(parts, new_short) == entry_name(parts, old_short));
                }
            } else {
                lemma_scan_updated(data, at, short, k + 1, none, start, acc, found);
            }
        }
    }
}

/// There are as many slots found as entries.
pub proof fn lemma_scan_slots_len(
    data: Seq<u8>,
    k: int,
    parts: Seq<LfnEntry>,
    start: int,
    acc: Seq<DirEntryView>,
    found: Seq<int>,
)
    requires
        acc.len() == found.len(),
    ensures
        scan_dir(data, k, parts, start, acc).len() == scan_slots(data, k, found).len(),
    decreases data.len() - 32 * k,
{
    if !(k < 0 || 32 * k + 32 > data.len()) {
        let e = slot(data, k);
        let none = Seq::<LfnEntry>::empty();
        if e[0] == 0 {
        } else if e[0] == DELETED_MARKER {
            lemma_scan_slots_len(data, k + 1, none, start, acc, found);
        } else if e[11] == ATTR_LFN {
            let lfn = lfn_of(e);
            if lfn.seq & LFN_LAST_ENTRY != 0 {
                lemma_scan_slots_len(data, k + 1, seq![lfn], 32 * k, acc, found);
            } else {
                lemma_scan_slots_len(data, k + 1, parts.push(lfn), start, acc, found);
            }
        } else {
            let short = short_of(e);
            if short.attr & ATTR_VOLUME_ID != 0 {
                lemma_scan_slots_len(data, k + 1, none, start, acc, found);
            } else if is_listed(short) {
                lemma_scan_slots_len(
                    data,
                    k + 1,
                    none,
                    start,
                    acc.push(entry_at(parts, start, k, short)),
                    found.push(k),
                );
            } else {
                lemma_scan_slots_len(data, k + 1, none, start, acc, found);
            }
        }
    }
}

/// Each slot found is a slot of the directory that holds a short entry,
/// and the entry found there has that short entry.
pub proof fn lemma_slots_hold_shorts(
    data: Seq<u8>,
    k: int,
    parts: Seq<LfnEntry>,
    start: int,
    acc: Seq<DirEntryView>,
    found: Seq<int>,
)
    requires
        k >= 0,
        acc.len() == found.len(),
        forall|i: int| 0 <= i < acc.len() ==> holds_short(data, #[trigger] found[i], acc[i].short),
    ensures
        scan_dir(data, k, parts, start, acc).len() == scan_slots(data, k, found).len(),
        forall|i: int|
            0 <= i < scan_dir(data, k, parts, start, acc).len() ==> holds_short(
                data,
                #[trigger] scan_slots(data, k, found)[i],
                scan_dir(data, k, parts, start, acc)[i].short,
            ),
    decreases data.len() - 32 * k,
{
    if !(k < 0 || 32 * k + 32 > data.len()) {
        let e = slot(data, k);
        let none = Seq::<LfnEntry>::empty();
        if e[0] == 0 {
        } else if e[0] == DELETED_MARKER {
            lemma_slots_hold_shorts(data, k + 1, none, start, acc, found);
        } else if e[11] == ATTR_LFN {
            let lfn = lfn_of(e);
            if lfn.seq & LFN_LAST_ENTRY != 0 {
                lemma_slots_hold_shorts(data, k + 1, seq![lfn], 32 * k, acc, found);
            } else {
                lemma_slots_hold_shorts(data, k + 1, parts.push(lfn), start, acc, found);
            }
        } else {
            let short = short_of(e);
            if short.attr & ATTR_VOLUME_ID != 0 {
                lemma_slots_hold_shorts(data, k + 1, none, start, acc, found);
            } else if is_listed(short) {
                let next = acc.push(entry_at(parts, start, k, short));
                let slots = found.push(k);
                assert forall|i: int| 0 <= i < next.len() implies holds_short(
                    data,
                    #[trigger] slots[i],
                    next[i].short,
                ) by {
                    if i < acc.len() {
                        assert(slots[i] == found[i] && next[i] == acc[i]);
                    }
                }
                lemma_slots_hold_shorts(data, k + 1, none, start, next, slots);
            } else {
                lemma_slots_hold_shorts(data, k + 1, none, start, acc, found);
            }
        }
    }
}

/// Whether slot `k` of the directory `data` holds the short entry
/// `short`, in use.
pub open spec fn holds_short(data: Seq<u8>, k: int, short: ShortDirEntry) -> bool {
    &&& 0 <= k
    &&& 32 * k + 32 <= data.len()
    &&& slot(data, k)[0] != 0
    &&& slot(data, k)[0] != DELETED_MARKER
    &&& slot(data, k)[11] != ATTR_LFN
    &&& short_of(slot(data, k)) == short
}

/// A lookup in updated entries finds the entry that it found before, as
/// it was updated.
pub proof fn lemma_lookup_updated(
    entries: Seq<DirEntryView>,
    slots: Seq<int>,
    at: int,
    short: ShortDirEntry,
    target: Seq<char>,
)
    requires
        entries.len() == slots.len(),
    ensures
        crate::vfs::fat32::ops::match_index(updated(entries, slots, at, short), target)
            == crate::vfs::fat32::ops::match_index(entries, target),
    decreases entries.len(),
{
    if entries.len() > 0 {
        let now = updated(entries, slots, at, short);
        assert(now[0].name == entries[0].name);
        assert(now.drop_first() =~= updated(entries.drop_first(), slots.drop_first(), at, short));
        lemma_lookup_updated(entries.drop_first(), slots.drop_first(), at, short, target);
    }
}

/// The entry that a lookup finds is found again, with its new short
/// entry, after its short slot was rewritten with a short entry of the
/// same name and attributes. This holds for an entry whose long-name
/// entries are a whole run, which records where its short entry stands.
pub proof fn lemma_rewritten_entry_is_found(data: Seq<u8>, target: Seq<char>, short: ShortDirEntry)
    requires
        crate::vfs::fat32::ops::lookup_in(dir_entries(data), target) is Some,
        whole_run((crate::vfs::fat32::ops::lookup_in(dir_entries(data), target)->0).lfn),
        short.name@ == (crate::vfs::fat32::ops::lookup_in(
            dir_entries(data),
            target,
        )->0).short.name@,
        short.attr == (crate::vfs::fat32::ops::lookup_in(dir_entries(data), target)->0).short.attr,
    ensures
        ({
            let e = crate::vfs::fat32::ops::lookup_in(dir_entries(data), target)->0;
            crate::vfs::fat32::ops::lookup_in(
                dir_entries(overlay(data, e.offset + 32 * (e.count - 1), short.bytes())),
                target,
            ) == Some(with_short(e, short))
        }),
{
    let none = Seq::<LfnEntry>::empty();
    let acc = Seq::<DirEntryView>::empty();
    let no_slots = Seq::<int>::empty();
    let entries = dir_entries(data);
    let slots = scan_slots(data, 0, no_slots);
    let i = crate::vfs::fat32::ops::match_index(entries, target);
    let e = entries[i];
    lemma_scan_slots(data, 0, none, 0, acc, no_slots);
    lemma_slots_hold_shorts(data, 0, none, 0, acc, no_slots);
    let at = slots[i];
    assert(short_slot(e) == at);
    assert(holds_short(data, at, e.short));
    assert(e.offset + 32 * (e.count - 1) == 32 * at) by {
        lemma_offsets_aligned(data, 0, none, 0, acc);
        assert(aligned(entries));
        assert(e.offset % 32 == 0);
        assert(e.offset / 32 * 32 == e.offset) by (nonlinear_arith)
            requires
                e.offset % 32 == 0,
        ;
    }
    ShortDirEntry::lemma_decodable(slot(data, at));
    lemma_scan_updated(data, at, short, 0, none, 0, acc, no_slots);
    assert(updated(acc, no_slots, at, short) =~= acc);
    lemma_lookup_updated(entries, slots, at, short, target);
}

/// Whether each of the entries begins at a whole slot.
pub open spec fn aligned(entries: Seq<DirEntryView>) -> bool {
    forall|i: int| 0 <= i < entries.len() ==> (#[trigger] entries[i]).offset % 32 == 0
}

/// The entries found begin at whole slots, when the long-name entries
/// gathered so far do.
pub proof fn lemma_offsets_aligned(
    data: Seq<u8>,
    k: int,
    parts: Seq<LfnEntry>,
    start: int,
    acc: Seq<DirEntryView>,
)
    requires
        k >= 0,
        start % 32 == 0,
        aligned(acc),
    ensures
        aligned(scan_dir(data, k, parts, start, acc)),
    decreases data.len() - 32 * k,
{
    if !(k < 0 || 32 * k + 32 > data.len()) {
        let e = slot(data, k);
        let none = Seq::<LfnEntry>::empty();
        assert((32 * k) % 32 == 0) by (nonlinear_arith);
        if e[0] == 0 {
        } else if e[0] == DELETED_MARKER {
            lemma_offsets_aligned(data, k + 1, none, start, acc);
        } else if e[11] == ATTR_LFN {
            let lfn = lfn_of(e);
            if lfn.seq & LFN_LAST_ENTRY != 0 {
                lemma_offsets_aligned(data, k + 1, seq![lfn], 32 * k, acc);
            } else {
                lemma_offsets_aligned(data, k + 1, parts.push(lfn), start, acc);
            }
        } else {
            let short = short_of(e);
            if short.attr & ATTR_VOLUME_ID != 0 {
                lemma_offsets_aligned(data, k + 1, none, start, acc);
            } else if is_listed(short) {
                let entry = entry_at(parts, start, k, short);
                let next = acc.push(entry);
                assert(entry.offset % 32 == 0);
                assert(aligned(next)) by {
                    assert forall|i: int| 0 <= i < next.len() implies (#[trigger] next[i]).offset
                        % 32 == 0 by {
                        if i < acc.len() {
                            assert(next[i] == acc[i]);
                        } else {
                            assert(next[i] == entry);
                        }
                    }
                }
                lemma_offsets_aligned(data, k + 1, none, start, next);
            } else {
                lemma_offsets_aligned(data, k + 1, none, start, acc);
            }
        }
    }
}

/// The long-name entries that the scan of a directory has gathered when
/// it reaches slot `k`: those of the slots right before `k`, back to the
/// one flagged as the last of its name, where nothing but long-name
/// entries in use stands between.
pub open spec fn gathered(data: Seq<u8>, k: int) -> Seq<LfnEntry>
    decreases k,
{
    if k <= 0 {
        Seq::empty()
    } else {
        let e = slot(data, k - 1);
        if e[0] == 0 || e[0] == DELETED_MARKER || e[11] != ATTR_LFN {
            Seq::empty()
        } else if lfn_of(e).seq & LFN_LAST_ENTRY != 0 {
            seq![lfn_of(e)]
        } else {
            gathered(data, k - 1).push(lfn_of(e))
        }
    }
}

/// Whether a short entry with the name field `short`, written at byte
/// offset `offset`, is shown under its short name: the long-name entries
/// gathered before it, if there are any, do not all carry the checksum
/// of that name field, so that they are not taken for its name.
pub open spec fn unclaimed(data: Seq<u8>, offset: int, short: Seq<u8>) -> bool {
    let parts = gathered(data, offset / 32);
    parts.len() == 0 || !all_checksums(parts, checksum_of(short))
}

/// Two directories that agree before slot `k` have gathered the same
/// long-name entries there.
pub proof fn lemma_gathered_same(was: Seq<u8>, now: Seq<u8>, k: int)
    requires
        32 * k <= was.len(),
        32 * k <= now.len(),
        forall|x: int| 0 <= x < 32 * k ==> now[x] == was[x],
    ensures
        gathered(now, k) == gathered(was, k),
    decreases k,
{
    if k > 0 {
        assert(slot(now, k - 1) =~= slot(was, k - 1));
        lemma_gathered_same(was, now, k - 1);
    }
}

/// Number of slots that the entry of `name` takes: its long-name entries,
/// when it needs them, and the short entry.
pub open spec fn slots_of(name: Seq<char>) -> int {
    if crate::vfs::fat32::name::needs_lfn_spec(name) {
        lfn_count(name.len() as int) + 1
    } else {
        1
    }
}

/// Whether a name added to the directory bytes `data` is listed
/// afterwards: its characters can be stored, it has 1 to 255 of them, no
/// slot before the place of the new entry ends the directory, and, for a
/// name that is stored without long-name entries, no long-name entries
/// that stand before that place are taken for its name.
pub open spec fn listable(data: Seq<u8>, name: Seq<char>) -> bool {
    let place = crate::vfs::fat32::dir::slots_offset(data, slots_of(name));
    &&& all_storable(name)
    &&& 0 < name.len() <= 255
    &&& no_end_before(data, place)
    &&& crate::vfs::fat32::name::needs_lfn_spec(name) || unclaimed(
        data,
        place,
        crate::vfs::fat32::name::short_name_bytes(name, crate::text::uppercase_of(name)),
    )
}

/// From any slot up to a short entry written without long-name entries,
/// in a directory that no slot before it ends and in which no long-name
/// entries are taken for its name, the scan finds the entry under the
/// name that its short name displays.
pub proof fn lemma_scan_reaches_short(
    data: Seq<u8>,
    at: int,
    short: ShortDirEntry,
    k: int,
    parts: Seq<LfnEntry>,
    start: int,
    acc: Seq<DirEntryView>,
)
    requires
        0 <= k <= at,
        32 * at + 32 <= data.len(),
        slot(data, at) == short.bytes(),
        short.attr != ATTR_LFN,
        short.attr & ATTR_VOLUME_ID == 0,
        is_listed(short),
        short.name@[0] != 0,
        short.name@[0] != DELETED_MARKER,
        forall|j: int| 0 <= j < at ==> #[trigger] data[32 * j] != 0,
        unclaimed(data, 32 * at, short.name@),
        parts == gathered(data, k),
    ensures
        holds_name(scan_dir(data, k, parts, start, acc), short_name_text(short.name@), short),
    decreases at - k,
{
    let none = Seq::<LfnEntry>::empty();
    let e = slot(data, k);
    assert((32 * at) / 32 == at) by (nonlinear_arith);
    if k == at {
        short.lemma_decode_encoded();
        lemma_short_of(short, e);
        assert(e[0] == short.name@[0] && e[11] == short.attr) by {
            assert(short.name@ == e.subrange(0, 11));
            assert(e.subrange(0, 11)[0] == e[0]);
        }
        let entry = entry_at(parts, start, k, short);
        let next = acc.push(entry);
        lemma_scan_keeps(data, k + 1, none, start, next);
        let all = scan_dir(data, k, parts, start, acc);
        assert(all == scan_dir(data, k + 1, none, start, next));
        assert(all[acc.len() as int] == next[acc.len() as int]);
        assert(entry.name == short_name_text(short.name@));
    } else {
        assert(e[0] == data[32 * k]);
        assert(gathered(data, k + 1) == if e[0] == DELETED_MARKER || e[11] != ATTR_LFN {
            none
        } else if lfn_of(e).seq & LFN_LAST_ENTRY != 0 {
            seq![lfn_of(e)]
        } else {
            gathered(data, k).push(lfn_of(e))
        });
        if e[0] == DELETED_MARKER {
            lemma_scan_reaches_short(data, at, short, k + 1, none, start, acc);
        } else if e[11] == ATTR_LFN {
            let lfn = lfn_of(e);
            if lfn.seq & LFN_LAST_ENTRY != 0 {
                lemma_scan_reaches_short(data, at, short, k + 1, seq![lfn], 32 * k, acc);
            } else {
                lemma_scan_reaches_short(data, at, short, k + 1, parts.push(lfn), start, acc);
            }
        } else {
            let found = short_of(e);
            if found.attr & ATTR_VOLUME_ID != 0 {
                lemma_scan_reaches_short(data, at, short, k + 1, none, start, acc);
            } else if is_listed(found) {
                let next = acc.push(entry_at(parts, start, k, found));
                lemma_scan_reaches_short(data, at, short, k + 1, none, start, next);
            } else {
                lemma_scan_reaches_short(data, at, short, k + 1, none, start, acc);
            }
        }
    }
}

/// A name that is stored without long-name entries, because its short
/// name displays as the name itself, is listed with its entry when it is
/// added to a directory in which no slot before the place of the new
/// entry ends the directory and no long-name entries before that place
/// are taken for its name.
pub proof fn lemma_added_short_name_is_listed(
    old_data: Seq<u8>,
    new_data: Seq<u8>,
    offset: int,
    short: ShortDirEntry,
    name: Seq<char>,
    upper: Seq<char>,
)
    requires
        short.name@ == crate::vfs::fat32::name::short_name_bytes(name, upper),
        short_name_text(short.name@) == name,
        short.attr != ATTR_LFN,
        short.attr & ATTR_VOLUME_ID == 0,
        0 <= offset <= old_data.len(),
        offset % 32 == 0,
        old_data.len() <= new_data.len(),
        offset + 32 <= new_data.len(),
        forall|x: int| 0 <= x < offset ==> new_data[x] == old_data[x],
        new_data == overlay(new_data, offset, short.bytes()),
        no_end_before(old_data, offset),
        unclaimed(old_data, offset, short.name@),
    ensures
        lists_name(dir_entries(new_data), name),
        lists_entry(dir_entries(new_data), name, short.attr, short.cluster_spec(), short.size),
{
    let at = offset / 32;
    assert(32 * at == offset) by (nonlinear_arith)
        requires
            at == offset / 32,
            offset % 32 == 0,
    ;
    lemma_short_name_is_listed(short, name, upper);
    assert forall|j: int| 0 <= j < at implies #[trigger] new_data[32 * j] != 0 by {
        assert(old_data[32 * j] != 0);
    }
    assert(slot(new_data, at) =~= short.bytes());
    assert((32 * at) / 32 == at);
    lemma_gathered_same(old_data, new_data, at);
    lemma_scan_reaches_short(
        new_data,
        at,
        short,
        0,
        Seq::empty(),
        0,
        Seq::empty(),
    );
    let entries = dir_entries(new_data);
    let i = choose|i: int|
        0 <= i < entries.len() && (#[trigger] entries[i]).name == name && entries[i].short
            == short;
    assert(0 <= i < entries.len() && entries[i].name == name);
}

} // verus!
