//! Long-name entries: thirteen UTF-16 units each, stored last part first.

use vstd::prelude::*;
use crate::bytes::{byte_of, le16_at, read_le16, u32_byte};
use crate::text::{char_from_u32, chars_of, is_scalar, string_of};
use crate::vfs::fat32::entry::{ATTR_LFN, DIR_ENTRY_SIZE, LFN_LAST_ENTRY, LFN_SEQ_MASK};
use crate::vfs::fat32::name::{checksum_of, lfn_checksum};

verus! {

/// A long-name directory entry, field by field.
#[derive(Debug, Clone, Copy)]
pub struct LfnEntry {
    pub seq: u8,
    pub name1: [u16; 5],
    pub attr: u8,
    pub entry_type: u8,
    pub checksum: u8,
    pub name2: [u16; 6],
    pub cluster: u16,
    pub name3: [u16; 2],
}

/// The UTF-16 unit stored for a character: its code modulo 65536.
pub open spec fn unit_of(c: char) -> u16 {
    (c as u32 % 65536) as u16
}

/// The thirteen units that store the characters `chars`: one unit per
/// character, then a zero unit if fewer than thirteen were given, then
/// 0xFFFF in every remaining position.
pub open spec fn chunk_units(chars: Seq<char>) -> Seq<u16> {
    Seq::new(
        13,
        |i: int|
            if i < chars.len() {
                unit_of(chars[i])
            } else if i == chars.len() {
                0u16
            } else {
                0xFFFFu16
            },
    )
}

/// The characters read from a run of units: reading stops at the first
/// zero or 0xFFFF unit, and a unit that is no character code is passed over.
pub open spec fn take_units(s: Seq<u16>) -> Seq<char>
    decreases s.len(),
{
    if s.len() == 0 || s[0] == 0 || s[0] == 0xFFFF {
        Seq::empty()
    } else if !is_scalar(s[0] as u32) {
        take_units(s.drop_first())
    } else {
        seq![(s[0] as u32) as char].add(take_units(s.drop_first()))
    }
}

/// Appends to `out` the characters read from `units`.
fn scan_units(units: &[u16], out: &mut Vec<char>)
    ensures
        final(out)@ == old(out)@.add(take_units(units@)),
{
    let n: usize = units.len();
    let mut i: usize = 0;
    assert(units@.subrange(0, n as int) =~= units@);
    while i < n && units[i] != 0 && units[i] != 0xFFFF
        invariant
            i <= n,
            n == units@.len(),
            out@.add(take_units(units@.subrange(i as int, n as int))) == old(out)@.add(
                take_units(units@),
            ),
        decreases n - i,
    {
        let ghost rest = units@.subrange(i as int, n as int);
        proof {
            assert(rest.drop_first() =~= units@.subrange(i + 1, n as int));
        }
        match char_from_u32(units[i] as u32) {
            Some(ch) => {
                proof {
                    assert(rest[0] == units@[i as int]);
                    assert(ch == (units@[i as int] as u32) as char);
                    assert(out@.push(ch).add(take_units(rest.drop_first())) =~= out@.add(
                        take_units(rest),
                    ));
                }
                out.push(ch);
            },
            None => {},
        }
        i += 1;
    }
    proof {
        let rest = units@.subrange(i as int, n as int);
        assert(take_units(rest) =~= Seq::<char>::empty());
        assert(out@.add(take_units(rest)) =~= out@);
    }
}

impl LfnEntry {
    /// The thirteen units of the entry, in the order of the name.
    pub open spec fn units(&self) -> Seq<u16> {
        self.name1@.add(self.name2@).add(self.name3@)
    }

    /// Whether the fields are those found at the fixed offsets of `data`.
    pub open spec fn decodes(&self, data: Seq<u8>) -> bool {
        &&& self.seq == data[0]
        &&& forall|i: int| 0 <= i < 5 ==> self.name1@[i] == le16_at(data, 1 + 2 * i)
        &&& self.attr == data[11]
        &&& self.entry_type == data[12]
        &&& self.checksum == data[13]
        &&& forall|i: int| 0 <= i < 6 ==> self.name2@[i] == le16_at(data, 14 + 2 * i)
        &&& self.cluster == le16_at(data, 26)
        &&& forall|i: int| 0 <= i < 2 ==> self.name3@[i] == le16_at(data, 28 + 2 * i)
    }

    /// The 32 bytes that the entry is stored as. The attribute is always
    /// that of a long-name entry; the type and cluster fields are zero.
    pub open spec fn bytes(&self) -> Seq<u8> {
        Seq::new(
            32,
            |i: int|
                if i == 0 {
                    self.seq
                } else if i < 11 {
                    byte_of(self.name1@[(i - 1) / 2] as u32, (i - 1) % 2)
                } else if i == 11 {
                    ATTR_LFN
                } else if i == 12 {
                    0u8
                } else if i == 13 {
                    self.checksum
                } else if i < 26 {
                    byte_of(self.name2@[(i - 14) / 2] as u32, (i - 14) % 2)
                } else if i < 28 {
                    0u8
                } else {
                    byte_of(self.name3@[(i - 28) / 2] as u32, (i - 28) % 2)
                },
        )
    }

    /// Decodes a long-name entry from the first 32 bytes of `data`. There
    /// is none when fewer than 32 bytes are given or the attribute byte is
    /// not that of a long-name entry.
    pub fn parse(data: &[u8]) -> (r: Option<Self>)
        ensures
            r is Some <==> data@.len() >= 32 && data@[11] == ATTR_LFN,
            r matches Some(e) ==> e.decodes(data@),
    {
        if data.len() < DIR_ENTRY_SIZE || data[11] != ATTR_LFN {
            return None;
        }
        let mut name1 = [0u16; 5];
        let mut name2 = [0u16; 6];
        let mut name3 = [0u16; 2];
        let mut i: usize = 0;
        while i < 5
            invariant
                i <= 5,
                data@.len() >= 32,
                forall|k: int| 0 <= k < i ==> name1@[k] == le16_at(data@, 1 + 2 * k),
            decreases 5 - i,
        {
            name1[i] = read_le16(data, 1 + i * 2);
            i += 1;
        }
        i = 0;
        while i < 6
            invariant
                i <= 6,
                data@.len() >= 32,
                forall|k: int| 0 <= k < i ==> name2@[k] == le16_at(data@, 14 + 2 * k),
            decreases 6 - i,
        {
            name2[i] = read_le16(data, 14 + i * 2);
            i += 1;
        }
        i = 0;
        while i < 2
            invariant
                i <= 2,
                data@.len() >= 32,
                forall|k: int| 0 <= k < i ==> name3@[k] == le16_at(data@, 28 + 2 * k),
            decreases 2 - i,
        {
            name3[i] = read_le16(data, 28 + i * 2);
            i += 1;
        }
        Some(
            Self {
                seq: data[0],
                name1,
                attr: data[11],
                entry_type: data[12],
                checksum: data[13],
                name2,
                cluster: read_le16(data, 26),
                name3,
            },
        )
    }

    /// Encodes the entry as its 32 bytes.
    pub fn serialize(&self) -> (r: [u8; 32])
        ensures
            r@ == self.bytes(),
    {
        let mut data = [0u8; 32];
        proof {
            crate::bytes::lemma_repeated(data, 0u8);
        }
        data[0] = self.seq;
        let mut i: usize = 0;
        while i < 5
            invariant
                i <= 5,
                data@[0] == self.seq,
                forall|k: int| 1 <= k < 1 + 2 * i ==> data@[k] == self.bytes()[k],
                forall|k: int| 1 + 2 * i <= k < 32 ==> data@[k] == 0,
            decreases 5 - i,
        {
            data[1 + i * 2] = u32_byte(self.name1[i] as u32, 0);
            data[2 + i * 2] = u32_byte(self.name1[i] as u32, 1);
            i += 1;
        }
        data[11] = ATTR_LFN;
        data[12] = 0;
        data[13] = self.checksum;
        i = 0;
        while i < 6
            invariant
                i <= 6,
                forall|k: int| 0 <= k < 14 + 2 * i ==> data@[k] == self.bytes()[k],
                forall|k: int| 14 + 2 * i <= k < 32 ==> data@[k] == 0,
            decreases 6 - i,
        {
            data[14 + i * 2] = u32_byte(self.name2[i] as u32, 0);
            data[15 + i * 2] = u32_byte(self.name2[i] as u32, 1);
            i += 1;
        }
        data[26] = 0;
        data[27] = 0;
        i = 0;
        while i < 2
            invariant
                i <= 2,
                forall|k: int| 0 <= k < 28 + 2 * i ==> data@[k] == self.bytes()[k],
            decreases 2 - i,
        {
            data[28 + i * 2] = u32_byte(self.name3[i] as u32, 0);
            data[29 + i * 2] = u32_byte(self.name3[i] as u32, 1);
            i += 1;
        }
        assert(data@ =~= self.bytes());
        data
    }

    /// The position of the entry among the entries of its name, from 1.
    pub fn sequence_number(&self) -> (r: u8)
        ensures
            r == self.seq & LFN_SEQ_MASK,
    {
        self.seq & LFN_SEQ_MASK
    }

    /// Whether the entry holds the last part of its name.
    pub fn is_last(&self) -> (r: bool)
        ensures
            r == (self.seq & LFN_LAST_ENTRY != 0),
    {
        self.seq & LFN_LAST_ENTRY != 0
    }

    /// The characters the entry holds. The three groups of units are read
    /// in turn; a group is read only if the groups before it gave as many
    /// characters as they have units.
    pub open spec fn chars_spec(&self) -> Seq<char> {
        let first = take_units(self.name1@);
        if first.len() < 5 {
            first
        } else {
            let second = first.add(take_units(self.name2@));
            if second.len() < 11 {
                second
            } else {
                second.add(take_units(self.name3@))
            }
        }
    }

    /// The characters the entry holds.
    pub fn chars(&self) -> (r: Vec<char>)
        ensures
            r@ == self.chars_spec(),
    {
        let mut chars: Vec<char> = Vec::new();
        scan_units(self.name1.as_slice(), &mut chars);
        assert(chars@ =~= take_units(self.name1@));
        if chars.len() < 5 {
            return chars;
        }
        scan_units(self.name2.as_slice(), &mut chars);
        if chars.len() < 11 {
            return chars;
        }
        scan_units(self.name3.as_slice(), &mut chars);
        chars
    }

    /// The sequence byte of entry number `seq`, flagged when it is the last.
    pub open spec fn seq_byte(seq: u8, is_last: bool) -> u8 {
        if is_last {
            seq | LFN_LAST_ENTRY
        } else {
            seq
        }
    }

    /// A long-name entry that holds `chars` (thirteen at most are stored).
    pub fn new(seq: u8, checksum: u8, chars: &[char], is_last: bool) -> (r: Self)
        ensures
            r.seq == Self::seq_byte(seq, is_last),
            r.checksum == checksum,
            r.attr == ATTR_LFN,
            r.entry_type == 0,
            r.cluster == 0,
            r.units() == chunk_units(chars@),
    {
        let mut name1 = [0xFFFFu16; 5];
        let mut name2 = [0xFFFFu16; 6];
        let mut name3 = [0xFFFFu16; 2];
        proof {
            crate::bytes::lemma_repeated(name1, 0xFFFFu16);
            crate::bytes::lemma_repeated(name2, 0xFFFFu16);
            crate::bytes::lemma_repeated(name3, 0xFFFFu16);
        }
        let len: usize = chars.len();
        let mut i: usize = 0;
        while i < 13
            invariant
                i <= 13,
                len == chars@.len(),
                forall|k: int| 0 <= k < 5 && k < i ==> name1@[k] == chunk_units(chars@)[k],
                forall|k: int| 0 <= k < 5 && k >= i ==> name1@[k] == 0xFFFFu16,
                forall|k: int| 0 <= k < 6 && k + 5 < i ==> name2@[k] == chunk_units(chars@)[k + 5],
                forall|k: int| 0 <= k < 6 && k + 5 >= i ==> name2@[k] == 0xFFFFu16,
                forall|k: int| 0 <= k < 2 && k + 11 < i ==> name3@[k] == chunk_units(chars@)[k + 11],
                forall|k: int| 0 <= k < 2 && k + 11 >= i ==> name3@[k] == 0xFFFFu16,
            decreases 13 - i,
        {
            if i <= len {
                let unit: u16 = if i < len {
                    ((chars[i] as u32) % 65536) as u16
                } else {
                    0
                };
                if i < 5 {
                    name1[i] = unit;
                } else if i < 11 {
                    name2[i - 5] = unit;
                } else {
                    name3[i - 11] = unit;
                }
            }
            i += 1;
        }
        let r = Self {
            seq: if is_last {
                seq | LFN_LAST_ENTRY
            } else {
                seq
            },
            name1,
            attr: ATTR_LFN,
            entry_type: 0,
            checksum,
            name2,
            cluster: 0,
            name3,
        };
        assert(r.units() =~= chunk_units(chars@));
        r
    }
}

/// Number of long-name entries that store `len` characters.
pub open spec fn lfn_count(len: int) -> int {
    (len + 12) / 13
}

/// The characters stored by entry number `index` (from 0) of a name.
pub open spec fn lfn_chunk(chars: Seq<char>, index: int) -> Seq<char> {
    chars.subrange(index * 13, if index * 13 + 13 <= chars.len() {
        index * 13 + 13
    } else {
        chars.len() as int
    })
}

/// Whether `entries` are the long-name entries of `chars` in stored order:
/// the last part first, flagged as last, down to part number 1, each with
/// `checksum`.
pub open spec fn is_lfn_run(entries: Seq<LfnEntry>, chars: Seq<char>, checksum: u8) -> bool {
    let count = lfn_count(chars.len() as int);
    &&& entries.len() == count
    &&& forall|k: int|
        0 <= k < count ==> {
            let index = count - 1 - k;
            &&& (#[trigger] entries[k]).seq == LfnEntry::seq_byte(
                ((index + 1) % 256) as u8,
                k == 0,
            )
            &&& entries[k].checksum == checksum
            &&& entries[k].attr == ATTR_LFN
            &&& entries[k].entry_type == 0
            &&& entries[k].cluster == 0
            &&& entries[k].units() == chunk_units(lfn_chunk(chars, index))
        }
}

/// The long-name entries for the characters `chars`, in stored order.
pub fn lfn_entries_for(chars: &[char], checksum: u8) -> (r: Vec<LfnEntry>)
    ensures
        is_lfn_run(r@, chars@, checksum),
{
    let len: usize = chars.len();
    let num_entries: usize = if len % 13 == 0 {
        len / 13
    } else {
        len / 13 + 1
    };
    let mut entries: Vec<LfnEntry> = Vec::new();
    let mut i: usize = num_entries;
    while i > 0
        invariant
            i <= num_entries,
            len == chars@.len(),
            num_entries == lfn_count(len as int),
            entries@.len() == num_entries - i,
            forall|k: int|
                0 <= k < entries@.len() ==> {
                    let index = num_entries - 1 - k;
                    &&& (#[trigger] entries@[k]).seq == LfnEntry::seq_byte(
                        ((index + 1) % 256) as u8,
                        k == 0,
                    )
                    &&& entries@[k].checksum == checksum
                    &&& entries@[k].attr == ATTR_LFN
                    &&& entries@[k].entry_type == 0
                    &&& entries@[k].cluster == 0
                    &&& entries@[k].units() == chunk_units(lfn_chunk(chars@, index))
                },
        decreases i,
    {
        i -= 1;
        let seq: u8 = ((i + 1) % 256) as u8;
        let start: usize = i * 13;
        assert(start < len);
        let end: usize = if len - start >= 13 {
            start + 13
        } else {
            len
        };
        let is_last: bool = i == num_entries - 1;
        let entry = LfnEntry::new(seq, checksum, &chars[start..end], is_last);
        entries.push(entry);
    }
    entries
}

/// The long-name entries for `name`, in stored order, with the checksum of
/// `short_name`.
pub fn create_lfn_entries(name: &str, short_name: &[u8; 11]) -> (r: Vec<LfnEntry>)
    ensures
        is_lfn_run(r@, name@, checksum_of(short_name@)),
{
    let checksum = lfn_checksum(short_name);
    let chars = chars_of(name);
    lfn_entries_for(chars.as_slice(), checksum)
}

/// The characters of a name whose long-name entries are `entries` in
/// stored order: the parts are joined from the last entry to the first.
pub open spec fn assembled(entries: Seq<LfnEntry>) -> Seq<char>
    decreases entries.len(),
{
    if entries.len() == 0 {
        Seq::empty()
    } else {
        entries.last().chars_spec().add(assembled(entries.drop_last()))
    }
}

/// The characters of the name stored by `lfn_entries`.
pub fn assemble_chars(lfn_entries: &[LfnEntry]) -> (r: Vec<char>)
    ensures
        r@ == assembled(lfn_entries@),
{
    let mut chars: Vec<char> = Vec::new();
    let n: usize = lfn_entries.len();
    let mut i: usize = n;
    assert(lfn_entries@.subrange(0, n as int) =~= lfn_entries@);
    while i > 0
        invariant
            i <= n,
            n == lfn_entries@.len(),
            chars@.add(assembled(lfn_entries@.subrange(0, i as int))) == assembled(lfn_entries@),
        decreases i,
    {
        i -= 1;
        let part = lfn_entries[i].chars();
        proof {
            let head = lfn_entries@.subrange(0, i + 1);
            assert(head.drop_last() =~= lfn_entries@.subrange(0, i as int));
            assert(head.last() == lfn_entries@[i as int]);
            assert(chars@.add(part@).add(assembled(head.drop_last())) =~= chars@.add(
                assembled(head),
            ));
        }
        let mut k: usize = 0;
        let ghost before = chars@;
        while k < part.len()
            invariant
                k <= part@.len(),
                chars@ == before.add(part@.subrange(0, k as int)),
            decreases part@.len() - k,
        {
            chars.push(part[k]);
            k += 1;
            assert(chars@ =~= before.add(part@.subrange(0, k as int)));
        }
        assert(part@.subrange(0, part@.len() as int) =~= part@);
    }
    proof {
        assert(assembled(lfn_entries@.subrange(0, 0)) =~= Seq::<char>::empty());
        assert(chars@.add(Seq::<char>::empty()) =~= chars@);
    }
    chars
}

/// The name stored by `lfn_entries`.
pub fn assemble_lfn(lfn_entries: &[LfnEntry]) -> (r: String)
    ensures
        r@ == assembled(lfn_entries@),
{
    let chars = assemble_chars(lfn_entries);
    string_of(chars.as_slice())
}

} // verus!
