//! The two kinds of 32-byte directory entry: short entries, which describe
//! a file, and long-name entries, which carry thirteen UTF-16 units each.

use vstd::prelude::*;
use crate::bytes::{
    byte_of, le16, le16_at, le32_at, lemma_bytes_of_le16, lemma_bytes_of_le32,
    lemma_le16_of_bytes, lemma_le32_of_bytes, read_le16, read_le32, u32_byte,
};
use crate::text::{char_from_u32, chars_of, is_scalar, push_char, string_of, uppercase_of};
use crate::vfs::fat32::name::{checksum_of, lfn_checksum, make_short_name, short_name_bytes};

verus! {

pub const ATTR_READ_ONLY: u8 = 0x01;

pub const ATTR_HIDDEN: u8 = 0x02;

pub const ATTR_SYSTEM: u8 = 0x04;

pub const ATTR_VOLUME_ID: u8 = 0x08;

pub const ATTR_DIRECTORY: u8 = 0x10;

pub const ATTR_ARCHIVE: u8 = 0x20;

/// Attribute byte that marks a long-name entry.
pub const ATTR_LFN: u8 = 0x0F;

/// Bit of the sequence byte set on the last long-name entry of a name.
pub const LFN_LAST_ENTRY: u8 = 0x40;

/// The bits of the sequence byte that hold the sequence number.
pub const LFN_SEQ_MASK: u8 = 0x1F;

/// Number of bytes of one directory entry.
pub const DIR_ENTRY_SIZE: usize = 32;

/// First byte of an entry that was deleted.
pub const DELETED_MARKER: u8 = 0xE5;

/// A short directory entry, field by field.
#[derive(Debug, Clone, Copy)]
pub struct ShortDirEntry {
    pub name: [u8; 11],
    pub attr: u8,
    pub nt_res: u8,
    pub create_time_tenth: u8,
    pub create_time: u16,
    pub create_date: u16,
    pub access_date: u16,
    pub cluster_high: u16,
    pub modify_time: u16,
    pub modify_date: u16,
    pub cluster_low: u16,
    pub size: u32,
}

/// The bytes of `s` before its first space, read as characters.
pub open spec fn padded_text(s: Seq<u8>) -> Seq<char>
    decreases s.len(),
{
    if s.len() == 0 || s[0] == 32 {
        Seq::empty()
    } else {
        seq![s[0] as char].add(padded_text(s.drop_first()))
    }
}

/// The name that a short entry with the name field `name` displays: the
/// base before its padding, then a dot and the extension when there is
/// one, as they are stored.
pub open spec fn short_name_text(name: Seq<u8>) -> Seq<char> {
    let base = padded_text(name.subrange(0, 8));
    let ext = padded_text(name.subrange(8, 11));
    if ext.len() == 0 {
        base
    } else {
        base.push('.').add(ext)
    }
}

/// Appends to `out` the bytes of `s` that precede its first space.
fn push_padded(s: &[u8], out: &mut Vec<char>)
    ensures
        final(out)@ == old(out)@.add(padded_text(s@)),
{
    let mut i: usize = 0;
    assert(s@.subrange(0, s@.len() as int) =~= s@);
    while i < s.len() && s[i] != 32
        invariant
            i <= s@.len(),
            out@.add(padded_text(s@.subrange(i as int, s@.len() as int))) == old(out)@.add(
                padded_text(s@),
            ),
        decreases s@.len() - i,
    {
        let b: u8 = s[i];
        proof {
            let rest = s@.subrange(i as int, s@.len() as int);
            assert(rest.drop_first() =~= s@.subrange(i + 1, s@.len() as int));
            assert(out@.push(b as char).add(padded_text(rest.drop_first())) =~= out@.add(
                padded_text(rest),
            ));
        }
        out.push(b as char);
        i += 1;
    }
    proof {
        let rest = s@.subrange(i as int, s@.len() as int);
        assert(padded_text(rest) =~= Seq::<char>::empty());
        assert(out@.add(padded_text(rest)) =~= out@);
    }
}

/// The name that the name field `name` displays.
pub fn name_text(name: &[u8; 11]) -> (r: Vec<char>)
    ensures
        r@ == short_name_text(name@),
{
    let all: &[u8] = name.as_slice();
    let mut text: Vec<char> = Vec::new();
    push_padded(&all[0..8], &mut text);
    let mut ext: Vec<char> = Vec::new();
    push_padded(&all[8..11], &mut ext);
    if ext.len() > 0 {
        text.push('.');
        let mut i: usize = 0;
        let ghost base = text@;
        while i < ext.len()
            invariant
                i <= ext@.len(),
                text@ == base.add(ext@.subrange(0, i as int)),
            decreases ext@.len() - i,
        {
            text.push(ext[i]);
            i += 1;
            assert(text@ =~= base.add(ext@.subrange(0, i as int)));
        }
        assert(ext@.subrange(0, ext@.len() as int) =~= ext@);
    }
    assert(text@ =~= short_name_text(name@));
    text
}

impl ShortDirEntry {
    /// Whether the fields are those found at the fixed offsets of `data`.
    pub open spec fn decodes(&self, data: Seq<u8>) -> bool {
        &&& self.name@ == data.subrange(0, 11)
        &&& self.attr == data[11]
        &&& self.nt_res == data[12]
        &&& self.create_time_tenth == data[13]
        &&& self.create_time == le16_at(data, 14)
        &&& self.create_date == le16_at(data, 16)
        &&& self.access_date == le16_at(data, 18)
        &&& self.cluster_high == le16_at(data, 20)
        &&& self.modify_time == le16_at(data, 22)
        &&& self.modify_date == le16_at(data, 24)
        &&& self.cluster_low == le16_at(data, 26)
        &&& self.size == le32_at(data, 28)
    }

    /// The 32 bytes that the entry is stored as.
    pub open spec fn bytes(&self) -> Seq<u8> {
        Seq::new(
            32,
            |i: int|
                if i < 11 {
                    self.name@[i]
                } else if i == 11 {
                    self.attr
                } else if i == 12 {
                    self.nt_res
                } else if i == 13 {
                    self.create_time_tenth
                } else if i < 16 {
                    byte_of(self.create_time as u32, i - 14)
                } else if i < 18 {
                    byte_of(self.create_date as u32, i - 16)
                } else if i < 20 {
                    byte_of(self.access_date as u32, i - 18)
                } else if i < 22 {
                    byte_of(self.cluster_high as u32, i - 20)
                } else if i < 24 {
                    byte_of(self.modify_time as u32, i - 22)
                } else if i < 26 {
                    byte_of(self.modify_date as u32, i - 24)
                } else if i < 28 {
                    byte_of(self.cluster_low as u32, i - 26)
                } else {
                    byte_of(self.size, i - 28)
                },
        )
    }

    /// Decodes a short entry from the first 32 bytes of `data`. There is
    /// none when fewer than 32 bytes are given or the first byte is zero.
    pub fn parse(data: &[u8]) -> (r: Option<Self>)
        ensures
            r is Some <==> data@.len() >= 32 && data@[0] != 0,
            r matches Some(e) ==> e.decodes(data@),
    {
        if data.len() < DIR_ENTRY_SIZE || data[0] == 0x00 {
            return None;
        }
        let mut name = [0u8; 11];
        let mut i: usize = 0;
        while i < 11
            invariant
                i <= 11,
                data@.len() >= 32,
                forall|k: int| 0 <= k < i ==> name@[k] == data@[k],
            decreases 11 - i,
        {
            name[i] = data[i];
            i += 1;
        }
        assert(name@ =~= data@.subrange(0, 11));
        Some(
            Self {
                name,
                attr: data[11],
                nt_res: data[12],
                create_time_tenth: data[13],
                create_time: read_le16(data, 14),
                create_date: read_le16(data, 16),
                access_date: read_le16(data, 18),
                cluster_high: read_le16(data, 20),
                modify_time: read_le16(data, 22),
                modify_date: read_le16(data, 24),
                cluster_low: read_le16(data, 26),
                size: read_le32(data, 28),
            },
        )
    }

    /// Encodes the entry as its 32 bytes.
    pub fn serialize(&self) -> (r: [u8; 32])
        ensures
            r@ == self.bytes(),
    {
        let mut data = [0u8; 32];
        let mut i: usize = 0;
        while i < 11
            invariant
                i <= 11,
                forall|k: int| 0 <= k < i ==> data@[k] == self.name@[k],
            decreases 11 - i,
        {
            data[i] = self.name[i];
            i += 1;
        }
        data[11] = self.attr;
        data[12] = self.nt_res;
        data[13] = self.create_time_tenth;
        data[14] = u32_byte(self.create_time as u32, 0);
        data[15] = u32_byte(self.create_time as u32, 1);
        data[16] = u32_byte(self.create_date as u32, 0);
        data[17] = u32_byte(self.create_date as u32, 1);
        data[18] = u32_byte(self.access_date as u32, 0);
        data[19] = u32_byte(self.access_date as u32, 1);
        data[20] = u32_byte(self.cluster_high as u32, 0);
        data[21] = u32_byte(self.cluster_high as u32, 1);
        data[22] = u32_byte(self.modify_time as u32, 0);
        data[23] = u32_byte(self.modify_time as u32, 1);
        data[24] = u32_byte(self.modify_date as u32, 0);
        data[25] = u32_byte(self.modify_date as u32, 1);
        data[26] = u32_byte(self.cluster_low as u32, 0);
        data[27] = u32_byte(self.cluster_low as u32, 1);
        data[28] = u32_byte(self.size, 0);
        data[29] = u32_byte(self.size, 1);
        data[30] = u32_byte(self.size, 2);
        data[31] = u32_byte(self.size, 3);
        assert(data@ =~= self.bytes());
        data
    }

    /// The first cluster of the file: the high half in the upper 16 bits.
    pub open spec fn cluster_spec(&self) -> u32 {
        (self.cluster_high as int * 65536 + self.cluster_low as int) as u32
    }

    /// The entry with `cluster` as its first cluster and `size` as its
    /// size.
    pub open spec fn pointing(self, cluster: u32, size: u32) -> Self {
        ShortDirEntry {
            cluster_high: (cluster as int / 65536) as u16,
            cluster_low: (cluster as int % 65536) as u16,
            size,
            ..self
        }
    }

    /// The first cluster of the file.
    pub fn cluster(&self) -> (r: u32)
        ensures
            r == self.cluster_spec(),
    {
        (self.cluster_high as u32) * 65536 + (self.cluster_low as u32)
    }

    /// Stores `cluster` as the first cluster; nothing else changes.
    pub fn set_cluster(&mut self, cluster: u32)
        ensures
            final(self).cluster_spec() == cluster,
            final(self).cluster_high as int == cluster as int / 65536,
            final(self).cluster_low as int == cluster as int % 65536,
            final(self).name == old(self).name,
            final(self).attr == old(self).attr,
            final(self).nt_res == old(self).nt_res,
            final(self).create_time_tenth == old(self).create_time_tenth,
            final(self).create_time == old(self).create_time,
            final(self).create_date == old(self).create_date,
            final(self).access_date == old(self).access_date,
            final(self).modify_time == old(self).modify_time,
            final(self).modify_date == old(self).modify_date,
            final(self).size == old(self).size,
    {
        self.cluster_high = (cluster / 65536) as u16;
        self.cluster_low = (cluster % 65536) as u16;
    }

    /// Whether the entry describes a directory.
    pub fn is_directory(&self) -> (r: bool)
        ensures
            r == (self.attr & ATTR_DIRECTORY != 0),
    {
        self.attr & ATTR_DIRECTORY != 0
    }

    /// Whether the entry is a volume label.
    pub fn is_volume_label(&self) -> (r: bool)
        ensures
            r == (self.attr & ATTR_VOLUME_ID != 0),
    {
        self.attr & ATTR_VOLUME_ID != 0
    }

    /// Whether the attribute byte is that of a long-name entry.
    pub fn is_lfn(&self) -> (r: bool)
        ensures
            r == (self.attr == ATTR_LFN),
    {
        self.attr == ATTR_LFN
    }

    /// Whether the entry was deleted.
    pub fn is_deleted(&self) -> (r: bool)
        ensures
            r == (self.name@[0] == DELETED_MARKER),
    {
        self.name[0] == DELETED_MARKER
    }

    /// Whether the slot can be reused: never used, or deleted.
    pub fn is_free(&self) -> (r: bool)
        ensures
            r == (self.name@[0] == 0 || self.name@[0] == DELETED_MARKER),
    {
        self.name[0] == 0x00 || self.name[0] == DELETED_MARKER
    }

    /// The name the entry displays, as it is stored.
    pub fn short_name(&self) -> (r: String)
        ensures
            r@ == short_name_text(self.name@),
    {
        let text = name_text(&self.name);
        string_of(text.as_slice())
    }

    /// A fresh entry for `name`: the short name made from it, the given
    /// attribute, first cluster and size, and every time stamp zero.
    pub fn new(name: &str, attr: u8, cluster: u32, size: u32) -> (r: Self)
        ensures
            r.name@ == short_name_bytes(name@, uppercase_of(name@)),
            r.attr == attr,
            r.cluster_spec() == cluster,
            r.size == size,
            r.nt_res == 0,
            r.create_time_tenth == 0,
            r.create_time == 0,
            r.create_date == 0,
            r.access_date == 0,
            r.modify_time == 0,
            r.modify_date == 0,
    {
        let short_name = make_short_name(name);
        Self::with_name(short_name, attr, cluster, size)
    }

    /// A fresh entry with the name field `name` given as it is stored.
    pub fn with_name(name: [u8; 11], attr: u8, cluster: u32, size: u32) -> (r: Self)
        ensures
            r.name == name,
            r.attr == attr,
            r.cluster_spec() == cluster,
            r.cluster_high as int == cluster as int / 65536,
            r.cluster_low as int == cluster as int % 65536,
            r.size == size,
            r.nt_res == 0,
            r.create_time_tenth == 0,
            r.create_time == 0,
            r.create_date == 0,
            r.access_date == 0,
            r.modify_time == 0,
            r.modify_date == 0,
    {
        Self {
            name,
            attr,
            nt_res: 0,
            create_time_tenth: 0,
            create_time: 0,
            create_date: 0,
            access_date: 0,
            cluster_high: (cluster / 65536) as u16,
            modify_time: 0,
            modify_date: 0,
            cluster_low: (cluster % 65536) as u16,
            size,
        }
    }

    /// Any 32 bytes decode to a short entry.
    pub proof fn lemma_decodable(data: Seq<u8>)
        requires
            data.len() >= 32,
        ensures
            exists|e: ShortDirEntry| e.decodes(data),
    {
        let a0 = vstd::array::spec_array_fill_for_copy_type::<u8, 11>(0u8);
        let a1 = vstd::array::spec_array_update(a0, 0, data[0]);
        let a2 = vstd::array::spec_array_update(a1, 1, data[1]);
        let a3 = vstd::array::spec_array_update(a2, 2, data[2]);
        let a4 = vstd::array::spec_array_update(a3, 3, data[3]);
        let a5 = vstd::array::spec_array_update(a4, 4, data[4]);
        let a6 = vstd::array::spec_array_update(a5, 5, data[5]);
        let a7 = vstd::array::spec_array_update(a6, 6, data[6]);
        let a8 = vstd::array::spec_array_update(a7, 7, data[7]);
        let a9 = vstd::array::spec_array_update(a8, 8, data[8]);
        let a10 = vstd::array::spec_array_update(a9, 9, data[9]);
        let a11 = vstd::array::spec_array_update(a10, 10, data[10]);
        let e = ShortDirEntry {
            name: a11,
            attr: data[11],
            nt_res: data[12],
            create_time_tenth: data[13],
            create_time: le16_at(data, 14),
            create_date: le16_at(data, 16),
            access_date: le16_at(data, 18),
            cluster_high: le16_at(data, 20),
            modify_time: le16_at(data, 22),
            modify_date: le16_at(data, 24),
            cluster_low: le16_at(data, 26),
            size: le32_at(data, 28),
        };
        assert(a11@ =~= data.subrange(0, 11));
        assert(e.decodes(data));
    }

    /// Encoding a decoded entry gives back the 32 bytes it was decoded from.
    pub proof fn lemma_encode_decoded(&self, data: Seq<u8>)
        requires
            data.len() >= 32,
            self.decodes(data),
        ensures
            self.bytes() == data.subrange(0, 32),
    {
        lemma_bytes_of_le16(data[14], data[15]);
        lemma_bytes_of_le16(data[16], data[17]);
        lemma_bytes_of_le16(data[18], data[19]);
        lemma_bytes_of_le16(data[20], data[21]);
        lemma_bytes_of_le16(data[22], data[23]);
        lemma_bytes_of_le16(data[24], data[25]);
        lemma_bytes_of_le16(data[26], data[27]);
        lemma_bytes_of_le32(data[28], data[29], data[30], data[31]);
        assert(self.bytes() =~= data.subrange(0, 32)) by {
            assert forall|i: int| 0 <= i < 32 implies self.bytes()[i] == data[i] by {
                if i < 11 {
                    assert(self.name@[i] == data.subrange(0, 11)[i]);
                }
            }
        }
    }

    /// Decoding the encoding of an entry finds the entry's own fields.
    pub proof fn lemma_decode_encoded(&self)
        ensures
            self.decodes(self.bytes()),
    {
        lemma_le16_of_bytes(self.create_time);
        lemma_le16_of_bytes(self.create_date);
        lemma_le16_of_bytes(self.access_date);
        lemma_le16_of_bytes(self.cluster_high);
        lemma_le16_of_bytes(self.modify_time);
        lemma_le16_of_bytes(self.modify_date);
        lemma_le16_of_bytes(self.cluster_low);
        lemma_le32_of_bytes(self.size);
        assert(self.name@ =~= self.bytes().subrange(0, 11));
    }
}

} // verus!
