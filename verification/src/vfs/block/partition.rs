//! Partition tables: the four entries of an MBR, and the entries of a GPT.

use vstd::prelude::*;
use crate::bytes::{le32_at, le64_at, read_le32, read_le64};
use crate::vfs::block::BlockDevice;

verus! {

/// What a partition holds, as far as its type tells.
#[derive(Debug, Clone, Copy, PartialEq, Eq, Structural)]
pub enum PartitionType {
    Fat32,
    Linux,
    EfiSystem,
    Unknown(u8),
}

/// A partition found on a device.
#[derive(Debug, Clone, Copy, PartialEq, Eq, Structural)]
pub struct PartitionInfo {
    /// Position of the entry in its table.
    pub index: u8,
    /// First sector of the partition.
    pub start_lba: u32,
    /// Number of sectors of the partition.
    pub sector_count: u32,
    pub partition_type: PartitionType,
}

/// The partition that MBR entry `i` describes, if it describes one: an
/// entry of type 0 is empty, and one of type 0xEE only protects a GPT.
pub open spec fn mbr_entry(mbr: Seq<u8>, i: int) -> Option<PartitionInfo> {
    let offset = 446 + i * 16;
    let ptype = mbr[offset + 4];
    if ptype == 0 || ptype == 0xEE {
        None
    } else {
        Some(
            PartitionInfo {
                index: i as u8,
                start_lba: le32_at(mbr, offset + 8),
                sector_count: le32_at(mbr, offset + 12),
                partition_type: if ptype == 0x0B || ptype == 0x0C {
                    PartitionType::Fat32
                } else if ptype == 0x83 {
                    PartitionType::Linux
                } else if ptype == 0xEF {
                    PartitionType::EfiSystem
                } else {
                    PartitionType::Unknown(ptype)
                },
            },
        )
    }
}

/// The partitions that the first `count` MBR entries describe.
pub open spec fn mbr_partitions(mbr: Seq<u8>, count: int) -> Seq<PartitionInfo>
    decreases count,
{
    if count <= 0 {
        Seq::empty()
    } else {
        let before = mbr_partitions(mbr, count - 1);
        match mbr_entry(mbr, count - 1) {
            Some(p) => before.push(p),
            None => before,
        }
    }
}

/// Reads the four entries of an MBR.
pub fn parse_mbr(mbr: &[u8; 512]) -> (r: Result<Vec<PartitionInfo>, &'static str>)
    ensures
        r matches Ok(v) && v@ == mbr_partitions(mbr@, 4),
{
    let mut partitions: Vec<PartitionInfo> = Vec::new();
    let bytes: &[u8] = mbr.as_slice();
    let mut i: usize = 0;
    while i < 4
        invariant
            i <= 4,
            bytes@ == mbr@,
            partitions@ == mbr_partitions(mbr@, i as int),
        decreases 4 - i,
    {
        let offset: usize = 446 + i * 16;
        let ptype: u8 = mbr[offset + 4];
        if ptype != 0 && ptype != 0xEE {
            let start_lba = read_le32(bytes, offset + 8);
            let sector_count = read_le32(bytes, offset + 12);
            let partition_type = if ptype == 0x0B || ptype == 0x0C {
                PartitionType::Fat32
            } else if ptype == 0x83 {
                PartitionType::Linux
            } else if ptype == 0xEF {
                PartitionType::EfiSystem
            } else {
                PartitionType::Unknown(ptype)
            };
            partitions.push(PartitionInfo { index: i as u8, start_lba, sector_count, partition_type });
        }
        i += 1;
    }
    Ok(partitions)
}

/// The type that a GPT type identifier of 16 bytes stands for.
pub open spec fn gpt_type(guid: Seq<u8>) -> PartitionType {
    if guid == seq![
        0x28u8, 0x73u8, 0x2Au8, 0xC1u8, 0x1Fu8, 0xF8u8, 0xD2u8, 0x11u8,
        0xBAu8, 0x4Bu8, 0x00u8, 0xA0u8, 0xC9u8, 0x3Eu8, 0xC9u8, 0x3Bu8,
    ] {
        PartitionType::EfiSystem
    } else if guid == seq![
        0xA2u8, 0xA0u8, 0xD0u8, 0xEBu8, 0xE5u8, 0xB9u8, 0x33u8, 0x44u8,
        0x87u8, 0xC0u8, 0x68u8, 0xB6u8, 0xB7u8, 0x26u8, 0x99u8, 0xC7u8,
    ] {
        PartitionType::Fat32
    } else if guid == seq![
        0xAFu8, 0x3Du8, 0xC6u8, 0x0Fu8, 0x83u8, 0x84u8, 0x72u8, 0x47u8,
        0x8Eu8, 0x79u8, 0x3Du8, 0x69u8, 0xD8u8, 0x47u8, 0x7Du8, 0xE4u8,
    ] {
        PartitionType::Linux
    } else {
        PartitionType::Unknown(0)
    }
}

/// Whether `guid` is exactly the bytes `want`.
fn guid_is(guid: &[u8], want: &[u8; 16]) -> (r: bool)
    ensures
        r == (guid@ == want@),
{
    if guid.len() != 16 {
        return false;
    }
    let mut i: usize = 0;
    while i < 16
        invariant
            i <= 16,
            guid@.len() == 16,
            forall|k: int| 0 <= k < i ==> guid@[k] == want@[k],
        decreases 16 - i,
    {
        if guid[i] != want[i] {
            return false;
        }
        i += 1;
    }
    assert(guid@ =~= want@);
    true
}

/// Finds the type that a GPT type identifier stands for.
pub fn identify_gpt_type(guid: &[u8]) -> (r: PartitionType)
    ensures
        r == gpt_type(guid@),
{
    let efi_system: [u8; 16] = [
        0x28, 0x73, 0x2A, 0xC1, 0x1F, 0xF8, 0xD2, 0x11, 0xBA, 0x4B, 0x00, 0xA0, 0xC9, 0x3E, 0xC9,
        0x3B,
    ];
    let basic_data: [u8; 16] = [
        0xA2, 0xA0, 0xD0, 0xEB, 0xE5, 0xB9, 0x33, 0x44, 0x87, 0xC0, 0x68, 0xB6, 0xB7, 0x26, 0x99,
        0xC7,
    ];
    let linux_fs: [u8; 16] = [
        0xAF, 0x3D, 0xC6, 0x0F, 0x83, 0x84, 0x72, 0x47, 0x8E, 0x79, 0x3D, 0x69, 0xD8, 0x47, 0x7D,
        0xE4,
    ];
    proof {
        assert(efi_system@ =~= seq![
            0x28u8, 0x73u8, 0x2Au8, 0xC1u8, 0x1Fu8, 0xF8u8, 0xD2u8, 0x11u8,
            0xBAu8, 0x4Bu8, 0x00u8, 0xA0u8, 0xC9u8, 0x3Eu8, 0xC9u8, 0x3Bu8,
        ]);
        assert(basic_data@ =~= seq![
            0xA2u8, 0xA0u8, 0xD0u8, 0xEBu8, 0xE5u8, 0xB9u8, 0x33u8, 0x44u8,
            0x87u8, 0xC0u8, 0x68u8, 0xB6u8, 0xB7u8, 0x26u8, 0x99u8, 0xC7u8,
        ]);
        assert(linux_fs@ =~= seq![
            0xAFu8, 0x3Du8, 0xC6u8, 0x0Fu8, 0x83u8, 0x84u8, 0x72u8, 0x47u8,
            0x8Eu8, 0x79u8, 0x3Du8, 0x69u8, 0xD8u8, 0x47u8, 0x7Du8, 0xE4u8,
        ]);
    }
    if guid_is(guid, &efi_system) {
        PartitionType::EfiSystem
    } else if guid_is(guid, &basic_data) {
        PartitionType::Fat32
    } else if guid_is(guid, &linux_fs) {
        PartitionType::Linux
    } else {
        PartitionType::Unknown(0)
    }
}

/// What the header of a GPT says of its entries.
#[derive(Debug, Clone, Copy, PartialEq, Eq, Structural)]
pub struct GptHeader {
    /// Sector at which the entries begin.
    pub entry_lba: u32,
    /// Number of entries.
    pub num_entries: u32,
    /// Number of bytes of an entry.
    pub entry_size: u32,
}

/// The header that the second sector of a device holds, if it begins
/// with `EFI PART` and its entries have a size that can be read: at least
/// 48 bytes and at most a sector.
pub open spec fn gpt_header(sector: Seq<u8>) -> Result<GptHeader, Seq<char>> {
    if !(sector[0] == 69 && sector[1] == 70 && sector[2] == 73 && sector[3] == 32 && sector[4]
        == 80 && sector[5] == 65 && sector[6] == 82 && sector[7] == 84) {
        Err("invalid GPT signature"@)
    } else if le32_at(sector, 84) < 48 || le32_at(sector, 84) > 512 {
        Err("invalid GPT entry size"@)
    } else {
        Ok(
            GptHeader {
                entry_lba: (le64_at(sector, 72) as int % 0x1_0000_0000) as u32,
                num_entries: le32_at(sector, 80),
                entry_size: le32_at(sector, 84),
            },
        )
    }
}

/// Reads the header of a GPT.
pub fn parse_gpt_header(sector: &[u8; 512]) -> (r: Result<GptHeader, &'static str>)
    ensures
        match gpt_header(sector@) {
            Ok(h) => r == Ok::<GptHeader, &'static str>(h),
            Err(msg) => r matches Err(e) && e@ == msg,
        },
{
    let s: &[u8] = sector.as_slice();
    if !(sector[0] == 69 && sector[1] == 70 && sector[2] == 73 && sector[3] == 32 && sector[4]
        == 80 && sector[5] == 65 && sector[6] == 82 && sector[7] == 84) {
        return Err("invalid GPT signature");
    }
    let entry_size = read_le32(s, 84);
    if entry_size < 48 || entry_size > 512 {
        return Err("invalid GPT entry size");
    }
    Ok(
        GptHeader {
            entry_lba: (read_le64(s, 72) % 0x1_0000_0000) as u32,
            num_entries: read_le32(s, 80),
            entry_size,
        },
    )
}

/// The low 32 bits of a number.
pub open spec fn low32(v: int) -> u32 {
    (v % 0x1_0000_0000) as u32
}

/// The partition that the GPT entry at `offset` of `sector` describes, if
/// it describes one: an entry whose type identifier is all zero is empty.
/// Sector numbers are cut to 32 bits, and so is the number of sectors.
pub open spec fn gpt_entry(sector: Seq<u8>, offset: int, index: u32) -> Option<PartitionInfo> {
    if forall|k: int| offset <= k < offset + 16 ==> #[trigger] sector[k] == 0 {
        None
    } else {
        let start = low32(le64_at(sector, offset + 32) as int);
        let end = low32(le64_at(sector, offset + 40) as int);
        Some(
            PartitionInfo {
                index: (index % 256) as u8,
                start_lba: start,
                sector_count: low32(end as int - start as int + 1 + 0x1_0000_0000),
                partition_type: gpt_type(sector.subrange(offset, offset + 16)),
            },
        )
    }
}

/// Reads the GPT entry at `offset` of `sector`.
pub fn parse_gpt_entry(sector: &[u8; 512], offset: usize, index: u32) -> (r: Option<PartitionInfo>)
    requires
        offset + 48 <= 512,
    ensures
        r == gpt_entry(sector@, offset as int, index),
{
    let s: &[u8] = sector.as_slice();
    let mut all_zero = true;
    let mut k: usize = 0;
    while k < 16
        invariant
            k <= 16,
            offset + 48 <= 512,
            all_zero == (forall|j: int| offset <= j < offset + k ==> #[trigger] sector@[j] == 0),
        decreases 16 - k,
    {
        if sector[offset + k] != 0 {
            all_zero = false;
        }
        k += 1;
    }
    if all_zero {
        return None;
    }
    let start: u32 = (read_le64(s, offset + 32) % 0x1_0000_0000) as u32;
    let end: u32 = (read_le64(s, offset + 40) % 0x1_0000_0000) as u32;
    let sector_count: u32 = end.wrapping_sub(start).wrapping_add(1);
    let partition_type = identify_gpt_type(&s[offset..offset + 16]);
    Some(
        PartitionInfo { index: (index % 256) as u8, start_lba: start, sector_count, partition_type },
    )
}

/// Where entry `index` of a GPT lies: the sector, counted from the first
/// sector of the entries, and the offset inside that sector.
pub open spec fn gpt_entry_place(entry_size: u32, index: u32) -> (int, int) {
    let per_sector = 512int / entry_size as int;
    (index as int / per_sector, (index as int % per_sector) * (entry_size as int))
}

/// The number of entries of a GPT that are looked at: 128 at most.
pub open spec fn gpt_count(h: GptHeader) -> int {
    if h.num_entries < 128 {
        h.num_entries as int
    } else {
        128
    }
}

/// Whether the sector that holds entry `index` of a GPT has a number of
/// 32 bits.
pub open spec fn gpt_in_range(h: GptHeader, index: int) -> bool {
    h.entry_lba + gpt_entry_place(h.entry_size, index as u32).0 <= u32::MAX
}

/// The partitions that the first `count` entries of a GPT describe on a
/// device that holds `sectors`, in the order of the entries.
pub open spec fn gpt_partitions(sectors: Map<u32, Seq<u8>>, h: GptHeader, count: int) -> Seq<
    PartitionInfo,
>
    decreases count,
{
    if count <= 0 {
        Seq::empty()
    } else {
        let before = gpt_partitions(sectors, h, count - 1);
        let place = gpt_entry_place(h.entry_size, (count - 1) as u32);
        match gpt_entry(sectors[(h.entry_lba + place.0) as u32], place.1, (count - 1) as u32) {
            Some(p) => before.push(p),
            None => before,
        }
    }
}

/// Reads the partitions of a GPT: at most 128 entries are looked at. A
/// header that is refused, or an entry in a sector whose number has more
/// than 32 bits, fails; so does a sector that cannot be read.
pub fn parse_gpt<D: BlockDevice>(device: &D) -> (r: Result<Vec<PartitionInfo>, &'static str>)
    ensures
        r matches Ok(v) ==> {
            &&& device.sectors().contains_key(1)
            &&& gpt_header(device.sectors()[1]) matches Ok(h) && (v@ == gpt_partitions(
                device.sectors(),
                h,
                gpt_count(h),
            ) && forall|i: int|
                0 <= i < gpt_count(h) ==> #[trigger] gpt_in_range(h, i)
                    && device.sectors().contains_key(
                    (h.entry_lba + gpt_entry_place(h.entry_size, i as u32).0) as u32,
                ))
        },
        device.sectors().contains_key(1) ==> match gpt_header(device.sectors()[1]) {
            Err(_) => r is Err,
            Ok(h) => (exists|i: int| 0 <= i < gpt_count(h) && !#[trigger] gpt_in_range(h, i))
                ==> r is Err,
        },
{
    let mut sector = [0u8; 512];
    match device.read_sector(1, &mut sector) {
        Ok(()) => {},
        Err(e) => {
            return Err(e);
        },
    }
    let header = match parse_gpt_header(&sector) {
        Ok(h) => h,
        Err(e) => {
            return Err(e);
        },
    };
    let mut partitions: Vec<PartitionInfo> = Vec::new();
    let entries_per_sector: u32 = 512 / header.entry_size;
    assert(1 <= entries_per_sector <= 10) by (nonlinear_arith)
        requires
            entries_per_sector as int == 512int / header.entry_size as int,
            48 <= header.entry_size <= 512,
    ;
    let count: u32 = if header.num_entries < 128 {
        header.num_entries
    } else {
        128
    };
    let mut i: u32 = 0;
    while i < count
        invariant
            i <= count,
            count == gpt_count(header),
            device.sectors().contains_key(1),
            gpt_header(device.sectors()[1]) == Ok::<GptHeader, Seq<char>>(header),
            48 <= header.entry_size <= 512,
            entries_per_sector as int == 512int / header.entry_size as int,
            1 <= entries_per_sector <= 10,
            partitions@ == gpt_partitions(device.sectors(), header, i as int),
            forall|k: int|
                0 <= k < i ==> #[trigger] gpt_in_range(header, k) && device.sectors().contains_key(
                    (header.entry_lba + gpt_entry_place(header.entry_size, k as u32).0) as u32,
                ),
        decreases count - i,
    {
        let sector_offset: u32 = i / entries_per_sector;
        let within: u32 = i % entries_per_sector;
        assert(within * header.entry_size + header.entry_size <= 512) by (nonlinear_arith)
            requires
                within < entries_per_sector,
                entries_per_sector as int == 512int / header.entry_size as int,
                header.entry_size >= 48,
        ;
        let entry_offset: usize = (within * header.entry_size) as usize;
        let lba = match header.entry_lba.checked_add(sector_offset) {
            Some(l) => l,
            None => {
                assert(!gpt_in_range(header, i as int));
                return Err("GPT entry out of range");
            },
        };
        let mut entry_sector = [0u8; 512];
        match device.read_sector(lba, &mut entry_sector) {
            Ok(()) => {},
            Err(e) => {
                return Err(e);
            },
        }
        assert(gpt_in_range(header, i as int));
        match parse_gpt_entry(&entry_sector, entry_offset, i) {
            Some(p) => {
                partitions.push(p);
            },
            None => {},
        }
        i += 1;
    }
    Ok(partitions)
}

/// The partitions of a device that holds `sectors`: those of its GPT
/// when byte 450 of the first sector says it has one, else those of the
/// four entries of its MBR.
pub open spec fn partitions_of(sectors: Map<u32, Seq<u8>>) -> Seq<PartitionInfo> {
    if sectors[0][450] == 0xEE {
        gpt_partitions(
            sectors,
            gpt_header(sectors[1])->Ok_0,
            gpt_count(gpt_header(sectors[1])->Ok_0),
        )
    } else {
        mbr_partitions(sectors[0], 4)
    }
}

/// Reads the partitions of a device: those of its GPT when the first
/// sector says it has one, else those of its MBR. A first sector that
/// does not end with 0x55 0xAA is refused.
pub fn parse_partitions<D: BlockDevice>(device: &D) -> (r: Result<
    Vec<PartitionInfo>,
    &'static str,
>)
    ensures
        r matches Ok(v) ==> {
            let first = device.sectors()[0];
            &&& device.sectors().contains_key(0)
            &&& first[510] == 0x55 && first[511] == 0xAA
            &&& first[450] == 0xEE ==> device.sectors().contains_key(1) && gpt_header(
                device.sectors()[1],
            ) is Ok
            &&& v@ == partitions_of(device.sectors())
        },
        device.sectors().contains_key(0) && !(device.sectors()[0][510] == 0x55
            && device.sectors()[0][511] == 0xAA) ==> r is Err,
{
    let mut sector = [0u8; 512];
    match device.read_sector(0, &mut sector) {
        Ok(()) => {},
        Err(e) => {
            return Err(e);
        },
    }
    if sector[510] != 0x55 || sector[511] != 0xAA {
        return Err("no MBR signature");
    }
    if sector[450] == 0xEE {
        parse_gpt(device)
    } else {
        parse_mbr(&sector)
    }
}

/// Position of the first partition of type `ptype`, or the number of
/// partitions when there is none.
pub open spec fn type_index(partitions: Seq<PartitionInfo>, ptype: PartitionType) -> int
    decreases partitions.len(),
{
    if partitions.len() == 0 {
        0
    } else if partitions[0].partition_type == ptype {
        0
    } else {
        1 + type_index(partitions.drop_first(), ptype)
    }
}

/// The first partition of type `ptype` among `partitions`.
pub fn first_of_type(partitions: &Vec<PartitionInfo>, ptype: PartitionType) -> (r: Option<
    PartitionInfo,
>)
    ensures
        r == if type_index(partitions@, ptype) < partitions@.len() {
            Some(partitions@[type_index(partitions@, ptype)])
        } else {
            None
        },
{
    let n: usize = partitions.len();
    let mut i: usize = 0;
    proof {
        assert(partitions@.subrange(0, n as int) =~= partitions@);
    }
    while i < n
        invariant
            i <= n,
            n == partitions@.len(),
            type_index(partitions@, ptype) == i + type_index(
                partitions@.subrange(i as int, n as int),
                ptype,
            ),
        decreases n - i,
    {
        proof {
            let rest = partitions@.subrange(i as int, n as int);
            assert(rest[0] == partitions@[i as int]);
            assert(rest.drop_first() =~= partitions@.subrange(i + 1, n as int));
        }
        if partitions[i].partition_type == ptype {
            return Some(partitions[i]);
        }
        i += 1;
    }
    proof {
        assert(partitions@.subrange(n as int, n as int).len() == 0);
    }
    None
}

/// The first partition of type `ptype` on a device.
pub fn find_partition<D: BlockDevice>(device: &D, ptype: PartitionType) -> (r: Result<
    Option<PartitionInfo>,
    &'static str,
>)
    ensures
        r matches Ok(found) ==> {
            let all = partitions_of(device.sectors());
            &&& device.sectors().contains_key(0)
            &&& found == (if type_index(all, ptype) < all.len() {
                Some(all[type_index(all, ptype)])
            } else {
                None
            })
        },
        device.sectors().contains_key(0) && !(device.sectors()[0][510] == 0x55
            && device.sectors()[0][511] == 0xAA) ==> r is Err,
{
    let partitions = match parse_partitions(device) {
        Ok(p) => p,
        Err(e) => {
            return Err(e);
        },
    };
    Ok(first_of_type(&partitions, ptype))
}

/// The first partition on a device.
pub fn first_partition<D: BlockDevice>(device: &D) -> (r: Result<
    Option<PartitionInfo>,
    &'static str,
>)
    ensures
        r matches Ok(found) ==> {
            let all = partitions_of(device.sectors());
            &&& device.sectors().contains_key(0)
            &&& found == (if all.len() > 0 {
                Some(all[0])
            } else {
                None
            })
        },
        device.sectors().contains_key(0) && !(device.sectors()[0][510] == 0x55
            && device.sectors()[0][511] == 0xAA) ==> r is Err,
{
    let partitions = match parse_partitions(device) {
        Ok(p) => p,
        Err(e) => {
            return Err(e);
        },
    };
    if partitions.len() > 0 {
        Ok(Some(partitions[0]))
    } else {
        Ok(None)
    }
}

} // verus!
