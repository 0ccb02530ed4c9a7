//! The boot sector's parameter block and the volume geometry it implies.

use vstd::prelude::*;
use crate::bytes::{le16_at, le32_at, read_le16, read_le32};

verus! {

/// Marks the end of a cluster chain; any table entry at or above it does.
pub const FAT32_EOC: u32 = 0x0FFFFFF8;

/// Table entry of a cluster that belongs to no chain.
pub const FAT32_FREE: u32 = 0x00000000;

/// Table entry of a cluster that must not be used.
pub const FAT32_BAD: u32 = 0x0FFFFFF7;

/// The fields of the boot sector that the driver uses.
#[derive(Debug, Clone, Copy, PartialEq, Eq, Structural)]
pub struct Bpb {
    pub bytes_per_sector: u16,
    pub sectors_per_cluster: u8,
    pub reserved_sectors: u16,
    pub num_fats: u8,
    pub total_sectors: u32,
    pub sectors_per_fat: u32,
    pub root_cluster: u32,
    pub fs_info_sector: u16,
}

/// The product of a byte-sized count and a 32-bit quantity.
pub fn scaled(count: u8, quantity: u32) -> (r: u64)
    ensures
        r as int == (count as int) * (quantity as int),
        r as int == (quantity as int) * (count as int),
        r <= 0xFE_FFFF_FF01,
{
    assert((count as int) * (quantity as int) == (quantity as int) * (count as int))
        by (nonlinear_arith);
    assert((count as int) * (quantity as int) <= 255 * 0xFFFF_FFFF) by (nonlinear_arith)
        requires
            0 <= count <= 255,
            0 <= quantity <= 0xFFFF_FFFF,
    ;
    (count as u64) * (quantity as u64)
}

impl Bpb {
    /// What a boot sector decodes to: nothing without the 0x55 0xAA
    /// signature at offsets 510 and 511, else the fields at their fixed
    /// offsets. The 32-bit sector total is used when the 16-bit one is zero.
    pub open spec fn parse_spec(sector: Seq<u8>) -> Option<Bpb> {
        if sector[510] != 0x55 || sector[511] != 0xAA {
            None
        } else {
            Some(
                Bpb {
                    bytes_per_sector: le16_at(sector, 11),
                    sectors_per_cluster: sector[13],
                    reserved_sectors: le16_at(sector, 14),
                    num_fats: sector[16],
                    total_sectors: if le16_at(sector, 19) == 0 {
                        le32_at(sector, 32)
                    } else {
                        le16_at(sector, 19) as u32
                    },
                    sectors_per_fat: le32_at(sector, 36),
                    root_cluster: le32_at(sector, 44),
                    fs_info_sector: le16_at(sector, 48),
                },
            )
        }
    }

    /// Decodes a boot sector.
    pub fn parse(sector: &[u8; 512]) -> (r: Option<Bpb>)
        ensures
            r == Self::parse_spec(sector@),
    {
        if sector[510] != 0x55 || sector[511] != 0xAA {
            return None;
        }
        let s: &[u8] = sector.as_slice();
        let total_sectors_16: u16 = read_le16(s, 19);
        let total_sectors_32: u32 = read_le32(s, 32);
        let total_sectors: u32 = if total_sectors_16 == 0 {
            total_sectors_32
        } else {
            total_sectors_16 as u32
        };
        Some(
            Bpb {
                bytes_per_sector: read_le16(s, 11),
                sectors_per_cluster: sector[13],
                reserved_sectors: read_le16(s, 14),
                num_fats: sector[16],
                total_sectors,
                sectors_per_fat: read_le32(s, 36),
                root_cluster: read_le32(s, 44),
                fs_info_sector: read_le16(s, 48),
            },
        )
    }

    /// First sector of the first allocation table.
    pub open spec fn fat_start(&self) -> int {
        self.reserved_sectors as int
    }

    /// First sector of the data region: reserved sectors, then every table.
    pub open spec fn data_start(&self) -> int {
        self.reserved_sectors as int + (self.num_fats as int) * (self.sectors_per_fat as int)
    }

    /// First sector of data cluster `cluster`; clusters are numbered from 2.
    pub open spec fn sector_of(&self, cluster: int) -> int {
        self.data_start() + (cluster - 2) * (self.sectors_per_cluster as int)
    }

    /// Number of bytes in one cluster.
    pub open spec fn cluster_bytes(&self) -> int {
        (self.bytes_per_sector as int) * (self.sectors_per_cluster as int)
    }

    /// Number of data clusters of the volume.
    pub open spec fn cluster_count(&self) -> int {
        (self.total_sectors as int - self.data_start()) / (self.sectors_per_cluster as int)
    }

    /// Whether `cluster` names a data cluster of the volume.
    pub open spec fn valid_cluster(&self, cluster: u32) -> bool {
        2 <= cluster && (cluster as int) < self.cluster_count() + 2
    }

    /// A geometry the driver accepts: 512-byte sectors, at least one sector
    /// per cluster and one table, a data region that begins inside the
    /// volume, tables long enough to hold an entry for every cluster, and
    /// no cluster number at or above the bad-cluster mark.
    pub open spec fn wf(&self) -> bool {
        &&& self.bytes_per_sector == 512
        &&& self.sectors_per_cluster >= 1
        &&& self.num_fats >= 1
        &&& self.sectors_per_fat >= 1
        &&& self.data_start() <= self.total_sectors as int
        &&& self.cluster_count() + 2 <= (self.sectors_per_fat as int) * 128
        &&& self.cluster_count() + 2 <= FAT32_BAD as int
    }

    /// Decides whether the geometry is one the driver accepts.
    pub fn is_valid(&self) -> (r: bool)
        ensures
            r == self.wf(),
    {
        if self.bytes_per_sector != 512 || self.sectors_per_cluster == 0 || self.num_fats == 0
            || self.sectors_per_fat == 0 {
            return false;
        }
        let tables: u64 = scaled(self.num_fats, self.sectors_per_fat);
        let data_start: u64 = self.reserved_sectors as u64 + tables;
        if data_start > self.total_sectors as u64 {
            return false;
        }
        let clusters: u64 = (self.total_sectors as u64 - data_start) / (
        self.sectors_per_cluster as u64);
        clusters + 2 <= (self.sectors_per_fat as u64) * 128 && clusters + 2 <= FAT32_BAD as u64
    }

    /// First sector of the first allocation table.
    pub fn fat_start_sector(&self) -> (r: u32)
        ensures
            r as int == self.fat_start(),
    {
        self.reserved_sectors as u32
    }

    /// First sector of the data region.
    pub fn data_start_sector(&self) -> (r: u32)
        requires
            self.data_start() <= u32::MAX,
        ensures
            r as int == self.data_start(),
    {
        let tables: u64 = scaled(self.num_fats, self.sectors_per_fat);
        (self.reserved_sectors as u64 + tables) as u32
    }

    /// First sector of data cluster `cluster`.
    pub fn cluster_to_sector(&self, cluster: u32) -> (r: u32)
        requires
            cluster >= 2,
            self.sector_of(cluster as int) <= u32::MAX,
        ensures
            r as int == self.sector_of(cluster as int),
    {
        let tables: u64 = scaled(self.num_fats, self.sectors_per_fat);
        let offset: u64 = scaled(self.sectors_per_cluster, cluster - 2);
        (self.reserved_sectors as u64 + tables + offset) as u32
    }

    /// First sector of data cluster `cluster`, when the cluster number is at
    /// least 2 and the sector number fits in 32 bits.
    pub fn cluster_sector_checked(&self, cluster: u32) -> (r: Option<u32>)
        ensures
            r is Some <==> cluster >= 2 && self.sector_of(cluster as int)
                + self.sectors_per_cluster as int <= u32::MAX,
            r matches Some(s) ==> s as int == self.sector_of(cluster as int),
    {
        if cluster < 2 {
            return None;
        }
        let tables: u64 = scaled(self.num_fats, self.sectors_per_fat);
        let offset: u64 = scaled(self.sectors_per_cluster, cluster - 2);
        let first: u64 = self.reserved_sectors as u64 + tables + offset;
        if first + self.sectors_per_cluster as u64 > 0xFFFF_FFFF {
            None
        } else {
            Some(first as u32)
        }
    }

    /// Number of bytes in one cluster.
    pub fn bytes_per_cluster(&self) -> (r: usize)
        ensures
            r as int == self.cluster_bytes(),
    {
        assert((self.bytes_per_sector as int) * (self.sectors_per_cluster as int) <= 65535 * 255)
            by (nonlinear_arith)
            requires
                self.bytes_per_sector <= 65535,
                self.sectors_per_cluster <= 255,
        ;
        (self.bytes_per_sector as usize) * (self.sectors_per_cluster as usize)
    }

    /// Number of data clusters of the volume.
    pub fn total_clusters(&self) -> (r: u32)
        requires
            self.sectors_per_cluster >= 1,
            self.data_start() <= self.total_sectors as int,
        ensures
            r as int == self.cluster_count(),
    {
        let tables: u64 = scaled(self.num_fats, self.sectors_per_fat);
        let data_start: u64 = self.reserved_sectors as u64 + tables;
        ((self.total_sectors as u64 - data_start) / (self.sectors_per_cluster as u64)) as u32
    }

    /// In an accepted geometry every sector of a valid cluster lies inside
    /// the volume, at or after the start of the data region.
    pub proof fn lemma_cluster_sectors(&self, cluster: u32, i: int)
        requires
            self.wf(),
            self.valid_cluster(cluster),
            0 <= i < self.sectors_per_cluster,
        ensures
            self.data_start() <= self.sector_of(cluster as int) + i,
            self.sector_of(cluster as int) + i < self.total_sectors as int,
            self.sector_of(cluster as int) + self.sectors_per_cluster <= self.total_sectors as int,
    {
        let spc = self.sectors_per_cluster as int;
        let room = self.total_sectors as int - self.data_start();
        let count = self.cluster_count();
        assert(count * spc <= room) by (nonlinear_arith)
            requires
                count == room / spc,
                spc >= 1,
                room >= 0,
        ;
        let k = cluster as int - 2;
        assert(k * spc + spc <= count * spc) by (nonlinear_arith)
            requires
                0 <= k < count,
                spc >= 1,
        ;
        assert(0 <= k * spc) by (nonlinear_arith)
            requires
                0 <= k,
                spc >= 1,
        ;
    }

    /// A cluster with a smaller number ends before one with a larger number begins.
    pub proof fn lemma_cluster_order(&self, a: u32, b: u32)
        requires
            self.sectors_per_cluster >= 1,
            2 <= a < b,
        ensures
            self.sector_of(a as int) + self.sectors_per_cluster <= self.sector_of(b as int),
    {
        let spc = self.sectors_per_cluster as int;
        let ka = a as int - 2;
        let kb = b as int - 2;
        assert(ka * spc + spc <= kb * spc) by (nonlinear_arith)
            requires
                ka < kb,
                spc >= 1,
        ;
    }
}

} // verus!
