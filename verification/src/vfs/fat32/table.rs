//! The allocation table and the data clusters of a mounted volume.

use vstd::prelude::*;
use crate::bytes::{byte_of, le32, le32_at, lemma_bytes_of_le32, put_le32, read_le32, u32_byte};
use crate::vfs::block::BlockDevice;
use crate::vfs::fat32::bpb::{scaled, Bpb};

verus! {

/// Whether two sector maps hold the same sectors with the same bytes
/// everywhere but in the range of sector numbers from `lo` up to `hi`.
pub open spec fn agree_outside(
    a: Map<u32, Seq<u8>>,
    b: Map<u32, Seq<u8>>,
    lo: int,
    hi: int,
) -> bool {
    forall|l: u32|
        #![trigger a[l]]
        #![trigger b[l]]
        #![trigger a.contains_key(l)]
        #![trigger b.contains_key(l)]
        !(lo <= l as int && (l as int) < hi) ==> a.contains_key(l) == b.contains_key(l) && a[l]
            == b[l]
}

/// The table entry that results from storing `value` over `existing`: the
/// low 28 bits come from `value`, the high 4 bits stay as they were.
pub open spec fn merged(existing: u32, value: u32) -> u32 {
    ((existing as int / 0x1000_0000) * 0x1000_0000 + value as int % 0x1000_0000) as u32
}

/// Products with the table length: what lies in an earlier copy of the
/// table lies before every later copy.
pub proof fn lemma_table_layout(spf: int, j: int, k: int, q: int)
    requires
        0 <= j < k,
        0 <= q < spf,
    ensures
        j * spf + q < k * spf,
        (j + 1) * spf == j * spf + spf,
        0 <= j * spf,
{
    assert(j * spf + spf <= k * spf) by (nonlinear_arith)
        requires
            0 <= j < k,
            0 < spf,
    ;
    assert((j + 1) * spf == j * spf + spf) by (nonlinear_arith);
    assert(0 <= j * spf) by (nonlinear_arith)
        requires
            0 <= j,
            0 < spf,
    ;
}

/// Reading a 32-bit value from a sequence in which one was just stored:
/// at the same offset it is the stored value, at any other offset that is
/// a multiple of four it is what was there before.
pub proof fn lemma_put_then_read(s: Seq<u8>, off: int, v: u32, other: int)
    requires
        0 <= off,
        off + 4 <= s.len(),
        0 <= other,
        other + 4 <= s.len(),
        off % 4 == 0,
        other % 4 == 0,
    ensures
        put_le32(s, off, v).len() == s.len(),
        le32_at(put_le32(s, off, v), other) == if other == off {
            v
        } else {
            le32_at(s, other)
        },
{
    crate::bytes::lemma_le32_of_bytes(v);
}

/// A mounted volume: the device and the geometry read from its boot sector.
pub struct Fat32Inner<D: BlockDevice> {
    pub device: D,
    pub bpb: Bpb,
}

/// The table entry of `cluster` in the sector of the table that holds it:
/// the low 28 bits of the four bytes at the place of the cluster.
pub fn entry_in(sector: &[u8; 512], cluster: u32) -> (r: u32)
    ensures
        r == (le32_at(sector@, (cluster as int % 128) * 4) as int % 0x1000_0000) as u32,
        r < 0x1000_0000,
{
    let offset: usize = ((cluster % 128) * 4) as usize;
    let raw: u32 = read_le32(sector.as_slice(), offset);
    raw % 0x1000_0000
}

impl<D: BlockDevice> Fat32Inner<D> {
    /// The geometry is one the driver accepts.
    pub open spec fn wf(&self) -> bool {
        self.bpb.wf()
    }

    /// Whether the table has an entry for `cluster`.
    pub open spec fn in_table(&self, cluster: u32) -> bool {
        (cluster as int) < (self.bpb.sectors_per_fat as int) * 128
    }

    /// The sector of table copy `copy` that holds the entry of `cluster`.
    pub open spec fn fat_sector(&self, copy: int, cluster: u32) -> int {
        self.bpb.fat_start() + copy * (self.bpb.sectors_per_fat as int) + (cluster as int) / 128
    }

    /// The 32 bits stored for `cluster` in table copy `copy`.
    pub open spec fn fat_raw(&self, copy: int, cluster: u32) -> u32 {
        le32_at(
            self.device.sectors()[self.fat_sector(copy, cluster) as u32],
            (cluster as int % 128) * 4,
        )
    }

    /// The table entry of `cluster`: the low 28 bits stored in the first copy.
    pub open spec fn fat_at(&self, cluster: u32) -> u32 {
        (self.fat_raw(0, cluster) as int % 0x1000_0000) as u32
    }

    /// The bytes of data cluster `cluster`, sector after sector.
    pub open spec fn cluster_data(&self, cluster: u32) -> Seq<u8> {
        Seq::new(
            self.bpb.cluster_bytes() as nat,
            |i: int|
                self.device.sectors()[(self.bpb.sector_of(cluster as int) + i / 512) as u32][i
                    % 512],
        )
    }

    /// A valid cluster has an entry in the table.
    pub proof fn lemma_valid_in_table(&self, cluster: u32)
        requires
            self.wf(),
            self.bpb.valid_cluster(cluster),
        ensures
            self.in_table(cluster),
    {
    }

    /// Every sector of every copy of the table lies before the data region.
    pub proof fn lemma_fat_sector_range(&self, copy: int, cluster: u32)
        requires
            self.wf(),
            self.in_table(cluster),
            0 <= copy < self.bpb.num_fats,
        ensures
            self.bpb.fat_start() <= self.fat_sector(copy, cluster) < self.bpb.data_start(),
            self.fat_sector(copy, cluster) <= u32::MAX,
    {
        let spf = self.bpb.sectors_per_fat as int;
        lemma_table_layout(spf, copy, self.bpb.num_fats as int, (cluster as int) / 128);
    }

    /// The table entries do not depend on sectors outside the table, and
    /// the data of a cluster does not depend on sectors outside the cluster.
    pub proof fn lemma_frame(&self, other: &Self, lo: int, hi: int)
        requires
            self.wf(),
            self.bpb == other.bpb,
            agree_outside(self.device.sectors(), other.device.sectors(), lo, hi),
        ensures
            forall|c: u32, k: int|
                self.in_table(c) && 0 <= k < self.bpb.num_fats && !(lo <= self.fat_sector(k, c)
                    < hi) ==> #[trigger] self.fat_raw(k, c) == other.fat_raw(k, c),
            forall|c: u32|
                self.in_table(c) && !(lo <= self.fat_sector(0, c) < hi) ==> #[trigger] self.fat_at(
                    c,
                ) == other.fat_at(c),
            forall|c: u32|
                self.bpb.valid_cluster(c) && (self.bpb.sector_of(c as int)
                    + self.bpb.sectors_per_cluster <= lo || hi <= self.bpb.sector_of(c as int))
                    ==> #[trigger] self.cluster_data(c) == other.cluster_data(c),
    {
        assert forall|c: u32, k: int|
            self.in_table(c) && 0 <= k < self.bpb.num_fats && !(lo <= self.fat_sector(k, c)
                < hi) implies #[trigger] self.fat_raw(k, c) == other.fat_raw(k, c) by {
            self.lemma_fat_sector_range(k, c);
        }
        assert forall|c: u32|
            self.in_table(c) && !(lo <= self.fat_sector(0, c) < hi) implies #[trigger] self.fat_at(
            c,
        ) == other.fat_at(c) by {
            self.lemma_fat_sector_range(0, c);
        }
        assert forall|c: u32|
            self.bpb.valid_cluster(c) && (self.bpb.sector_of(c as int)
                + self.bpb.sectors_per_cluster <= lo || hi <= self.bpb.sector_of(
                c as int,
            )) implies #[trigger] self.cluster_data(c) == other.cluster_data(c) by {
            assert forall|i: int| 0 <= i < self.bpb.cluster_bytes() implies self.cluster_data(c)[i]
                == other.cluster_data(c)[i] by {
                let spc = self.bpb.sectors_per_cluster as int;
                assert(i / 512 < spc) by (nonlinear_arith)
                    requires
                        0 <= i < 512 * spc,
                ;
                self.bpb.lemma_cluster_sectors(c, i / 512);
            }
            assert(self.cluster_data(c) =~= other.cluster_data(c));
        }
    }

    /// Reads a sector of the device.
    pub fn read_sector(&self, sector: u32, buf: &mut [u8; 512]) -> (r: Result<(), &'static str>)
        ensures
            r is Ok ==> self.device.sectors().contains_key(sector) && final(buf)@
                == self.device.sectors()[sector],
    {
        self.device.read_sector(sector, buf)
    }

    /// Writes a sector of the device.
    pub fn write_sector(&mut self, sector: u32, buf: &[u8; 512]) -> (r: Result<(), &'static str>)
        ensures
            final(self).bpb == old(self).bpb,
            r is Ok ==> final(self).device.sectors() == old(self).device.sectors().insert(
                sector,
                buf@,
            ),
    {
        self.device.write_sector(sector, buf)
    }

    /// Decides whether `cluster` names a data cluster of the volume.
    pub fn is_valid_cluster(&self, cluster: u32) -> (r: bool)
        requires
            self.wf(),
        ensures
            r == self.bpb.valid_cluster(cluster),
    {
        cluster >= 2 && cluster - 2 < self.bpb.total_clusters()
    }

    /// Reads the table entry of `cluster` from the first copy of the table.
    ///
    /// A cluster for which the table has no entry is refused.
    pub fn get_fat_entry(&self, cluster: u32) -> (r: Result<u32, &'static str>)
        requires
            self.wf(),
        ensures
            !self.in_table(cluster) ==> r is Err,
            r matches Ok(v) ==> v == self.fat_at(cluster) && v < 0x1000_0000,
    {
        if cluster as u64 >= (self.bpb.sectors_per_fat as u64) * 128 {
            return Err("cluster out of range");
        }
        let fat_sector: u64 = self.bpb.fat_start_sector() as u64 + (cluster / 128) as u64;
        if fat_sector > 0xFFFF_FFFF {
            return Err("sector out of range");
        }
        let mut sector = [0u8; 512];
        match self.read_sector(fat_sector as u32, &mut sector) {
            Ok(()) => {},
            Err(e) => {
                return Err(e);
            },
        }
        assert(self.fat_sector(0, cluster) == fat_sector as int);
        Ok(entry_in(&sector, cluster))
    }

    /// Stores `value` as the table entry of `cluster` in every copy of the
    /// table. Only the low 28 bits are replaced.
    ///
    /// A cluster for which the table has no entry is refused, and then
    /// nothing is written.
    pub fn set_fat_entry(&mut self, cluster: u32, value: u32) -> (r: Result<(), &'static str>)
        requires
            old(self).wf(),
        ensures
            final(self).bpb == old(self).bpb,
            !old(self).in_table(cluster) ==> r is Err
                && final(self).device.sectors() == old(self).device.sectors(),
            r is Ok ==> {
                &&& agree_outside(
                    old(self).device.sectors(),
                    final(self).device.sectors(),
                    old(self).bpb.fat_start(),
                    old(self).bpb.data_start(),
                )
                &&& forall|c: u32, k: int|
                    old(self).in_table(c) && 0 <= k < old(self).bpb.num_fats
                        ==> #[trigger] final(self).fat_raw(k, c) == if c == cluster {
                        merged(old(self).fat_raw(k, c), value)
                    } else {
                        old(self).fat_raw(k, c)
                    }
                &&& forall|c: u32|
                    old(self).in_table(c) ==> #[trigger] final(self).fat_at(c) == if c == cluster {
                        (value as int % 0x1000_0000) as u32
                    } else {
                        old(self).fat_at(c)
                    }
            },
    {
        if cluster as u64 >= (self.bpb.sectors_per_fat as u64) * 128 {
            return Err("cluster out of range");
        }
        let within: u32 = cluster / 128;
        let offset: usize = ((cluster % 128) * 4) as usize;
        let ghost spf = self.bpb.sectors_per_fat as int;
        let ghost start = self.bpb.fat_start();
        let mut copy: u8 = 0;
        proof {
            assert(0 * spf == 0) by (nonlinear_arith);
        }
        while copy < self.bpb.num_fats
            invariant
                copy <= self.bpb.num_fats,
                self.bpb == old(self).bpb,
                old(self).wf(),
                old(self).in_table(cluster),
                within == cluster / 128,
                offset == (cluster as int % 128) * 4,
                spf == self.bpb.sectors_per_fat as int,
                start == self.bpb.fat_start(),
                agree_outside(
                    old(self).device.sectors(),
                    self.device.sectors(),
                    start,
                    start + copy * spf,
                ),
                forall|c: u32, k: int|
                    old(self).in_table(c) && 0 <= k < copy ==> #[trigger] self.fat_raw(k, c)
                        == if c == cluster {
                        merged(old(self).fat_raw(k, c), value)
                    } else {
                        old(self).fat_raw(k, c)
                    },
            decreases self.bpb.num_fats - copy,
        {
            let ghost before = *self;
            let fat_sector: u64 = self.bpb.fat_start_sector() as u64 + scaled(
                copy,
                self.bpb.sectors_per_fat,
            ) + within as u64;
            proof {
                old(self).lemma_fat_sector_range(copy as int, cluster);
                lemma_table_layout(spf, copy as int, copy as int + 1, within as int);
            }
            assert(fat_sector as int == self.fat_sector(copy as int, cluster));
            let mut sector = [0u8; 512];
            match self.read_sector(fat_sector as u32, &mut sector) {
                Ok(()) => {},
                Err(e) => {
                    return Err(e);
                },
            }
            let existing: u32 = read_le32(sector.as_slice(), offset);
            let new_value: u32 = (existing / 0x1000_0000) * 0x1000_0000 + value % 0x1000_0000;
            let ghost read = sector@;
            sector[offset] = u32_byte(new_value, 0);
            sector[offset + 1] = u32_byte(new_value, 1);
            sector[offset + 2] = u32_byte(new_value, 2);
            sector[offset + 3] = u32_byte(new_value, 3);
            assert(sector@ == put_le32(read, offset as int, new_value));
            match self.write_sector(fat_sector as u32, &sector) {
                Ok(()) => {},
                Err(e) => {
                    return Err(e);
                },
            }
            proof {
                assert(existing == old(self).fat_raw(copy as int, cluster));
                assert forall|c: u32, k: int|
                    old(self).in_table(c) && 0 <= k < copy + 1 implies #[trigger] self.fat_raw(k, c)
                        == if c == cluster {
                        merged(old(self).fat_raw(k, c), value)
                    } else {
                        old(self).fat_raw(k, c)
                    } by {
                    old(self).lemma_fat_sector_range(k, c);
                    let q = (c as int) / 128;
                    if k < copy {
                        lemma_table_layout(spf, k, copy as int, q);
                        assert(self.fat_sector(k, c) < fat_sector);
                        assert(self.fat_raw(k, c) == before.fat_raw(k, c));
                    } else if q != within {
                        assert(self.fat_sector(k, c) != fat_sector);
                        assert(self.fat_raw(k, c) == before.fat_raw(k, c));
                        assert(before.fat_raw(k, c) == old(self).fat_raw(k, c));
                    } else {
                        assert(self.fat_sector(k, c) == fat_sector);
                        lemma_put_then_read(
                            read,
                            offset as int,
                            new_value,
                            (c as int % 128) * 4,
                        );
                        assert(read == old(self).device.sectors()[fat_sector as u32]);
                    }
                }
            }
            copy += 1;
        }
        proof {
            assert(copy == self.bpb.num_fats);
            assert forall|c: u32| old(self).in_table(c) implies #[trigger] self.fat_at(c) == if c
                == cluster {
                (value as int % 0x1000_0000) as u32
            } else {
                old(self).fat_at(c)
            } by {
                assert(self.fat_raw(0, c) == if c == cluster {
                    merged(old(self).fat_raw(0, c), value)
                } else {
                    old(self).fat_raw(0, c)
                });
            }
        }
        Ok(())
    }
}

} // verus!
