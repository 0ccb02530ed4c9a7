//! Reading and writing whole data clusters.

use vstd::prelude::*;
use crate::vfs::block::BlockDevice;
use crate::vfs::fat32::table::{agree_outside, Fat32Inner};

verus! {

/// A sequence of `n` zero bytes.
pub open spec fn zeros(n: int) -> Seq<u8> {
    Seq::new(n as nat, |i: int| 0u8)
}

/// Copies 512 bytes of `buf`, starting at `at`, into a sector buffer.
pub fn sector_from(buf: &[u8], at: usize) -> (r: [u8; 512])
    requires
        at + 512 <= buf@.len(),
    ensures
        r@ == buf@.subrange(at as int, at + 512),
{
    let mut sector = [0u8; 512];
    let n: usize = buf.len();
    let mut j: usize = 0;
    while j < 512
        invariant
            j <= 512,
            n == buf@.len(),
            at + 512 <= buf@.len(),
            forall|k: int| 0 <= k < j ==> sector@[k] == buf@[at + k],
        decreases 512 - j,
    {
        sector[j] = buf[at + j];
        j += 1;
    }
    assert(sector@ =~= buf@.subrange(at as int, at + 512));
    sector
}

/// Copies a sector buffer into `buf` at `at`; the rest of `buf` is kept.
pub fn sector_into(buf: &mut Vec<u8>, at: usize, sector: &[u8; 512])
    requires
        at + 512 <= old(buf)@.len(),
    ensures
        final(buf)@.len() == old(buf)@.len(),
        forall|k: int|
            0 <= k < old(buf)@.len() ==> final(buf)@[k] == if at <= k < at + 512 {
                sector@[k - at]
            } else {
                old(buf)@[k]
            },
{
    let n: usize = buf.len();
    let mut j: usize = 0;
    while j < 512
        invariant
            j <= 512,
            n == buf@.len(),
            buf@.len() == old(buf)@.len(),
            at + 512 <= buf@.len(),
            forall|k: int|
                0 <= k < buf@.len() ==> buf@[k] == if at <= k < at + j {
                    sector@[k - at]
                } else {
                    old(buf)@[k]
                },
        decreases 512 - j,
    {
        buf[at + j] = sector[j];
        j += 1;
    }
}

impl<D: BlockDevice> Fat32Inner<D> {
    /// Fills data cluster `cluster` with zero bytes.
    ///
    /// A number that names no data cluster is refused, and then nothing
    /// is written.
    pub fn zero_cluster(&mut self, cluster: u32) -> (r: Result<(), &'static str>)
        requires
            old(self).wf(),
        ensures
            final(self).bpb == old(self).bpb,
            !old(self).bpb.valid_cluster(cluster) ==> r is Err && final(self).device.sectors()
                == old(self).device.sectors(),
            r is Ok ==> agree_outside(
                old(self).device.sectors(),
                final(self).device.sectors(),
                old(self).bpb.sector_of(cluster as int),
                old(self).bpb.sector_of(cluster as int) + old(self).bpb.sectors_per_cluster,
            ) && final(self).cluster_data(cluster) == zeros(old(self).bpb.cluster_bytes()),
    {
        if !self.is_valid_cluster(cluster) {
            return Err("cluster out of range");
        }
        proof {
            self.bpb.lemma_cluster_sectors(cluster, 0);
        }
        let start_sector: u32 = self.bpb.cluster_to_sector(cluster);
        let zero_sector = [0u8; 512];
        proof {
            crate::bytes::lemma_repeated(zero_sector, 0u8);
        }
        let mut i: u32 = 0;
        while i < self.bpb.sectors_per_cluster as u32
            invariant
                i <= self.bpb.sectors_per_cluster,
                self.bpb == old(self).bpb,
                self.wf(),
                self.bpb.valid_cluster(cluster),
                start_sector as int == self.bpb.sector_of(cluster as int),
                start_sector + self.bpb.sectors_per_cluster <= u32::MAX,
                zero_sector@ == zeros(512),
                agree_outside(
                    old(self).device.sectors(),
                    self.device.sectors(),
                    start_sector as int,
                    start_sector + i,
                ),
                forall|j: int|
                    0 <= j < i ==> #[trigger] self.device.sectors()[(start_sector + j) as u32]
                        == zeros(512),
            decreases self.bpb.sectors_per_cluster - i,
        {
            match self.write_sector(start_sector + i, &zero_sector) {
                Ok(()) => {},
                Err(e) => {
                    return Err(e);
                },
            }
            i += 1;
        }
        proof {
            let spc = self.bpb.sectors_per_cluster as int;
            assert forall|x: int| 0 <= x < self.bpb.cluster_bytes() implies self.cluster_data(
                cluster,
            )[x] == 0u8 by {
                assert(x / 512 < spc) by (nonlinear_arith)
                    requires
                        0 <= x < 512 * spc,
                ;
                assert(self.device.sectors()[(start_sector + x / 512) as u32] == zeros(512));
            }
            assert(self.cluster_data(cluster) =~= zeros(self.bpb.cluster_bytes()));
        }
        Ok(())
    }

    /// Reads data cluster `cluster` into the front of `buf`.
    ///
    /// A buffer shorter than a cluster is refused, and so is a number that
    /// names no data cluster.
    pub fn read_cluster(&self, cluster: u32, buf: &mut Vec<u8>) -> (r: Result<
        (),
        &'static str,
    >)
        requires
            self.wf(),
        ensures
            final(buf)@.len() == old(buf)@.len(),
            old(buf)@.len() < self.bpb.cluster_bytes() || !self.bpb.valid_cluster(cluster)
                ==> r is Err && final(buf)@ == old(buf)@,
            r is Ok ==> final(buf)@.subrange(0, self.bpb.cluster_bytes()) == self.cluster_data(
                cluster,
            ) && final(buf)@.subrange(self.bpb.cluster_bytes(), old(buf)@.len() as int) == old(buf)@.subrange(self.bpb.cluster_bytes(), old(buf)@.len() as int),
    {
        let cluster_size: usize = self.bpb.bytes_per_cluster();
        if buf.len() < cluster_size {
            return Err("buffer too small");
        }
        if !self.is_valid_cluster(cluster) {
            return Err("cluster out of range");
        }
        proof {
            self.bpb.lemma_cluster_sectors(cluster, 0);
        }
        let start_sector: u32 = self.bpb.cluster_to_sector(cluster);
        let mut i: usize = 0;
        while i < self.bpb.sectors_per_cluster as usize
            invariant
                i <= self.bpb.sectors_per_cluster,
                self.wf(),
                cluster_size as int == self.bpb.cluster_bytes(),
                buf@.len() == old(buf)@.len(),
                cluster_size <= buf@.len(),
                self.bpb.valid_cluster(cluster),
                start_sector as int == self.bpb.sector_of(cluster as int),
                start_sector + self.bpb.sectors_per_cluster <= u32::MAX,
                forall|k: int|
                    0 <= k < buf@.len() ==> buf@[k] == if k < 512 * i {
                        self.cluster_data(cluster)[k]
                    } else {
                        old(buf)@[k]
                    },
            decreases self.bpb.sectors_per_cluster - i,
        {
            let mut sector = [0u8; 512];
            match self.read_sector(start_sector + i as u32, &mut sector) {
                Ok(()) => {},
                Err(e) => {
                    return Err(e);
                },
            }
            let ghost before = buf@;
            sector_into(buf, i * 512, &sector);
            proof {
                assert forall|k: int| 0 <= k < buf@.len() implies buf@[k] == if k < 512 * (i + 1) {
                    self.cluster_data(cluster)[k]
                } else {
                    old(buf)@[k]
                } by {
                    if 512 * i <= k < 512 * (i + 1) {
                        assert(k / 512 == i as int);
                        assert(k % 512 == k - 512 * i);
                    }
                }
            }
            i += 1;
        }
        proof {
            assert(cluster_size == 512 * i);
            assert(buf@.subrange(0, cluster_size as int) =~= self.cluster_data(cluster));
            assert(buf@.subrange(cluster_size as int, buf@.len() as int) =~= old(buf)@.subrange(
                cluster_size as int,
                buf@.len() as int,
            ));
        }
        Ok(())
    }

    /// Writes the front of `buf` to data cluster `cluster`.
    ///
    /// A buffer shorter than a cluster is refused, and so is a number that
    /// names no data cluster; then nothing is written.
    pub fn write_cluster(&mut self, cluster: u32, buf: &[u8]) -> (r: Result<(), &'static str>)
        requires
            old(self).wf(),
        ensures
            final(self).bpb == old(self).bpb,
            buf@.len() < old(self).bpb.cluster_bytes() || !old(self).bpb.valid_cluster(cluster)
                ==> r is Err && final(self).device.sectors() == old(self).device.sectors(),
            r is Ok ==> agree_outside(
                old(self).device.sectors(),
                final(self).device.sectors(),
                old(self).bpb.sector_of(cluster as int),
                old(self).bpb.sector_of(cluster as int) + old(self).bpb.sectors_per_cluster,
            ) && final(self).cluster_data(cluster) == buf@.subrange(
                0,
                old(self).bpb.cluster_bytes(),
            ),
    {
        let cluster_size: usize = self.bpb.bytes_per_cluster();
        if buf.len() < cluster_size {
            return Err("buffer too small");
        }
        if !self.is_valid_cluster(cluster) {
            return Err("cluster out of range");
        }
        proof {
            self.bpb.lemma_cluster_sectors(cluster, 0);
        }
        let start_sector: u32 = self.bpb.cluster_to_sector(cluster);
        let mut i: usize = 0;
        while i < self.bpb.sectors_per_cluster as usize
            invariant
                i <= self.bpb.sectors_per_cluster,
                self.bpb == old(self).bpb,
                self.wf(),
                self.bpb.valid_cluster(cluster),
                cluster_size as int == self.bpb.cluster_bytes(),
                cluster_size <= buf@.len(),
                start_sector as int == self.bpb.sector_of(cluster as int),
                start_sector + self.bpb.sectors_per_cluster <= u32::MAX,
                agree_outside(
                    old(self).device.sectors(),
                    self.device.sectors(),
                    start_sector as int,
                    start_sector + i,
                ),
                forall|j: int|
                    0 <= j < i ==> #[trigger] self.device.sectors()[(start_sector + j) as u32]
                        == buf@.subrange(512 * j, 512 * j + 512),
            decreases self.bpb.sectors_per_cluster - i,
        {
            let sector = sector_from(buf, i * 512);
            match self.write_sector(start_sector + i as u32, &sector) {
                Ok(()) => {},
                Err(e) => {
                    return Err(e);
                },
            }
            i += 1;
        }
        proof {
            let spc = self.bpb.sectors_per_cluster as int;
            assert forall|x: int| 0 <= x < self.bpb.cluster_bytes() implies self.cluster_data(
                cluster,
            )[x] == buf@[x] by {
                assert(x / 512 < spc) by (nonlinear_arith)
                    requires
                        0 <= x < 512 * spc,
                ;
                let j = x / 512;
                assert(self.device.sectors()[(start_sector + j) as u32] == buf@.subrange(
                    512 * j,
                    512 * j + 512,
                ));
            }
            assert(self.cluster_data(cluster) =~= buf@.subrange(0, self.bpb.cluster_bytes()));
        }
        Ok(())
    }
}

} // verus!
