//! Cluster chains: following, allocating, extending and freeing them.

use vstd::prelude::*;
use crate::vfs::block::BlockDevice;
use crate::vfs::fat32::bpb::{FAT32_EOC, FAT32_FREE};
use crate::vfs::fat32::cluster::zeros;
use crate::vfs::fat32::table::{agree_outside, Fat32Inner};

verus! {

/// The largest number of clusters a chain may have. No chain of distinct
/// clusters is longer, since a table entry holds a 28-bit cluster number.
pub const CHAIN_LIMIT: u32 = 0x1000_0000;

/// `head` followed by `rest`, when there is a `rest`.
pub open spec fn prepend(head: Seq<u32>, rest: Option<Seq<u32>>) -> Option<Seq<u32>> {
    match rest {
        Some(r) => Some(head.add(r)),
        None => None,
    }
}

/// Whether a table entry ends a chain: a value below 2, or an
/// end-of-chain mark.
pub open spec fn is_end(entry: u32) -> bool {
    entry < 2 || entry >= FAT32_EOC
}

impl<D: BlockDevice> Fat32Inner<D> {
    /// The clusters of the chain that begins at `start`, followed for at
    /// most `limit` clusters: `start`, then the cluster its table entry
    /// names, and so on until an entry ends the chain. There is no chain
    /// when a number on the way names no data cluster, or when more than
    /// `limit` clusters are linked (as in a cycle).
    pub open spec fn chain_from(&self, start: u32, limit: nat) -> Option<Seq<u32>>
        decreases limit,
    {
        if is_end(start) {
            Some(Seq::empty())
        } else if limit == 0 || !self.bpb.valid_cluster(start) {
            None
        } else {
            prepend(seq![start], self.chain_from(self.fat_at(start), (limit - 1) as nat))
        }
    }

    /// The clusters of the chain that begins at `start`.
    pub open spec fn chain(&self, start: u32) -> Option<Seq<u32>> {
        self.chain_from(start, CHAIN_LIMIT as nat)
    }

    /// The bytes of the clusters `cs`, one cluster after the other.
    pub open spec fn clusters_data(&self, cs: Seq<u32>) -> Seq<u8>
        decreases cs.len(),
    {
        if cs.len() == 0 {
            Seq::empty()
        } else {
            self.clusters_data(cs.drop_last()).add(self.cluster_data(cs.last()))
        }
    }

    /// Whether `other` has the same geometry, the same table entry for
    /// every cluster outside `fat_touched`, and the same data in every
    /// cluster outside `data_touched`.
    pub open spec fn same_except(
        &self,
        other: &Self,
        fat_touched: Set<u32>,
        data_touched: Set<u32>,
    ) -> bool {
        &&& self.bpb == other.bpb
        &&& forall|c: u32|
            self.in_table(c) && !fat_touched.contains(c) ==> #[trigger] other.fat_at(c)
                == self.fat_at(c)
        &&& forall|c: u32|
            self.bpb.valid_cluster(c) && !data_touched.contains(c) ==> #[trigger] other.cluster_data(
                c,
            ) == self.cluster_data(c)
    }

    /// A write inside the table region leaves every data cluster as it was.
    pub proof fn lemma_table_write(&self, other: &Self)
        requires
            self.wf(),
            self.bpb == other.bpb,
            agree_outside(
                self.device.sectors(),
                other.device.sectors(),
                self.bpb.fat_start(),
                self.bpb.data_start(),
            ),
        ensures
            forall|c: u32|
                self.bpb.valid_cluster(c) ==> #[trigger] other.cluster_data(c)
                    == self.cluster_data(c),
    {
        self.lemma_frame(other, self.bpb.fat_start(), self.bpb.data_start());
        assert forall|c: u32| self.bpb.valid_cluster(c) implies #[trigger] other.cluster_data(c)
            == self.cluster_data(c) by {
            self.bpb.lemma_cluster_sectors(c, 0);
            assert(self.cluster_data(c) == other.cluster_data(c));
        }
    }

    /// A write inside one data cluster leaves the table and every other
    /// data cluster as they were.
    pub proof fn lemma_cluster_write(&self, other: &Self, cluster: u32)
        requires
            self.wf(),
            self.bpb == other.bpb,
            self.bpb.valid_cluster(cluster),
            agree_outside(
                self.device.sectors(),
                other.device.sectors(),
                self.bpb.sector_of(cluster as int),
                self.bpb.sector_of(cluster as int) + self.bpb.sectors_per_cluster,
            ),
        ensures
            self.same_except(other, Set::empty(), set![cluster]),
    {
        let lo = self.bpb.sector_of(cluster as int);
        let hi = lo + self.bpb.sectors_per_cluster;
        self.lemma_frame(other, lo, hi);
        self.bpb.lemma_cluster_sectors(cluster, 0);
        assert forall|c: u32| self.in_table(c) implies #[trigger] other.fat_at(c) == self.fat_at(
            c,
        ) by {
            self.lemma_fat_sector_range(0, c);
            assert(self.fat_at(c) == other.fat_at(c));
        }
        assert forall|c: u32|
            self.bpb.valid_cluster(c) && c != cluster implies #[trigger] other.cluster_data(c)
            == self.cluster_data(c) by {
            if c < cluster {
                self.bpb.lemma_cluster_order(c, cluster);
            } else {
                self.bpb.lemma_cluster_order(cluster, c);
            }
            assert(self.cluster_data(c) == other.cluster_data(c));
        }
    }

    /// What holds of a chain: it is no longer than the limit, its clusters
    /// are data clusters, it begins at its start, each cluster's table
    /// entry names the next, and the last entry ends the chain.
    pub proof fn lemma_chain_props(&self, start: u32, limit: nat)
        requires
            self.chain_from(start, limit) is Some,
        ensures
            ({
                let cs = self.chain_from(start, limit)->0;
                &&& cs.len() <= limit
                &&& forall|i: int| 0 <= i < cs.len() ==> self.bpb.valid_cluster(#[trigger] cs[i])
                &&& forall|i: int| 0 <= i < cs.len() ==> !is_end(#[trigger] cs[i])
                &&& cs.len() > 0 ==> cs[0] == start
                &&& cs.len() == 0 ==> is_end(start)
                &&& forall|i: int| 0 <= i < cs.len() - 1 ==> #[trigger] self.fat_at(cs[i]) == cs[i + 1]
                &&& cs.len() > 0 ==> is_end(self.fat_at(cs.last()))
            }),
        decreases limit,
    {
        if !is_end(start) {
            let next = self.fat_at(start);
            self.lemma_chain_props(next, (limit - 1) as nat);
            let rest = self.chain_from(next, (limit - 1) as nat)->0;
            let cs = self.chain_from(start, limit)->0;
            assert(cs =~= seq![start].add(rest));
            assert forall|i: int| 0 <= i < cs.len() - 1 implies #[trigger] self.fat_at(cs[i])
                == cs[i + 1] by {
                if i > 0 {
                    assert(cs[i] == rest[i - 1]);
                    assert(cs[i + 1] == rest[i]);
                }
            }
            assert forall|i: int| 0 <= i < cs.len() implies self.bpb.valid_cluster(
                #[trigger] cs[i],
            ) && !is_end(cs[i]) by {
                if i > 0 {
                    assert(cs[i] == rest[i - 1]);
                }
            }
            if rest.len() > 0 {
                assert(cs.last() == rest.last());
            }
        }
    }

    /// Whether `c` is the lowest cluster that is free.
    pub open spec fn lowest_free(&self, c: u32) -> bool {
        &&& self.bpb.valid_cluster(c)
        &&& self.fat_at(c) == FAT32_FREE
        &&& forall|b: u32| self.bpb.valid_cluster(b) && b < c ==> self.fat_at(b) != FAT32_FREE
    }

    /// Whether no cluster of the chain that begins at `start` is marked
    /// free. A chain may end at a cluster whose entry is zero, which is
    /// also the mark of a free cluster; such a cluster can be handed out
    /// again while the chain still holds it.
    pub open spec fn well_ended(&self, start: u32) -> bool {
        forall|i: int|
            0 <= i < (self.chain(start)->0).len() ==> self.fat_at(
                #[trigger] (self.chain(start)->0)[i],
            ) != FAT32_FREE
    }

    /// No cluster of a chain whose last table entry is an end-of-chain mark
    /// is marked free.
    pub proof fn lemma_ended_chain_is_used(&self, start: u32)
        requires
            self.wf(),
            self.chain(start) is Some,
            (self.chain(start)->0).len() > 0,
            self.fat_at((self.chain(start)->0).last()) >= FAT32_EOC,
        ensures
            self.well_ended(start),
    {
        let cs = self.chain(start)->0;
        self.lemma_chain_props(start, CHAIN_LIMIT as nat);
        assert forall|i: int| 0 <= i < cs.len() implies self.fat_at(#[trigger] cs[i])
            != FAT32_FREE by {
            if i < cs.len() - 1 {
                assert(self.fat_at(cs[i]) == cs[i + 1]);
                assert(self.bpb.valid_cluster(cs[i + 1]));
            } else {
                assert(cs[i] == cs.last());
            }
        }
    }

    /// A chain none of whose clusters had its table entry touched is still
    /// the same chain, and where none of its clusters had its data touched
    /// it holds the same bytes.
    pub proof fn lemma_chain_kept(
        &self,
        other: &Self,
        start: u32,
        limit: nat,
        fat_touched: Set<u32>,
        data_touched: Set<u32>,
    )
        requires
            self.wf(),
            self.same_except(other, fat_touched, data_touched),
            self.chain_from(start, limit) is Some,
            forall|i: int|
                0 <= i < (self.chain_from(start, limit)->0).len() ==> !fat_touched.contains(
                    #[trigger] (self.chain_from(start, limit)->0)[i],
                ),
        ensures
            other.chain_from(start, limit) == self.chain_from(start, limit),
            (forall|i: int|
                0 <= i < (self.chain_from(start, limit)->0).len() ==> !data_touched.contains(
                    #[trigger] (self.chain_from(start, limit)->0)[i],
                )) ==> other.clusters_data(self.chain_from(start, limit)->0)
                == self.clusters_data(self.chain_from(start, limit)->0),
        decreases limit,
    {
        let cs = self.chain_from(start, limit)->0;
        if !is_end(start) {
            let next = self.fat_at(start);
            let rest = self.chain_from(next, (limit - 1) as nat)->0;
            assert(cs =~= seq![start].add(rest));
            assert(cs[0] == start);
            self.lemma_valid_in_table(start);
            assert(other.fat_at(start) == next);
            assert forall|i: int| 0 <= i < rest.len() implies !fat_touched.contains(
                #[trigger] rest[i],
            ) by {
                assert(rest[i] == cs[i + 1]);
            }
            self.lemma_chain_kept(other, next, (limit - 1) as nat, fat_touched, data_touched);
        }
        if forall|i: int| 0 <= i < cs.len() ==> !data_touched.contains(#[trigger] cs[i]) {
            self.lemma_chain_props(start, limit);
            self.lemma_data_kept(other, cs, fat_touched, data_touched);
        }
    }

    /// Clusters whose data was not touched hold the same bytes.
    pub proof fn lemma_data_kept(
        &self,
        other: &Self,
        cs: Seq<u32>,
        fat_touched: Set<u32>,
        data_touched: Set<u32>,
    )
        requires
            self.same_except(other, fat_touched, data_touched),
            forall|i: int| 0 <= i < cs.len() ==> self.bpb.valid_cluster(#[trigger] cs[i]),
            forall|i: int| 0 <= i < cs.len() ==> !data_touched.contains(#[trigger] cs[i]),
        ensures
            other.clusters_data(cs) == self.clusters_data(cs),
        decreases cs.len(),
    {
        if cs.len() > 0 {
            let front = cs.drop_last();
            assert forall|i: int| 0 <= i < front.len() implies self.bpb.valid_cluster(
                #[trigger] front[i],
            ) && !data_touched.contains(front[i]) by {
                assert(front[i] == cs[i]);
            }
            self.lemma_data_kept(other, front, fat_touched, data_touched);
            assert(other.cluster_data(cs.last()) == self.cluster_data(cs.last()));
        }
    }

    /// Whether the chains that begin at `a` and at `b` are chains that
    /// share no cluster.
    pub open spec fn apart(&self, a: u32, b: u32) -> bool {
        &&& self.chain(a) is Some
        &&& self.chain(b) is Some
        &&& forall|i: int, j: int|
            0 <= i < (self.chain(a)->0).len() && 0 <= j < (self.chain(b)->0).len() ==> (
            self.chain(a)->0)[i] != (self.chain(b)->0)[j]
    }

    /// When at most the table entries of the chain that begins at `freed`
    /// were touched, a chain that shares no cluster with it is the same
    /// chain with the same bytes.
    pub proof fn lemma_apart_kept(&self, other: &Self, kept: u32, freed: u32)
        requires
            self.wf(),
            self.chain(freed) is Some ==> self.same_except(
                other,
                (self.chain(freed)->0).to_set(),
                Set::empty(),
            ),
        ensures
            self.apart(kept, freed) ==> other.chain(kept) == self.chain(kept) && other.clusters_data(
                self.chain(kept)->0,
            ) == self.clusters_data(self.chain(kept)->0),
    {
        if self.apart(kept, freed) {
            let touched = (self.chain(freed)->0).to_set();
            let cs = self.chain(kept)->0;
            let fs = self.chain(freed)->0;
            assert forall|i: int| 0 <= i < cs.len() implies !touched.contains(#[trigger] cs[i]) by {
                if touched.contains(cs[i]) {
                    let j = choose|j: int| 0 <= j < fs.len() && fs[j] == cs[i];
                    assert(cs[i] != fs[j]);
                }
            }
            self.lemma_chain_kept(other, kept, CHAIN_LIMIT as nat, touched, Set::empty());
        }
    }

    /// Whether every cluster of the chain that `self` has from `start` is
    /// free in `after`.
    pub open spec fn freed(&self, after: &Self, start: u32) -> bool {
        forall|i: int|
            0 <= i < (self.chain(start)->0).len() ==> after.fat_at(
                #[trigger] (self.chain(start)->0)[i],
            ) == FAT32_FREE
    }

    /// Clusters that were freed stay free when a directory whose chain
    /// shares no cluster with theirs is written in place.
    pub proof fn lemma_freed_kept(&self, mid: &Self, after: &Self, kept: u32, freed: u32)
        requires
            self.wf(),
            mid.bpb == self.bpb,
            after.bpb == self.bpb,
            self.apart(kept, freed),
            mid.chain(kept) == self.chain(kept),
            forall|i: int|
                0 <= i < (self.chain(freed)->0).len() ==> mid.fat_at(
                    #[trigger] (self.chain(freed)->0)[i],
                ) == FAT32_FREE,
            mid.same_except(
                after,
                (mid.chain(kept)->0).to_set(),
                (mid.chain(kept)->0).to_set(),
            ) || after.device.sectors() == mid.device.sectors(),
        ensures
            forall|i: int|
                0 <= i < (self.chain(freed)->0).len() ==> after.fat_at(
                    #[trigger] (self.chain(freed)->0)[i],
                ) == FAT32_FREE,
    {
        let cs = self.chain(freed)->0;
        let held = self.chain(kept)->0;
        self.lemma_chain_props(freed, CHAIN_LIMIT as nat);
        assert forall|i: int| 0 <= i < cs.len() implies after.fat_at(#[trigger] cs[i])
            == FAT32_FREE by {
            self.lemma_valid_in_table(cs[i]);
            assert(mid.in_table(cs[i]));
            if held.to_set().contains(cs[i]) {
                let j = choose|j: int| 0 <= j < held.len() && held[j] == cs[i];
                assert(held[j] != cs[i]);
            }
            assert(mid.fat_at(cs[i]) == FAT32_FREE);
        }
    }

    /// A chain does not depend on the limit, as long as the limit admits it.
    pub proof fn lemma_chain_limit(&self, start: u32, a: nat, b: nat)
        requires
            self.chain_from(start, a) is Some,
            b >= (self.chain_from(start, a)->0).len(),
        ensures
            self.chain_from(start, b) == self.chain_from(start, a),
        decreases a,
    {
        if !is_end(start) {
            let next = self.fat_at(start);
            let rest = self.chain_from(next, (a - 1) as nat)->0;
            assert(self.chain_from(start, a)->0 =~= seq![start].add(rest));
            self.lemma_chain_limit(next, (a - 1) as nat, (b - 1) as nat);
        }
    }

    /// From any position of a chain onwards, the clusters are the chain of
    /// the cluster at that position.
    pub proof fn lemma_chain_suffix(&self, start: u32, limit: nat, i: int)
        requires
            self.chain_from(start, limit) is Some,
            0 <= i < (self.chain_from(start, limit)->0).len(),
        ensures
            ({
                let cs = self.chain_from(start, limit)->0;
                self.chain_from(cs[i], (limit - i) as nat) == Some(cs.subrange(i, cs.len() as int))
            }),
        decreases i,
    {
        let cs = self.chain_from(start, limit)->0;
        self.lemma_chain_props(start, limit);
        if i == 0 {
            assert(cs.subrange(0, cs.len() as int) =~= cs);
        } else {
            let next = self.fat_at(start);
            let rest = self.chain_from(next, (limit - 1) as nat)->0;
            assert(cs =~= seq![start].add(rest));
            self.lemma_chain_suffix(next, (limit - 1) as nat, i - 1);
            assert(rest[i - 1] == cs[i]);
            assert(rest.subrange(i - 1, rest.len() as int) =~= cs.subrange(i, cs.len() as int));
        }
    }

    /// No cluster occurs twice in a chain.
    pub proof fn lemma_chain_distinct(&self, start: u32, limit: nat)
        requires
            self.chain_from(start, limit) is Some,
        ensures
            ({
                let cs = self.chain_from(start, limit)->0;
                forall|i: int, j: int| 0 <= i < j < cs.len() ==> cs[i] != cs[j]
            }),
    {
        let cs = self.chain_from(start, limit)->0;
        self.lemma_chain_props(start, limit);
        assert forall|i: int, j: int| 0 <= i < j < cs.len() implies cs[i] != cs[j] by {
            if cs[i] == cs[j] {
                self.lemma_chain_suffix(start, limit, i);
                self.lemma_chain_suffix(start, limit, j);
                self.lemma_chain_limit(cs[j], (limit - j) as nat, (limit - i) as nat);
                assert(cs.subrange(i, cs.len() as int).len() != cs.subrange(
                    j,
                    cs.len() as int,
                ).len());
            }
        }
    }

    /// Clusters that are linked one to the next, the last of which ends
    /// the chain, are the chain of the first.
    pub proof fn lemma_chain_of_links(&self, cs: Seq<u32>, limit: nat)
        requires
            0 < cs.len() <= limit,
            forall|i: int| 0 <= i < cs.len() ==> self.bpb.valid_cluster(#[trigger] cs[i]),
            forall|i: int| 0 <= i < cs.len() ==> !is_end(#[trigger] cs[i]),
            forall|i: int| 0 <= i < cs.len() - 1 ==> #[trigger] self.fat_at(cs[i]) == cs[i + 1],
            is_end(self.fat_at(cs.last())),
        ensures
            self.chain_from(cs[0], limit) == Some(cs),
        decreases cs.len(),
    {
        if cs.len() == 1 {
            assert(self.chain_from(self.fat_at(cs[0]), (limit - 1) as nat) == Some(
                Seq::<u32>::empty(),
            ));
            assert(seq![cs[0]].add(Seq::<u32>::empty()) =~= cs);
        } else {
            let rest = cs.drop_first();
            assert forall|i: int| 0 <= i < rest.len() - 1 implies #[trigger] self.fat_at(rest[i])
                == rest[i + 1] by {
                assert(rest[i] == cs[i + 1]);
                assert(self.fat_at(cs[i + 1]) == cs[i + 2]);
            }
            assert forall|i: int| 0 <= i < rest.len() implies self.bpb.valid_cluster(
                #[trigger] rest[i],
            ) && !is_end(rest[i]) by {
                assert(rest[i] == cs[i + 1]);
            }
            assert(rest.last() == cs.last());
            self.lemma_chain_of_links(rest, (limit - 1) as nat);
            assert(self.fat_at(cs[0]) == cs[1]);
            assert(rest[0] == cs[1]);
            assert(seq![cs[0]].add(rest) =~= cs);
        }
    }

    /// The data of a run of clusters with one more cluster at its end.
    pub proof fn lemma_clusters_data_push(&self, cs: Seq<u32>, c: u32)
        ensures
            self.clusters_data(cs.push(c)) == self.clusters_data(cs).add(self.cluster_data(c)),
    {
        assert(cs.push(c).drop_last() =~= cs);
    }

    /// Reads the data of every cluster of the chain that begins at `start`.
    ///
    /// The read fails when the device fails, and when there is no chain.
    pub fn read_chain(&self, start: u32) -> (r: Result<Vec<u8>, &'static str>)
        requires
            self.wf(),
        ensures
            self.chain(start) is None ==> r is Err,
            is_end(start) ==> (r matches Ok(data) && data@.len() == 0),
            r matches Ok(data) ==> self.chain(start) is Some && data@ == self.clusters_data(
                self.chain(start)->0,
            ),
    {
        let mut data: Vec<u8> = Vec::new();
        let mut cluster: u32 = start;
        let cluster_size: usize = self.bpb.bytes_per_cluster();
        let mut buf: Vec<u8> = vec![0u8; cluster_size];
        let mut steps: u32 = 0;
        let ghost mut visited: Seq<u32> = Seq::empty();
        proof {
            assert(visited.add(self.chain(start)->0) =~= self.chain(start)->0);
        }
        while cluster >= 2 && cluster < FAT32_EOC
            invariant
                self.wf(),
                steps <= CHAIN_LIMIT,
                visited.len() == steps,
                self.chain(start) == prepend(
                    visited,
                    self.chain_from(cluster, (CHAIN_LIMIT - steps) as nat),
                ),
                data@ == self.clusters_data(visited),
                buf@.len() == cluster_size,
                cluster_size as int == self.bpb.cluster_bytes(),
                steps == 0 ==> cluster == start && data@.len() == 0,
                steps > 0 ==> !is_end(start),
            decreases CHAIN_LIMIT - steps,
        {
            if steps >= CHAIN_LIMIT {
                return Err("cluster chain too long");
            }
            match self.read_cluster(cluster, &mut buf) {
                Ok(()) => {},
                Err(e) => {
                    return Err(e);
                },
            }
            data.extend_from_slice(buf.as_slice());
            let next: u32 = match self.get_fat_entry(cluster) {
                Ok(v) => v,
                Err(e) => {
                    return Err(e);
                },
            };
            proof {
                self.lemma_clusters_data_push(visited, cluster);
                assert(buf@.subrange(0, cluster_size as int) =~= buf@);
                let rest = self.chain_from(next, (CHAIN_LIMIT - steps - 1) as nat);
                if rest is Some {
                    assert(visited.add(seq![cluster].add(rest->0)) =~= visited.push(cluster).add(
                        rest->0,
                    ));
                }
                visited = visited.push(cluster);
            }
            cluster = next;
            steps += 1;
        }
        proof {
            assert(visited.add(Seq::<u32>::empty()) =~= visited);
        }
        Ok(data)
    }

    /// Finds the last cluster of the chain that begins at `start`.
    ///
    /// The search fails when the device fails, when there is no chain, and
    /// when `start` itself is no data cluster.
    pub fn get_last_cluster(&self, start: u32) -> (r: Result<u32, &'static str>)
        requires
            self.wf(),
        ensures
            self.chain(start) is None ==> r is Err,
            !self.bpb.valid_cluster(start) ==> r is Err,
            r matches Ok(c) ==> self.chain(start) is Some && (self.chain(start)->0).len() > 0 && c
                == (self.chain(start)->0).last() && self.fat_at(c) >= FAT32_EOC,
    {
        let mut cluster: u32 = start;
        let mut steps: u32 = 0;
        let ghost mut visited: Seq<u32> = Seq::empty();
        proof {
            assert(visited.add(self.chain(start)->0) =~= self.chain(start)->0);
        }
        while steps < CHAIN_LIMIT
            invariant
                self.wf(),
                steps <= CHAIN_LIMIT,
                visited.len() == steps,
                self.chain(start) == prepend(
                    visited,
                    self.chain_from(cluster, (CHAIN_LIMIT - steps) as nat),
                ),
                steps == CHAIN_LIMIT ==> self.chain(start) is None,
            decreases CHAIN_LIMIT - steps,
        {
            if cluster >= FAT32_EOC || !self.is_valid_cluster(cluster) {
                return Err("cluster out of range");
            }
            let next: u32 = match self.get_fat_entry(cluster) {
                Ok(v) => v,
                Err(e) => {
                    return Err(e);
                },
            };
            if next >= FAT32_EOC {
                proof {
                    assert(visited.add(seq![cluster].add(Seq::<u32>::empty())) =~= visited.push(
                        cluster,
                    ));
                }
                return Ok(cluster);
            }
            if next < 2 {
                return Err("cluster out of range");
            }
            proof {
                let rest = self.chain_from(next, (CHAIN_LIMIT - steps - 1) as nat);
                if rest is Some {
                    assert(visited.add(seq![cluster].add(rest->0)) =~= visited.push(cluster).add(
                        rest->0,
                    ));
                }
                visited = visited.push(cluster);
            }
            cluster = next;
            steps += 1;
        }
        Err("cluster chain too long")
    }

    /// Finds the first free cluster, marks it as the end of a chain and
    /// fills it with zero bytes.
    ///
    /// When no cluster is free the result is an error.
    pub fn allocate_cluster(&mut self) -> (r: Result<u32, &'static str>)
        requires
            old(self).wf(),
        ensures
            final(self).bpb == old(self).bpb,
            (forall|c: u32| old(self).bpb.valid_cluster(c) ==> old(self).fat_at(c) != FAT32_FREE)
                ==> r is Err && final(self).device.sectors() == old(self).device.sectors(),
            r matches Ok(c) ==> {
                &&& old(self).lowest_free(c)
                &&& final(self).fat_at(c) == FAT32_EOC
                &&& final(self).cluster_data(c) == zeros(old(self).bpb.cluster_bytes())
                &&& old(self).same_except(final(self), set![c], set![c])
            },
    {
        let total: u32 = self.bpb.total_clusters() + 2;
        let mut cluster: u32 = 2;
        while cluster < total
            invariant
                2 <= cluster <= total,
                total == self.bpb.cluster_count() + 2,
                self.wf(),
                *self == *old(self),
                forall|b: u32|
                    self.bpb.valid_cluster(b) && b < cluster ==> self.fat_at(b) != FAT32_FREE,
            decreases total - cluster,
        {
            let entry: u32 = match self.get_fat_entry(cluster) {
                Ok(v) => v,
                Err(e) => {
                    return Err(e);
                },
            };
            if entry == FAT32_FREE {
                match self.set_fat_entry(cluster, FAT32_EOC) {
                    Ok(()) => {},
                    Err(e) => {
                        return Err(e);
                    },
                }
                let ghost mid = *self;
                match self.zero_cluster(cluster) {
                    Ok(()) => {},
                    Err(e) => {
                        return Err(e);
                    },
                }
                proof {
                    old(self).lemma_table_write(&mid);
                    mid.lemma_cluster_write(self, cluster);
                    assert(old(self).same_except(self, set![cluster], set![cluster]));
                }
                return Ok(cluster);
            }
            cluster += 1;
        }
        Err("no free clusters")
    }

    /// Allocates a cluster and links it after `last_cluster`.
    pub fn extend_chain(&mut self, last_cluster: u32) -> (r: Result<u32, &'static str>)
        requires
            old(self).wf(),
        ensures
            final(self).bpb == old(self).bpb,
            (forall|c: u32| old(self).bpb.valid_cluster(c) ==> old(self).fat_at(c) != FAT32_FREE)
                ==> r is Err,
            r matches Ok(c) ==> {
                &&& old(self).lowest_free(c)
                &&& old(self).in_table(last_cluster)
                &&& final(self).fat_at(last_cluster) == c
                &&& c != last_cluster ==> final(self).fat_at(c) == FAT32_EOC
                &&& final(self).cluster_data(c) == zeros(old(self).bpb.cluster_bytes())
                &&& old(self).same_except(final(self), set![last_cluster, c], set![c])
            },
    {
        let new_cluster: u32 = match self.allocate_cluster() {
            Ok(c) => c,
            Err(e) => {
                return Err(e);
            },
        };
        let ghost mid = *self;
        match self.set_fat_entry(last_cluster, new_cluster) {
            Ok(()) => {},
            Err(e) => {
                return Err(e);
            },
        }
        proof {
            mid.lemma_table_write(self);
            assert(old(self).same_except(self, set![last_cluster, new_cluster], set![new_cluster]));
        }
        Ok(new_cluster)
    }

    /// Marks every cluster of the chain that begins at `start` as free.
    pub fn free_chain(&mut self, start: u32) -> (r: Result<(), &'static str>)
        requires
            old(self).wf(),
        ensures
            final(self).bpb == old(self).bpb,
            is_end(start) ==> r is Ok && final(self).device.sectors() == old(self).device.sectors(),
            r is Ok ==> agree_outside(
                old(self).device.sectors(),
                final(self).device.sectors(),
                old(self).bpb.fat_start(),
                old(self).bpb.data_start(),
            ),
            r is Ok && old(self).chain(start) is Some ==> {
                let cs = old(self).chain(start)->0;
                &&& forall|i: int| 0 <= i < cs.len() ==> final(self).fat_at(#[trigger] cs[i]) == FAT32_FREE
                &&& old(self).same_except(final(self), cs.to_set(), Set::empty())
            },
    {
        let mut cluster: u32 = start;
        let mut steps: u32 = 0;
        let ghost good = old(self).chain(start) is Some;
        let ghost cs = old(self).chain(start)->0;
        proof {
            if good {
                old(self).lemma_chain_props(start, CHAIN_LIMIT as nat);
                old(self).lemma_chain_distinct(start, CHAIN_LIMIT as nat);
            }
        }
        while cluster >= 2 && cluster < FAT32_EOC
            invariant
                self.wf(),
                self.bpb == old(self).bpb,
                old(self).wf(),
                steps <= CHAIN_LIMIT,
                agree_outside(
                    old(self).device.sectors(),
                    self.device.sectors(),
                    self.bpb.fat_start(),
                    self.bpb.data_start(),
                ),
                good == (old(self).chain(start) is Some),
                good ==> cs == old(self).chain(start)->0,
                good ==> steps <= cs.len(),
                good && steps < cs.len() ==> cluster == cs[steps as int],
                good && steps == cs.len() ==> is_end(cluster),
                good ==> forall|i: int| 0 <= i < steps ==> self.fat_at(#[trigger] cs[i]) == FAT32_FREE,
                good ==> forall|c: u32|
                    self.in_table(c) && !cs.subrange(0, steps as int).contains(c)
                        ==> #[trigger] self.fat_at(c) == old(self).fat_at(c),
                good ==> forall|i: int| 0 <= i < cs.len() ==> self.bpb.valid_cluster(#[trigger] cs[i]),
                steps == 0 ==> cluster == start && self.device.sectors() == old(self).device.sectors(),
                steps > 0 ==> !is_end(start),
                good ==> forall|i: int, j: int| 0 <= i < j < cs.len() ==> cs[i] != cs[j],
                good ==> forall|i: int|
                    0 <= i < cs.len() - 1 ==> #[trigger] old(self).fat_at(cs[i]) == cs[i + 1],
                good && cs.len() > 0 ==> is_end(old(self).fat_at(cs.last())),
            decreases CHAIN_LIMIT - steps,
        {
            if steps >= CHAIN_LIMIT {
                return Err("cluster chain too long");
            }
            let next: u32 = match self.get_fat_entry(cluster) {
                Ok(v) => v,
                Err(e) => {
                    return Err(e);
                },
            };
            let ghost before = *self;
            match self.set_fat_entry(cluster, FAT32_FREE) {
                Ok(()) => {},
                Err(e) => {
                    return Err(e);
                },
            }
            proof {
                if good {
                    let done = cs.subrange(0, steps as int);
                    let done2 = cs.subrange(0, steps + 1);
                    assert(!done.contains(cluster)) by {
                        if done.contains(cluster) {
                            let k = choose|k: int| 0 <= k < done.len() && done[k] == cluster;
                            assert(cs[k] == cs[steps as int]);
                        }
                    }
                    assert(next == old(self).fat_at(cluster));
                    assert forall|c: u32|
                        self.in_table(c) && !done2.contains(c) implies #[trigger] self.fat_at(c)
                        == old(self).fat_at(c) by {
                        assert(done2[steps as int] == cluster);
                        if done.contains(c) {
                            let k = choose|k: int| 0 <= k < done.len() && done[k] == c;
                            assert(done2[k] == c);
                        }
                    }
                    assert forall|i: int| 0 <= i < steps + 1 implies self.fat_at(#[trigger] cs[i])
                        == FAT32_FREE by {
                        old(self).lemma_valid_in_table(cs[i]);
                    }
                }
            }
            cluster = next;
            steps += 1;
        }
        proof {
            if good {
                assert(steps == cs.len()) by {
                    if steps < cs.len() {
                        assert(!is_end(cs[steps as int]));
                    }
                }
                assert(cs.subrange(0, steps as int) =~= cs);
                assert forall|c: u32|
                    old(self).in_table(c) && !cs.to_set().contains(c) implies #[trigger] self.fat_at(
                    c,
                ) == old(self).fat_at(c) by {
                    assert(!cs.contains(c));
                }
                old(self).lemma_table_write(self);
            }
        }
        Ok(())
    }
}

} // verus!
