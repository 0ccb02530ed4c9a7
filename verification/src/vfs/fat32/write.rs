//! Writing data along a cluster chain, growing the chain as needed.

use vstd::prelude::*;
use crate::vfs::block::BlockDevice;
use crate::vfs::fat32::bpb::{FAT32_EOC, FAT32_FREE};
use crate::vfs::fat32::chain::{is_end, CHAIN_LIMIT};
use crate::vfs::fat32::cluster::zeros;
use crate::vfs::fat32::table::{agree_outside, Fat32Inner};

verus! {

/// The `size` bytes of `data` that begin at `offset`, with zero bytes
/// where `data` has ended.
pub open spec fn window(data: Seq<u8>, offset: int, size: int) -> Seq<u8> {
    Seq::new(
        size as nat,
        |x: int|
            if offset + x < data.len() {
                data[offset + x]
            } else {
                0u8
            },
    )
}

/// `data` followed by zero bytes up to a length of `total`.
pub open spec fn padded(data: Seq<u8>, total: int) -> Seq<u8> {
    window(data, 0, total)
}

/// Number of clusters of `size` bytes that hold `len` bytes.
pub open spec fn clusters_needed(len: int, size: int) -> int {
    if len % size == 0 {
        len / size
    } else {
        len / size + 1
    }
}

/// Fills `buf` with the bytes of `data` from `offset`, then zero bytes.
pub fn fill_window(buf: &mut Vec<u8>, data: &[u8], offset: usize)
    requires
        offset <= data@.len(),
    ensures
        final(buf)@ == window(data@, offset as int, old(buf)@.len() as int),
{
    let size: usize = buf.len();
    let len: usize = data.len();
    let mut x: usize = 0;
    while x < size
        invariant
            x <= size,
            size == buf@.len(),
            len == data@.len(),
            offset <= len,
            forall|k: int| 0 <= k < x ==> buf@[k] == window(data@, offset as int, size as int)[k],
        decreases size - x,
    {
        if x < len - offset {
            buf[x] = data[offset + x];
        } else {
            buf[x] = 0;
        }
        x += 1;
    }
    assert(buf@ =~= window(data@, offset as int, size as int));
}

impl<D: BlockDevice> Fat32Inner<D> {
    /// Clusters that hold consecutive windows of `data` hold, together,
    /// `data` padded with zero bytes.
    pub proof fn lemma_windows_join(&self, cs: Seq<u32>, data: Seq<u8>)
        requires
            self.bpb.cluster_bytes() > 0,
            forall|j: int|
                0 <= j < cs.len() ==> self.cluster_data(#[trigger] cs[j]) == window(
                    data,
                    j * self.bpb.cluster_bytes(),
                    self.bpb.cluster_bytes(),
                ),
        ensures
            self.clusters_data(cs) == padded(data, cs.len() * self.bpb.cluster_bytes()),
        decreases cs.len(),
    {
        let size = self.bpb.cluster_bytes();
        if cs.len() == 0 {
            assert(0 * size == 0) by (nonlinear_arith);
            assert(self.clusters_data(cs) =~= padded(data, 0));
        } else {
            let head = cs.drop_last();
            let n = cs.len() as int;
            assert forall|j: int| 0 <= j < head.len() implies self.cluster_data(#[trigger] head[j])
                == window(data, j * size, size) by {
                assert(head[j] == cs[j]);
            }
            self.lemma_windows_join(head, data);
            assert((n - 1) * size + size == n * size) by (nonlinear_arith);
            assert(0 <= (n - 1) * size) by (nonlinear_arith)
                requires
                    n >= 1,
                    size > 0,
            ;
            assert(self.cluster_data(cs.last()) == window(data, (n - 1) * size, size));
            assert(self.clusters_data(cs) =~= padded(data, n * size));
        }
    }

    /// Every cluster of `cs` is a data cluster of the volume.
    #[verifier::opaque]
    pub open spec fn all_valid(&self, cs: Seq<u32>) -> bool {
        forall|j: int| 0 <= j < cs.len() ==> self.bpb.valid_cluster(#[trigger] cs[j])
    }

    /// The table entry of each cluster of `cs` but the last names the next.
    #[verifier::opaque]
    pub open spec fn linked(&self, cs: Seq<u32>) -> bool {
        forall|j: int| 0 <= j < cs.len() - 1 ==> #[trigger] self.fat_at(cs[j]) == cs[j + 1]
    }

    /// Each of the first `count` clusters of `cs` holds its window of `data`.
    #[verifier::opaque]
    pub open spec fn filled(&self, data: Seq<u8>, cs: Seq<u32>, count: int) -> bool {
        forall|j: int|
            0 <= j < count && j < cs.len() ==> #[trigger] self.cluster_data(cs[j]) == window(
                data,
                j * self.bpb.cluster_bytes(),
                self.bpb.cluster_bytes(),
            )
    }

    /// Nothing outside the clusters `cs` differs between `self` and `other`.
    #[verifier::opaque]
    pub open spec fn only_touched(&self, other: &Self, cs: Seq<u32>) -> bool {
        self.same_except(other, cs.to_set(), cs.to_set())
    }

    /// Where a write along a chain stands: `visited` are the clusters of
    /// the new chain found so far, all different, each linked to the next;
    /// the first `count` of them hold their window of `data`; and nothing
    /// outside `visited` differs from `orig`.
    pub open spec fn progress(
        &self,
        orig: &Self,
        data: Seq<u8>,
        visited: Seq<u32>,
        count: int,
    ) -> bool {
        &&& self.wf()
        &&& self.bpb == orig.bpb
        &&& visited.len() > 0
        &&& visited.len() - 1 <= count <= visited.len()
        &&& self.all_valid(visited)
        &&& visited.no_duplicates()
        &&& self.linked(visited)
        &&& self.filled(data, visited, count)
        &&& orig.only_touched(self, visited)
    }

    /// The write is still on the chain that `orig` had from `start`, and
    /// no table entry has changed.
    #[verifier::opaque]
    pub open spec fn following(&self, orig: &Self, start: u32, visited: Seq<u32>) -> bool {
        &&& orig.chain(start) is Some
        &&& visited.len() <= (orig.chain(start)->0).len()
        &&& visited =~= (orig.chain(start)->0).subrange(0, visited.len() as int)
        &&& forall|c: u32| self.in_table(c) ==> #[trigger] self.fat_at(c) == orig.fat_at(c)
    }

    /// Either the last cluster found was allocated by this write and ends
    /// the chain, or the write is still on the old chain.
    pub open spec fn phase(
        &self,
        orig: &Self,
        start: u32,
        visited: Seq<u32>,
        extended: bool,
    ) -> bool {
        if extended {
            self.fat_at(visited.last()) == FAT32_EOC
        } else {
            self.following(orig, start, visited)
        }
    }

    /// Whether every cluster of `cs` was free in `self`, or was at the same
    /// place of the chain that `self` has from `start`.
    pub open spec fn kept_or_fresh(&self, start: u32, cs: Seq<u32>) -> bool {
        forall|j: int|
            0 <= j < cs.len() ==> self.fat_at(#[trigger] cs[j]) == FAT32_FREE || (start >= 2 && j < (
            self.chain(start)->0).len() && (self.chain(start)->0)[j] == cs[j])
    }

    /// Where the clusters found by a write come from: each was free in
    /// `orig` or is at the same place of the old chain; a write that has
    /// not allocated is on the old chain, and one that has is past its end.
    #[verifier::opaque]
    pub open spec fn traced(orig: &Self, start: u32, visited: Seq<u32>, extended: bool) -> bool {
        &&& orig.kept_or_fresh(start, visited)
        &&& !extended ==> start >= 2 && visited.len() <= (orig.chain(start)->0).len() && visited
            =~= (orig.chain(start)->0).subrange(0, visited.len() as int)
        &&& extended ==> start < 2 || (orig.chain(start)->0).len() < visited.len()
    }

    /// The first cluster of a write is the first of the old chain, or was
    /// free.
    pub proof fn lemma_traced_start(orig: &Self, start: u32, first: u32)
        requires
            start >= 2 ==> first == start && orig.chain(start) is Some && first < FAT32_EOC,
            start < 2 ==> orig.fat_at(first) == FAT32_FREE,
        ensures
            Self::traced(orig, start, seq![first], start < 2),
    {
        reveal(Fat32Inner::traced);
        let visited = seq![first];
        if start >= 2 {
            orig.lemma_chain_props(start, CHAIN_LIMIT as nat);
            assert(visited =~= (orig.chain(start)->0).subrange(0, 1));
        }
        assert forall|j: int| 0 <= j < visited.len() implies orig.fat_at(#[trigger] visited[j])
            == FAT32_FREE || (start >= 2 && j < (orig.chain(start)->0).len() && (orig.chain(
            start,
        )->0)[j] == visited[j]) by {
            assert(visited[0] == first);
        }
    }

    /// A chain ends at the cluster whose table entry is an end-of-chain
    /// mark.
    pub proof fn lemma_chain_ends(&self, start: u32, n: int)
        requires
            self.wf(),
            self.chain(start) is Some,
            0 < n <= (self.chain(start)->0).len(),
            self.fat_at((self.chain(start)->0)[n - 1]) >= FAT32_EOC,
        ensures
            (self.chain(start)->0).len() == n,
    {
        let cs = self.chain(start)->0;
        self.lemma_chain_props(start, CHAIN_LIMIT as nat);
        if n < cs.len() {
            assert(self.fat_at(cs[n - 1]) == cs[n]);
            assert(self.bpb.valid_cluster(cs[n]));
        }
    }

    /// A cluster that was free in `orig`, found where the old chain ends,
    /// keeps the trace.
    pub proof fn lemma_traced_extend(
        &self,
        orig: &Self,
        start: u32,
        visited: Seq<u32>,
        extended: bool,
        fresh: u32,
    )
        requires
            orig.wf(),
            self.bpb == orig.bpb,
            visited.len() > 0,
            self.bpb.valid_cluster(visited.last()),
            Self::traced(orig, start, visited, extended),
            !extended ==> self.following(orig, start, visited),
            self.fat_at(visited.last()) >= FAT32_EOC,
            orig.fat_at(fresh) == FAT32_FREE,
        ensures
            Self::traced(orig, start, visited.push(fresh), true),
    {
        let now = visited.push(fresh);
        let cs = orig.chain(start)->0;
        let n = visited.len() as int;
        assert(orig.kept_or_fresh(start, now)) by {
            reveal(Fat32Inner::traced);
            assert forall|j: int| 0 <= j < now.len() implies orig.fat_at(#[trigger] now[j])
                == FAT32_FREE || (start >= 2 && j < cs.len() && cs[j] == now[j]) by {
                if j < n {
                    assert(now[j] == visited[j]);
                } else {
                    assert(now[j] == fresh);
                }
            }
        }
        assert(start < 2 || cs.len() < now.len()) by {
            if extended {
                reveal(Fat32Inner::traced);
            } else {
                assert(orig.chain(start) is Some && n <= cs.len() && visited.last() == cs[n - 1]
                    && orig.fat_at(visited.last()) == self.fat_at(visited.last())) by {
                    reveal(Fat32Inner::following);
                    self.lemma_valid_in_table(visited.last());
                    assert(visited[n - 1] == cs.subrange(0, n)[n - 1]);
                }
                orig.lemma_chain_ends(start, n);
            }
        }
        assert(Self::traced(orig, start, now, true)) by {
            reveal(Fat32Inner::traced);
        }
    }

    /// The next cluster of the old chain keeps the trace.
    pub proof fn lemma_traced_follow(
        &self,
        orig: &Self,
        start: u32,
        visited: Seq<u32>,
        next: u32,
    )
        requires
            Self::traced(orig, start, visited, false),
            self.following(orig, start, visited.push(next)),
        ensures
            Self::traced(orig, start, visited.push(next), false),
    {
        reveal(Fat32Inner::traced);
        reveal(Fat32Inner::following);
        let now = visited.push(next);
        let cs = orig.chain(start)->0;
        assert forall|j: int| 0 <= j < now.len() implies orig.fat_at(#[trigger] now[j])
            == FAT32_FREE || (start >= 2 && j < cs.len() && cs[j] == now[j]) by {
            assert(now[j] == cs.subrange(0, now.len() as int)[j]);
        }
    }

    /// What the trace says of the chain that a write leaves.
    pub proof fn lemma_traced_done(orig: &Self, start: u32, visited: Seq<u32>, extended: bool)
        requires
            Self::traced(orig, start, visited, extended),
        ensures
            orig.kept_or_fresh(start, visited),
            start >= 2 && (orig.chain(start)->0).len() >= visited.len() ==> visited == (orig.chain(
                start,
            )->0).subrange(0, visited.len() as int),
    {
        reveal(Fat32Inner::traced);
    }

    /// After a write along the chain from `start`, which gave the chain
    /// from `first` in `after`, a chain that shared no cluster with the old
    /// chain and had no cluster marked free is as it was, with the same
    /// bytes, and shares no cluster with the new chain.
    pub proof fn lemma_written_apart(&self, after: &Self, kept: u32, start: u32, first: u32)
        requires
            self.wf(),
            self.apart(kept, start),
            self.well_ended(kept),
            after.chain(first) is Some,
            self.kept_or_fresh(start, after.chain(first)->0),
            self.same_except(
                after,
                (after.chain(first)->0).to_set(),
                (after.chain(first)->0).to_set(),
            ),
        ensures
            after.chain(kept) == self.chain(kept),
            after.clusters_data(self.chain(kept)->0) == self.clusters_data(self.chain(kept)->0),
            forall|i: int|
                0 <= i < (after.chain(first)->0).len() ==> !(self.chain(kept)->0).to_set().contains(
                    #[trigger] (after.chain(first)->0)[i],
                ),
    {
        let cs = self.chain(kept)->0;
        let written = after.chain(first)->0;
        let old_chain = self.chain(start)->0;
        assert forall|i: int, j: int| 0 <= i < cs.len() && 0 <= j < written.len() implies cs[i]
            != written[j] by {
            if cs[i] == written[j] {
                assert(self.fat_at(cs[i]) != FAT32_FREE);
                assert(old_chain[j] == written[j]);
            }
        }
        assert forall|i: int| 0 <= i < cs.len() implies !written.to_set().contains(
            #[trigger] cs[i],
        ) by {
            if written.to_set().contains(cs[i]) {
                let j = choose|j: int| 0 <= j < written.len() && written[j] == cs[i];
                assert(cs[i] != written[j]);
            }
        }
        assert forall|i: int| 0 <= i < written.len() implies !cs.to_set().contains(
            #[trigger] written[i],
        ) by {
            if cs.to_set().contains(written[i]) {
                let j = choose|j: int| 0 <= j < cs.len() && cs[j] == written[i];
                assert(cs[j] != written[i]);
            }
        }
        self.lemma_chain_kept(after, kept, CHAIN_LIMIT as nat, written.to_set(), written.to_set());
    }

    /// A cluster that was handed out from the free clusters of `before`
    /// and ends its own chain is left alone when a directory whose chain
    /// did not hold it in `before` is written: in `after` it is still a
    /// chain of its own with the same bytes.
    pub proof fn lemma_new_cluster_kept(&self, before: &Self, after: &Self, dir: u32, fresh: u32)
        requires
            self.wf(),
            before.wf(),
            before.bpb == self.bpb,
            before.lowest_free(fresh),
            !(before.chain(dir)->0).contains(fresh),
            before.chain(dir) is Some,
            self.chain(dir) == before.chain(dir),
            self.fat_at(fresh) == FAT32_EOC,
            after.chain(dir) is Some,
            self.kept_or_fresh(dir, after.chain(dir)->0),
            self.same_except(
                after,
                (after.chain(dir)->0).to_set(),
                (after.chain(dir)->0).to_set(),
            ),
        ensures
            after.chain(fresh) == Some(seq![fresh]),
            after.clusters_data(seq![fresh]) == self.cluster_data(fresh),
    {
        let written = after.chain(dir)->0;
        let old_chain = before.chain(dir)->0;
        assert(!written.to_set().contains(fresh)) by {
            if written.to_set().contains(fresh) {
                let j = choose|j: int| 0 <= j < written.len() && written[j] == fresh;
                assert(self.fat_at(written[j]) != FAT32_FREE);
                assert(old_chain[j] == fresh);
                assert(old_chain.contains(fresh));
            }
        }
        self.lemma_valid_in_table(fresh);
        assert(after.fat_at(fresh) == FAT32_EOC);
        assert(after.cluster_data(fresh) == self.cluster_data(fresh));
        assert(after.chain_from(FAT32_EOC, (CHAIN_LIMIT - 1) as nat) == Some(
            Seq::<u32>::empty(),
        ));
        assert(seq![fresh].add(Seq::<u32>::empty()) =~= seq![fresh]);
        assert(after.chain(fresh) == Some(seq![fresh]));
        assert(seq![fresh].drop_last() =~= Seq::<u32>::empty());
        assert(after.clusters_data(Seq::<u32>::empty()) =~= Seq::<u8>::empty());
        assert(after.clusters_data(seq![fresh]) =~= after.cluster_data(fresh));
    }

    /// Differences add up: what holds from `self` to `mid` and from `mid`
    /// to `other` holds from `self` to `other` with the touched sets joined.
    pub proof fn lemma_same_except_join(
        &self,
        mid: &Self,
        other: &Self,
        f1: Set<u32>,
        d1: Set<u32>,
        f2: Set<u32>,
        d2: Set<u32>,
        f: Set<u32>,
        d: Set<u32>,
    )
        requires
            self.same_except(mid, f1, d1),
            mid.same_except(other, f2, d2),
            forall|c: u32| f1.contains(c) || f2.contains(c) ==> f.contains(c),
            forall|c: u32| d1.contains(c) || d2.contains(c) ==> d.contains(c),
        ensures
            self.same_except(other, f, d),
    {
        assert forall|c: u32| self.in_table(c) && !f.contains(c) implies #[trigger] other.fat_at(
            c,
        ) == self.fat_at(c) by {
            assert(mid.fat_at(c) == self.fat_at(c));
        }
        assert forall|c: u32|
            self.bpb.valid_cluster(c) && !d.contains(c) implies #[trigger] other.cluster_data(c)
            == self.cluster_data(c) by {
            assert(mid.cluster_data(c) == self.cluster_data(c));
        }
    }

    /// Filling the last cluster found keeps the progress.
    pub proof fn lemma_progress_write(
        &self,
        after: &Self,
        orig: &Self,
        data: Seq<u8>,
        visited: Seq<u32>,
    )
        requires
            self.progress(orig, data, visited, visited.len() - 1),
            after.bpb == self.bpb,
            agree_outside(
                self.device.sectors(),
                after.device.sectors(),
                self.bpb.sector_of(visited.last() as int),
                self.bpb.sector_of(visited.last() as int) + self.bpb.sectors_per_cluster,
            ),
            after.cluster_data(visited.last()) == window(
                data,
                (visited.len() - 1) * self.bpb.cluster_bytes(),
                self.bpb.cluster_bytes(),
            ),
        ensures
            after.progress(orig, data, visited, visited.len() as int),
            forall|c: u32| self.in_table(c) ==> #[trigger] after.fat_at(c) == self.fat_at(c),
            self.bpb.valid_cluster(visited.last()),
    {
        let last = visited.last();
        let n = visited.len() as int;
        assert(self.bpb.valid_cluster(last)) by {
            reveal(Fat32Inner::all_valid);
            assert(visited[n - 1] == last);
        }
        self.lemma_cluster_write(after, last);
        assert(after.all_valid(visited)) by {
            reveal(Fat32Inner::all_valid);
        }
        assert(after.linked(visited)) by {
            reveal(Fat32Inner::all_valid);
            reveal(Fat32Inner::linked);
            assert forall|j: int| 0 <= j < n - 1 implies #[trigger] after.fat_at(visited[j])
                == visited[j + 1] by {
                self.lemma_valid_in_table(visited[j]);
                assert(self.fat_at(visited[j]) == visited[j + 1]);
            }
        }
        assert(after.filled(data, visited, n)) by {
            reveal(Fat32Inner::all_valid);
            reveal(Fat32Inner::filled);
            assert forall|j: int| 0 <= j < n implies #[trigger] after.cluster_data(visited[j])
                == window(data, j * self.bpb.cluster_bytes(), self.bpb.cluster_bytes()) by {
                if j < n - 1 {
                    assert(visited[j] != visited[n - 1]);
                    assert(!set![last].contains(visited[j]));
                    assert(self.cluster_data(visited[j]) == window(
                        data,
                        j * self.bpb.cluster_bytes(),
                        self.bpb.cluster_bytes(),
                    ));
                }
            }
        }
        assert(orig.only_touched(after, visited)) by {
            reveal(Fat32Inner::only_touched);
            assert(visited.contains(visited[n - 1]));
            orig.lemma_same_except_join(
                self,
                after,
                visited.to_set(),
                visited.to_set(),
                Set::empty(),
                set![last],
                visited.to_set(),
                visited.to_set(),
            );
        }
    }

    /// Linking a freshly allocated cluster after the last one keeps the progress.
    pub proof fn lemma_progress_extend(
        &self,
        after: &Self,
        orig: &Self,
        data: Seq<u8>,
        visited: Seq<u32>,
        fresh: u32,
    )
        requires
            self.progress(orig, data, visited, visited.len() as int),
            self.fat_at(visited.last()) != FAT32_FREE,
            self.bpb.valid_cluster(fresh),
            self.fat_at(fresh) == FAT32_FREE,
            after.fat_at(visited.last()) == fresh,
            fresh != visited.last() ==> after.fat_at(fresh) == FAT32_EOC,
            self.same_except(after, set![visited.last(), fresh], set![fresh]),
        ensures
            after.progress(orig, data, visited.push(fresh), visited.len() as int),
            after.fat_at(fresh) == FAT32_EOC,
            orig.fat_at(fresh) == FAT32_FREE,
    {
        let last = visited.last();
        let n = visited.len() as int;
        let now = visited.push(fresh);
        assert(!visited.contains(fresh)) by {
            reveal(Fat32Inner::all_valid);
            reveal(Fat32Inner::linked);
            if visited.contains(fresh) {
                let k = choose|k: int| 0 <= k < visited.len() && visited[k] == fresh;
                if k < n - 1 {
                    assert(self.fat_at(visited[k]) == visited[k + 1]);
                    assert(self.bpb.valid_cluster(visited[k + 1]));
                } else {
                    assert(visited[k] == last);
                }
            }
        }
        assert(fresh != last) by {
            assert(visited.contains(visited[n - 1]));
        }
        assert(orig.fat_at(fresh) == FAT32_FREE) by {
            reveal(Fat32Inner::only_touched);
            self.lemma_valid_in_table(fresh);
            assert(!visited.to_set().contains(fresh));
        }
        assert(after.all_valid(now)) by {
            reveal(Fat32Inner::all_valid);
            assert forall|j: int| 0 <= j < now.len() implies after.bpb.valid_cluster(
                #[trigger] now[j],
            ) by {
                if j < n {
                    assert(now[j] == visited[j]);
                }
            }
        }
        assert(now.no_duplicates()) by {
            assert forall|j: int, k: int| 0 <= j < now.len() && 0 <= k < now.len() && j
                != k implies now[j] != now[k] by {
                if j < n && k < n {
                    assert(visited[j] != visited[k]);
                } else if j < n {
                    assert(visited.contains(visited[j]));
                } else if k < n {
                    assert(visited.contains(visited[k]));
                }
            }
        }
        assert(after.linked(now)) by {
            reveal(Fat32Inner::all_valid);
            reveal(Fat32Inner::linked);
            assert forall|j: int| 0 <= j < now.len() - 1 implies #[trigger] after.fat_at(now[j])
                == now[j + 1] by {
                assert(now[j] == visited[j]);
                self.lemma_valid_in_table(visited[j]);
                assert(visited.contains(visited[j]));
                if j < n - 1 {
                    assert(now[j + 1] == visited[j + 1]);
                    assert(visited[j] != visited[n - 1]);
                    assert(!set![last, fresh].contains(visited[j]));
                    assert(self.fat_at(visited[j]) == visited[j + 1]);
                }
            }
        }
        assert(after.filled(data, now, n)) by {
            reveal(Fat32Inner::all_valid);
            reveal(Fat32Inner::filled);
            assert forall|j: int| 0 <= j < n implies #[trigger] after.cluster_data(now[j])
                == window(data, j * self.bpb.cluster_bytes(), self.bpb.cluster_bytes()) by {
                assert(now[j] == visited[j]);
                assert(visited.contains(visited[j]));
                assert(!set![fresh].contains(visited[j]));
                assert(self.cluster_data(visited[j]) == window(
                    data,
                    j * self.bpb.cluster_bytes(),
                    self.bpb.cluster_bytes(),
                ));
            }
        }
        assert(orig.only_touched(after, now)) by {
            reveal(Fat32Inner::only_touched);
            assert(visited.contains(visited[n - 1]));
            assert forall|c: u32| visited.to_set().contains(c) || set![last, fresh].contains(
                c,
            ) implies now.to_set().contains(c) by {
                if c == fresh {
                    assert(now[n] == fresh);
                } else {
                    let k = choose|k: int| 0 <= k < visited.len() && visited[k] == c;
                    assert(now[k] == c);
                }
            }
            orig.lemma_same_except_join(
                self,
                after,
                visited.to_set(),
                visited.to_set(),
                set![last, fresh],
                set![fresh],
                now.to_set(),
                now.to_set(),
            );
        }
    }

    /// Moving on to the next cluster of the old chain keeps the progress.
    pub proof fn lemma_progress_follow(
        &self,
        orig: &Self,
        start: u32,
        data: Seq<u8>,
        visited: Seq<u32>,
        next: u32,
    )
        requires
            self.progress(orig, data, visited, visited.len() as int),
            self.following(orig, start, visited),
            next == self.fat_at(visited.last()),
            next < FAT32_EOC,
            self.bpb.valid_cluster(next),
        ensures
            self.progress(orig, data, visited.push(next), visited.len() as int),
            self.following(orig, start, visited.push(next)),
    {
        let cs = orig.chain(start)->0;
        let n = visited.len() as int;
        let now = visited.push(next);
        assert(orig.chain(start) is Some) by {
            reveal(Fat32Inner::following);
        }
        assert(n < cs.len() && now =~= cs.subrange(0, n + 1)) by {
            reveal(Fat32Inner::following);
            reveal(Fat32Inner::all_valid);
            orig.lemma_chain_props(start, CHAIN_LIMIT as nat);
            assert(visited[n - 1] == cs[n - 1]);
            self.lemma_valid_in_table(visited[n - 1]);
            assert(self.fat_at(cs[n - 1]) == orig.fat_at(cs[n - 1]));
            if n >= cs.len() {
                assert(cs.last() == cs[n - 1]);
            } else {
                assert(orig.fat_at(cs[n - 1]) == cs[n]);
            }
        }
        assert(self.following(orig, start, now)) by {
            reveal(Fat32Inner::following);
        }
        assert(self.all_valid(now)) by {
            reveal(Fat32Inner::all_valid);
            orig.lemma_chain_props(start, CHAIN_LIMIT as nat);
            assert forall|j: int| 0 <= j < now.len() implies self.bpb.valid_cluster(
                #[trigger] now[j],
            ) by {
                assert(now[j] == cs[j]);
            }
        }
        assert(now.no_duplicates()) by {
            orig.lemma_chain_distinct(start, CHAIN_LIMIT as nat);
            assert forall|j: int, k: int| 0 <= j < now.len() && 0 <= k < now.len() && j
                != k implies now[j] != now[k] by {
                assert(now[j] == cs[j]);
                assert(now[k] == cs[k]);
                if j < k {
                    assert(cs[j] != cs[k]);
                } else {
                    assert(cs[k] != cs[j]);
                }
            }
        }
        assert(self.linked(now)) by {
            reveal(Fat32Inner::linked);
            reveal(Fat32Inner::following);
            orig.lemma_chain_props(start, CHAIN_LIMIT as nat);
            assert forall|j: int| 0 <= j < now.len() - 1 implies #[trigger] self.fat_at(now[j])
                == now[j + 1] by {
                assert(now[j] == cs[j]);
                assert(now[j + 1] == cs[j + 1]);
                orig.lemma_valid_in_table(cs[j]);
                assert(orig.fat_at(cs[j]) == cs[j + 1]);
            }
        }
        assert(self.filled(data, now, n)) by {
            reveal(Fat32Inner::filled);
            assert forall|j: int| 0 <= j < n implies #[trigger] self.cluster_data(now[j])
                == window(data, j * self.bpb.cluster_bytes(), self.bpb.cluster_bytes()) by {
                assert(now[j] == visited[j]);
                assert(self.cluster_data(visited[j]) == window(
                    data,
                    j * self.bpb.cluster_bytes(),
                    self.bpb.cluster_bytes(),
                ));
            }
        }
        assert(orig.only_touched(self, now)) by {
            reveal(Fat32Inner::only_touched);
            assert forall|c: u32| visited.to_set().contains(c) implies now.to_set().contains(c) by {
                let k = choose|k: int| 0 <= k < visited.len() && visited[k] == c;
                assert(now[k] == c);
            }
            orig.lemma_same_except_join(
                self,
                self,
                visited.to_set(),
                visited.to_set(),
                Set::empty(),
                Set::empty(),
                now.to_set(),
                now.to_set(),
            );
        }
    }

    /// Ending the chain after the last cluster, once every cluster found
    /// is filled, leaves the chain that holds the data.
    pub proof fn lemma_progress_done(
        &self,
        after: &Self,
        orig: &Self,
        data: Seq<u8>,
        visited: Seq<u32>,
    )
        requires
            self.progress(orig, data, visited, visited.len() as int),
            visited.len() <= CHAIN_LIMIT,
            after.bpb == self.bpb,
            agree_outside(
                self.device.sectors(),
                after.device.sectors(),
                self.bpb.fat_start(),
                self.bpb.data_start(),
            ),
            forall|c: u32|
                self.in_table(c) ==> #[trigger] after.fat_at(c) == if c == visited.last() {
                    FAT32_EOC
                } else {
                    self.fat_at(c)
                },
        ensures
            after.chain(visited[0]) == Some(visited),
            after.clusters_data(visited) == padded(
                data,
                visited.len() * self.bpb.cluster_bytes(),
            ),
            orig.same_except(after, visited.to_set(), visited.to_set()),
    {
        let size = self.bpb.cluster_bytes();
        let n = visited.len() as int;
        let last = visited.last();
        self.lemma_table_write(after);
        assert(after.chain(visited[0]) == Some(visited)) by {
            reveal(Fat32Inner::all_valid);
            reveal(Fat32Inner::linked);
            assert forall|j: int| 0 <= j < n - 1 implies #[trigger] after.fat_at(visited[j])
                == visited[j + 1] by {
                self.lemma_valid_in_table(visited[j]);
                assert(visited[j] != visited[n - 1]);
                assert(self.fat_at(visited[j]) == visited[j + 1]);
            }
            assert forall|j: int| 0 <= j < n implies !is_end(#[trigger] visited[j])
                && after.bpb.valid_cluster(visited[j]) by {}
            self.lemma_valid_in_table(visited[n - 1]);
            after.lemma_chain_of_links(visited, CHAIN_LIMIT as nat);
        }
        assert(after.clusters_data(visited) == padded(data, n * size)) by {
            reveal(Fat32Inner::all_valid);
            reveal(Fat32Inner::filled);
            assert forall|j: int| 0 <= j < n implies after.cluster_data(#[trigger] visited[j])
                == window(data, j * size, size) by {
                assert(self.cluster_data(visited[j]) == window(data, j * size, size));
            }
            after.lemma_windows_join(visited, data);
        }
        assert(orig.same_except(after, visited.to_set(), visited.to_set())) by {
            reveal(Fat32Inner::only_touched);
            reveal(Fat32Inner::all_valid);
            assert(visited.contains(visited[n - 1]));
            assert(self.same_except(after, set![last], Set::empty()));
            orig.lemma_same_except_join(
                self,
                after,
                visited.to_set(),
                visited.to_set(),
                set![last],
                Set::empty(),
                visited.to_set(),
                visited.to_set(),
            );
        }
    }

    /// A single cluster, not yet filled, is where every write begins.
    pub proof fn lemma_progress_start(&self, orig: &Self, start: u32, data: Seq<u8>, first: u32)
        requires
            self.wf(),
            self.bpb == orig.bpb,
            self.bpb.valid_cluster(first),
            orig.same_except(self, set![first], set![first]),
            start >= 2 ==> first == start && orig.chain(start) is Some && first < FAT32_EOC
                && forall|c: u32| self.in_table(c) ==> #[trigger] self.fat_at(c) == orig.fat_at(c),
        ensures
            self.progress(orig, data, seq![first], 0),
            start >= 2 ==> self.following(orig, start, seq![first]),
    {
        let visited = seq![first];
        assert(self.all_valid(visited)) by {
            reveal(Fat32Inner::all_valid);
        }
        assert(self.linked(visited)) by {
            reveal(Fat32Inner::linked);
        }
        assert(self.filled(data, visited, 0)) by {
            reveal(Fat32Inner::filled);
        }
        assert(orig.only_touched(self, visited)) by {
            reveal(Fat32Inner::only_touched);
            assert(visited[0] == first);
            assert(visited.contains(first));
            orig.lemma_same_except_join(
                self,
                self,
                set![first],
                set![first],
                Set::empty(),
                Set::empty(),
                visited.to_set(),
                visited.to_set(),
            );
        }
        if start >= 2 {
            reveal(Fat32Inner::following);
            orig.lemma_chain_props(start, CHAIN_LIMIT as nat);
            assert(visited =~= (orig.chain(start)->0).subrange(0, 1));
        }
    }

    /// A chain whose clusters are all filled, and whose last table entry
    /// ends it, holds the data padded to whole clusters.
    pub proof fn lemma_progress_chain(&self, orig: &Self, data: Seq<u8>, visited: Seq<u32>)
        requires
            self.progress(orig, data, visited, visited.len() as int),
            visited.len() <= CHAIN_LIMIT,
            is_end(self.fat_at(visited.last())),
        ensures
            self.chain(visited[0]) == Some(visited),
            self.clusters_data(visited) == padded(
                data,
                visited.len() * self.bpb.cluster_bytes(),
            ),
            orig.same_except(self, visited.to_set(), visited.to_set()),
    {
        let size = self.bpb.cluster_bytes();
        let n = visited.len() as int;
        assert(self.chain(visited[0]) == Some(visited)) by {
            reveal(Fat32Inner::all_valid);
            reveal(Fat32Inner::linked);
            assert forall|j: int| 0 <= j < n implies !is_end(#[trigger] visited[j])
                && self.bpb.valid_cluster(visited[j]) by {}
            self.lemma_chain_of_links(visited, CHAIN_LIMIT as nat);
        }
        assert(self.clusters_data(visited) == padded(data, n * size)) by {
            reveal(Fat32Inner::filled);
            assert forall|j: int| 0 <= j < n implies self.cluster_data(#[trigger] visited[j])
                == window(data, j * size, size) by {}
            self.lemma_windows_join(visited, data);
        }
        assert(orig.same_except(self, visited.to_set(), visited.to_set())) by {
            reveal(Fat32Inner::only_touched);
        }
    }

    /// A last cluster that holds only zero bytes holds its window of no data.
    pub proof fn lemma_progress_zero(&self, orig: &Self, visited: Seq<u32>)
        requires
            self.progress(orig, Seq::<u8>::empty(), visited, visited.len() - 1),
            self.cluster_data(visited.last()) == zeros(self.bpb.cluster_bytes()),
        ensures
            self.progress(orig, Seq::<u8>::empty(), visited, visited.len() as int),
    {
        let size = self.bpb.cluster_bytes();
        let n = visited.len() as int;
        assert(self.filled(Seq::<u8>::empty(), visited, n)) by {
            reveal(Fat32Inner::filled);
            assert forall|j: int| 0 <= j < n implies #[trigger] self.cluster_data(visited[j])
                == window(Seq::<u8>::empty(), j * size, size) by {
                if j == n - 1 {
                    assert(zeros(size) =~= window(Seq::<u8>::empty(), j * size, size));
                }
            }
        }
    }

    /// Allocates `count` clusters and links them into a chain. The result
    /// is the first cluster, or 0 when `count` is 0.
    pub fn allocate_chain(&mut self, count: usize) -> (r: Result<u32, &'static str>)
        requires
            old(self).wf(),
        ensures
            final(self).bpb == old(self).bpb,
            count == 0 ==> r == Ok::<u32, &'static str>(0)
                && final(self).device.sectors() == old(self).device.sectors(),
            r matches Ok(first) ==> (count > 0 ==> {
                &&& final(self).chain(first) is Some
                &&& (final(self).chain(first)->0).len() == count
                &&& final(self).clusters_data(final(self).chain(first)->0) == zeros(
                    count * old(self).bpb.cluster_bytes(),
                )
                &&& old(self).same_except(
                    final(self),
                    (final(self).chain(first)->0).to_set(),
                    (final(self).chain(first)->0).to_set(),
                )
            }),
    {
        if count == 0 {
            return Ok(0);
        }
        if count > CHAIN_LIMIT as usize {
            return Err("no free clusters");
        }
        let ghost orig = &*old(self);
        let ghost none = Seq::<u8>::empty();
        let first: u32 = match self.allocate_cluster() {
            Ok(c) => c,
            Err(e) => {
                return Err(e);
            },
        };
        let mut prev: u32 = first;
        let mut made: usize = 1;
        let ghost mut visited: Seq<u32> = seq![first];
        proof {
            self.lemma_progress_start(orig, 0, none, first);
            self.lemma_progress_zero(orig, visited);
        }
        while made < count
            invariant
                self.wf(),
                self.bpb == orig.bpb,
                *orig == *old(self),
                none == Seq::<u8>::empty(),
                1 <= made <= count,
                count <= CHAIN_LIMIT,
                visited.len() == made,
                visited[0] == first,
                visited.last() == prev,
                self.progress(orig, none, visited, made as int),
                self.fat_at(prev) == FAT32_EOC,
            decreases count - made,
        {
            let ghost before = *self;
            let next: u32 = match self.extend_chain(prev) {
                Ok(c) => c,
                Err(e) => {
                    return Err(e);
                },
            };
            proof {
                before.lemma_progress_extend(self, orig, none, visited, next);
                visited = visited.push(next);
                self.lemma_progress_zero(orig, visited);
            }
            prev = next;
            made += 1;
        }
        proof {
            self.lemma_progress_chain(orig, none, visited);
            assert(padded(none, count * self.bpb.cluster_bytes()) =~= zeros(
                count * self.bpb.cluster_bytes(),
            ));
        }
        Ok(first)
    }

    /// Reading back a chain that was written gives the data written,
    /// followed by the padding of the last cluster: cut to the length of
    /// the data, what is read is what was written.
    pub proof fn lemma_write_then_read(&self, first: u32, data: Seq<u8>, read: Seq<u8>)
        requires
            self.bpb.cluster_bytes() > 0,
            self.chain(first) is Some,
            self.clusters_data(self.chain(first)->0) == padded(
                data,
                clusters_needed(data.len() as int, self.bpb.cluster_bytes())
                    * self.bpb.cluster_bytes(),
            ),
            read == self.clusters_data(self.chain(first)->0),
        ensures
            read.len() >= data.len(),
            read.subrange(0, data.len() as int) == data,
    {
        let size = self.bpb.cluster_bytes();
        let len = data.len() as int;
        let n = clusters_needed(len, size);
        assert(n * size >= len) by (nonlinear_arith)
            requires
                size > 0,
                len >= 0,
                n == if len % size == 0 {
                    len / size
                } else {
                    len / size + 1
                },
        ;
        assert(read.subrange(0, len) =~= data);
    }

    /// Fills `cluster`, the last cluster found, with the window of `data`
    /// at `offset`.
    fn write_window(
        &mut self,
        cluster: u32,
        data: &[u8],
        offset: usize,
        buf: &mut Vec<u8>,
        Ghost(orig): Ghost<&Self>,
        Ghost(visited): Ghost<Seq<u32>>,
        Ghost(g): Ghost<bool>,
    ) -> (r: Result<(), &'static str>)
        requires
            old(self).wf(),
            old(buf)@.len() == old(self).bpb.cluster_bytes(),
            offset < data@.len(),
            visited.len() > 0,
            offset == (visited.len() - 1) * old(self).bpb.cluster_bytes(),
            visited.last() == cluster,
            g ==> old(self).progress(orig, data@, visited, visited.len() - 1),
        ensures
            final(self).bpb == old(self).bpb,
            final(buf)@.len() == old(buf)@.len(),
            r is Ok ==> (g ==> final(self).progress(orig, data@, visited, visited.len() as int)),
            r is Ok ==> (g ==> forall|c: u32|
                old(self).in_table(c) ==> #[trigger] final(self).fat_at(c) == old(self).fat_at(c)),
            r is Ok ==> old(self).bpb.valid_cluster(cluster),
    {
        fill_window(buf, data, offset);
        match self.write_cluster(cluster, buf.as_slice()) {
            Ok(()) => {},
            Err(e) => {
                return Err(e);
            },
        }
        proof {
            assert(buf@.subrange(0, self.bpb.cluster_bytes()) =~= buf@);
            if g {
                old(self).lemma_progress_write(self, orig, data@, visited);
            }
        }
        Ok(())
    }

    /// Finds the cluster that follows `cluster`, the last cluster found:
    /// the next cluster of the old chain, or a freshly allocated one where
    /// the old chain ends.
    fn next_cluster(
        &mut self,
        cluster: u32,
        Ghost(orig): Ghost<&Self>,
        Ghost(start): Ghost<u32>,
        Ghost(data): Ghost<Seq<u8>>,
        Ghost(visited): Ghost<Seq<u32>>,
        Ghost(extended): Ghost<bool>,
        Ghost(g): Ghost<bool>,
    ) -> (r: Result<(u32, Ghost<bool>), &'static str>)
        requires
            old(self).wf(),
            old(self).bpb.valid_cluster(cluster),
            visited.len() > 0,
            visited.last() == cluster,
            g ==> old(self).progress(orig, data, visited, visited.len() as int),
            g ==> old(self).phase(orig, start, visited, extended),
            g ==> Self::traced(orig, start, visited, extended),
        ensures
            final(self).bpb == old(self).bpb,
            r matches Ok(pair) ==> (g ==> final(self).progress(
                orig,
                data,
                visited.push(pair.0),
                visited.len() as int,
            ) && final(self).phase(orig, start, visited.push(pair.0), pair.1@)),
            r matches Ok(pair) ==> (g ==> Self::traced(orig, start, visited.push(pair.0), pair.1@)),
    {
        let next: u32 = match self.get_fat_entry(cluster) {
            Ok(v) => v,
            Err(e) => {
                return Err(e);
            },
        };
        if next >= FAT32_EOC {
            let fresh: u32 = match self.extend_chain(cluster) {
                Ok(c) => c,
                Err(e) => {
                    return Err(e);
                },
            };
            proof {
                if g {
                    old(self).lemma_progress_extend(self, orig, data, visited, fresh);
                    assert(visited.push(fresh).last() == fresh);
                    old(self).lemma_traced_extend(orig, start, visited, extended, fresh);
                }
            }
            Ok((fresh, Ghost(true)))
        } else {
            if !self.is_valid_cluster(next) {
                return Err("cluster out of range");
            }
            proof {
                if g {
                    assert(!extended);
                    self.lemma_progress_follow(orig, start, data, visited, next);
                    self.lemma_traced_follow(orig, start, visited, next);
                }
            }
            Ok((next, Ghost(false)))
        }
    }

    /// Writes `data` along the chain that begins at `start`, one cluster
    /// after the other, allocating clusters where the chain ends too early,
    /// and ends the chain after the last cluster written. With `start`
    /// below 2 a first cluster is allocated. The result is the first
    /// cluster of the chain.
    ///
    /// With no data nothing is written and `start` is the result. Clusters
    /// of a longer old chain that are no longer needed stay allocated.
    ///
    /// When the old chain was a chain, the chain of the result holds
    /// `data`, padded with zero bytes to whole clusters, and nothing
    /// outside that chain has changed.
    pub fn write_chain(&mut self, start: u32, data: &[u8]) -> (r: Result<u32, &'static str>)
        requires
            old(self).wf(),
        ensures
            final(self).bpb == old(self).bpb,
            data@.len() == 0 ==> r == Ok::<u32, &'static str>(start)
                && final(self).device.sectors() == old(self).device.sectors(),
            r matches Ok(first) ==> (data@.len() > 0 && (start < 2 || old(self).chain(start) is Some)
                ==> {
                let size = old(self).bpb.cluster_bytes();
                let needed = clusters_needed(data@.len() as int, size);
                &&& start >= 2 ==> first == start
                &&& final(self).chain(first) is Some
                &&& (final(self).chain(first)->0).len() == needed
                &&& final(self).clusters_data(final(self).chain(first)->0) == padded(
                    data@,
                    needed * size,
                )
                &&& old(self).same_except(
                    final(self),
                    (final(self).chain(first)->0).to_set(),
                    (final(self).chain(first)->0).to_set(),
                )
                &&& final(self).fat_at((final(self).chain(first)->0).last()) == FAT32_EOC
                &&& old(self).kept_or_fresh(start, final(self).chain(first)->0)
                &&& start >= 2 && (old(self).chain(start)->0).len() >= needed
                    ==> final(self).chain(first)->0 == (old(self).chain(start)->0).subrange(0, needed)
            }),
    {
        let cluster_size: usize = self.bpb.bytes_per_cluster();
        let len: usize = data.len();
        if len == 0 {
            return Ok(start);
        }
        assert(len / cluster_size < len) by (nonlinear_arith)
            requires
                cluster_size >= 2,
                len >= 1,
        ;
        let needed: usize = if len % cluster_size == 0 {
            len / cluster_size
        } else {
            len / cluster_size + 1
        };
        if needed > CHAIN_LIMIT as usize {
            return Err("data too large");
        }
        let ghost g = start < 2 || old(self).chain(start) is Some;
        let ghost size = cluster_size as int;
        let ghost orig = &*old(self);
        assert(needed >= 1) by (nonlinear_arith)
            requires
                len >= 1,
                cluster_size >= 1,
                needed as int == if len as int % cluster_size as int == 0 {
                    len as int / cluster_size as int
                } else {
                    len as int / cluster_size as int + 1
                },
        ;
        proof {
            lemma_needed(len as int, size, 0);
        }
        let first: u32 = if start < 2 {
            match self.allocate_cluster() {
                Ok(c) => c,
                Err(e) => {
                    return Err(e);
                },
            }
        } else {
            start
        };
        if first >= FAT32_EOC || !self.is_valid_cluster(first) {
            return Err("cluster out of range");
        }
        let mut cluster: u32 = first;
        let mut buf: Vec<u8> = vec![0u8; cluster_size];
        let mut i: usize = 0;
        let mut offset: usize = 0;
        let ghost mut visited: Seq<u32> = seq![first];
        let ghost mut extended: bool = start < 2;
        proof {
            assert(0 * size == 0) by (nonlinear_arith);
            if g {
                self.lemma_progress_start(orig, start, data@, first);
                Self::lemma_traced_start(orig, start, first);
            }
        }
        while i + 1 < needed
            invariant
                self.wf(),
                self.bpb == orig.bpb,
                *orig == *old(self),
                size == cluster_size,
                size == self.bpb.cluster_bytes(),
                len == data@.len(),
                len > 0,
                needed == clusters_needed(len as int, size),
                needed <= CHAIN_LIMIT,
                buf@.len() == cluster_size,
                i < needed,
                offset == i * size,
                offset < len,
                visited.len() == i + 1,
                visited[0] == first,
                visited.last() == cluster,
                g ==> self.progress(orig, data@, visited, i as int),
                g ==> self.phase(orig, start, visited, extended),
                g ==> Self::traced(orig, start, visited, extended),
            decreases needed - i,
        {
            match self.write_window(cluster, data, offset, &mut buf, Ghost(orig), Ghost(visited), Ghost(g)) {
                Ok(()) => {},
                Err(e) => {
                    return Err(e);
                },
            }
            let ghost written = *self;
            proof {
                if g && extended {
                    assert(self.fat_at(visited.last()) == FAT32_EOC) by {
                        orig.lemma_valid_in_table(cluster);
                    }
                }
                if g && !extended {
                    assert(self.following(orig, start, visited)) by {
                        reveal(Fat32Inner::following);
                    }
                }
            }
            let next = match self.next_cluster(
                cluster,
                Ghost(orig),
                Ghost(start),
                Ghost(data@),
                Ghost(visited),
                Ghost(extended),
                Ghost(g),
            ) {
                Ok(pair) => {
                    proof {
                        extended = pair.1@;
                    }
                    pair.0
                },
                Err(e) => {
                    return Err(e);
                },
            };
            proof {
                visited = visited.push(next);
                lemma_needed(len as int, size, i as int);
                lemma_needed(len as int, size, i + 1);
            }
            cluster = next;
            offset = offset + cluster_size;
            i += 1;
        }
        match self.write_window(cluster, data, offset, &mut buf, Ghost(orig), Ghost(visited), Ghost(g)) {
            Ok(()) => {},
            Err(e) => {
                return Err(e);
            },
        }
        let ghost written = *self;
        match self.set_fat_entry(cluster, FAT32_EOC) {
            Ok(()) => {},
            Err(e) => {
                return Err(e);
            },
        }
        proof {
            if g {
                written.lemma_progress_done(self, orig, data@, visited);
                Self::lemma_traced_done(orig, start, visited, extended);
                written.lemma_valid_in_table(cluster);
                assert(self.fat_at(cluster) == FAT32_EOC);
            }
        }
        Ok(first)
    }
}

/// With `size` bytes per cluster, cluster number `i` of the clusters
/// needed for `len` bytes begins inside the data.
pub proof fn lemma_needed(len: int, size: int, i: int)
    requires
        size > 0,
        len > 0,
        0 <= i < clusters_needed(len, size),
    ensures
        i * size < len,
        (i + 1) * size == i * size + size,
        0 <= i * size,
{
    let n = clusters_needed(len, size);
    assert(i * size < len) by (nonlinear_arith)
        requires
            size > 0,
            len > 0,
            0 <= i,
            i < n,
            n == if len % size == 0 {
                len / size
            } else {
                len / size + 1
            },
    ;
    assert((i + 1) * size == i * size + size) by (nonlinear_arith);
    assert(0 <= i * size) by (nonlinear_arith)
        requires
            0 <= i,
            size > 0,
    ;
}

} // verus!
