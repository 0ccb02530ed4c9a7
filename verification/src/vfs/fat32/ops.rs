//! Directory operations on a mounted volume: listing, lookup by name,
//! path resolution, and adding, rewriting and deleting entries.

use vstd::prelude::*;
use crate::text::{chars_of, lowercase_of, segments, split_segments, string_of, texts, to_lowercase};
use crate::vfs::block::BlockDevice;
use crate::vfs::fat32::chain::{is_end, CHAIN_LIMIT};
use crate::text::uppercase_of;
use crate::vfs::fat32::dir::{
    dir_entries, lemma_name_slots, mark_deleted, name_slots, overlay, parse_directory,
    place_entries, put_slot, scan_free_slots, slots_grown, slots_offset, views, with_deleted,
    DirEntryView, FatDirEntry,
};
use crate::vfs::fat32::dir::{entry_slots, fresh_short_slot, lemma_fresh_short_slot};
use crate::vfs::fat32::added::{addable, lemma_entry_added, one_more};
use crate::vfs::fat32::entry::{
    ShortDirEntry, ATTR_DIRECTORY, ATTR_LFN, ATTR_VOLUME_ID, DIR_ENTRY_SIZE,
};
use crate::vfs::fat32::lfn::{create_lfn_entries, lfn_count, LfnEntry};
use crate::vfs::fat32::listing::{listable, lists_entry, lists_name, slots_of};
use crate::vfs::fat32::name::{make_short_name, needs_lfn, needs_lfn_spec, short_name_bytes};
use crate::vfs::fat32::table::Fat32Inner;
use crate::vfs::fat32::write::{clusters_needed, padded};

verus! {

/// Position of the first entry whose lowercased name is `target`, or the
/// number of entries when there is none.
pub open spec fn match_index(entries: Seq<DirEntryView>, target: Seq<char>) -> int
    decreases entries.len(),
{
    if entries.len() == 0 {
        0
    } else if lowercase_of(entries[0].name) == target {
        0
    } else {
        1 + match_index(entries.drop_first(), target)
    }
}

/// The first entry whose lowercased name is `target`.
pub open spec fn lookup_in(entries: Seq<DirEntryView>, target: Seq<char>) -> Option<
    DirEntryView,
> {
    let i = match_index(entries, target);
    if 0 <= i < entries.len() {
        Some(entries[i])
    } else {
        None
    }
}

/// The view of an entry that may be absent.
pub open spec fn view_of(entry: Option<FatDirEntry>) -> Option<DirEntryView> {
    match entry {
        Some(e) => Some(e@),
        None => None,
    }
}

/// Takes out of `list` its first entry whose name is `name` when case is
/// ignored.
pub fn find_entry(list: &mut Vec<FatDirEntry>, name: &str) -> (r: Option<FatDirEntry>)
    ensures
        view_of(r) == lookup_in(views(old(list)@), lowercase_of(name@)),
{
    let ghost all = views(list@);
    let name_lower = to_lowercase(name);
    let n: usize = list.len();
    let mut idx: usize = 0;
    proof {
        assert(all.subrange(0, n as int) =~= all);
    }
    while idx < n
        invariant
            idx <= n,
            n == list@.len(),
            n == all.len(),
            all == views(list@),
            all == views(old(list)@),
            name_lower@ == lowercase_of(name@),
            match_index(all, name_lower@) == idx + match_index(
                all.subrange(idx as int, n as int),
                name_lower@,
            ),
        decreases n - idx,
    {
        let lower = to_lowercase(list[idx].name.as_str());
        proof {
            let rest = all.subrange(idx as int, n as int);
            assert(rest[0] == all[idx as int]);
            assert(rest.drop_first() =~= all.subrange(idx + 1, n as int));
        }
        if lower == name_lower {
            let ghost wanted = list@[idx as int]@;
            proof {
                assert(all[idx as int] == wanted);
                assert(match_index(all.subrange(idx as int, n as int), name_lower@) == 0);
            }
            let found = list.remove(idx);
            assert(found@ == wanted);
            assert(lookup_in(all, name_lower@) == Some(wanted));
            return Some(found);
        }
        idx += 1;
    }
    proof {
        assert(all.subrange(n as int, n as int).len() == 0);
    }
    None
}

impl<D: BlockDevice> Fat32Inner<D> {
    /// The bytes of the directory that begins at `cluster`.
    pub open spec fn dir_data(&self, cluster: u32) -> Seq<u8> {
        self.clusters_data(self.chain(cluster)->0)
    }

    /// The entries of the directory that begins at `cluster`.
    pub open spec fn listing(&self, cluster: u32) -> Seq<DirEntryView> {
        dir_entries(self.dir_data(cluster))
    }

    /// The data of a run of clusters is as long as that many clusters.
    pub proof fn lemma_clusters_data_len(&self, cs: Seq<u32>)
        requires
            self.bpb.cluster_bytes() >= 0,
        ensures
            self.clusters_data(cs).len() == cs.len() * self.bpb.cluster_bytes(),
        decreases cs.len(),
    {
        let size = self.bpb.cluster_bytes();
        if cs.len() == 0 {
            assert(0 * size == 0) by (nonlinear_arith);
        } else {
            self.lemma_clusters_data_len(cs.drop_last());
            let n = cs.len() as int;
            assert((n - 1) * size + size == n * size) by (nonlinear_arith);
        }
    }

    /// Reads the entries of the directory that begins at `dir_cluster`.
    pub fn read_directory(&self, dir_cluster: u32) -> (r: Result<Vec<FatDirEntry>, &'static str>)
        requires
            self.wf(),
        ensures
            self.chain(dir_cluster) is None ==> r is Err,
            is_end(dir_cluster) ==> (r matches Ok(entries) && entries@.len() == 0),
            r matches Ok(entries) ==> self.chain(dir_cluster) is Some && views(entries@)
                == self.listing(dir_cluster),
    {
        let data = match self.read_chain(dir_cluster) {
            Ok(d) => d,
            Err(e) => {
                return Err(e);
            },
        };
        let entries = parse_directory(data.as_slice());
        proof {
            if is_end(dir_cluster) {
                assert(views(entries@).len() == entries@.len());
            }
        }
        Ok(entries)
    }

    /// Looks `name` up in the directory that begins at `dir_cluster`,
    /// ignoring case.
    pub fn find_in_directory(&self, dir_cluster: u32, name: &str) -> (r: Result<
        Option<FatDirEntry>,
        &'static str,
    >)
        requires
            self.wf(),
        ensures
            self.chain(dir_cluster) is None ==> r is Err,
            is_end(dir_cluster) ==> (r matches Ok(found) && found is None),
            r matches Ok(found) ==> self.chain(dir_cluster) is Some && view_of(found) == lookup_in(
                self.listing(dir_cluster),
                lowercase_of(name@),
            ),
    {
        let mut entries = match self.read_directory(dir_cluster) {
            Ok(e) => e,
            Err(e) => {
                return Err(e);
            },
        };
        Ok(find_entry(&mut entries, name))
    }

    /// Finds room for an entry of `slots_needed` slots in the directory
    /// that begins at `dir_cluster`. The result is the bytes of the
    /// directory, with one more cluster of zero bytes when the directory
    /// has no such room, and the offset at which the entry goes.
    pub fn find_free_dir_slots(&self, dir_cluster: u32, slots_needed: usize) -> (r: Result<
        (Vec<u8>, usize),
        &'static str,
    >)
        requires
            self.wf(),
        ensures
            self.chain(dir_cluster) is None ==> r is Err,
            is_end(dir_cluster) ==> r is Err,
            r matches Ok(found) ==> {
                &&& self.chain(dir_cluster) is Some
                &&& found.0@ == slots_grown(
                    self.dir_data(dir_cluster),
                    slots_needed as int,
                    self.bpb.cluster_bytes(),
                )
                &&& found.1 as int == slots_offset(self.dir_data(dir_cluster), slots_needed as int)
                &&& (self.chain(dir_cluster)->0).len() > 0 || found.0@ == self.dir_data(dir_cluster)
            },
    {
        let mut data = match self.read_chain(dir_cluster) {
            Ok(d) => d,
            Err(e) => {
                return Err(e);
            },
        };
        let scan = scan_free_slots(data.as_slice(), slots_needed);
        if scan.found {
            return Ok((data, scan.start_offset));
        }
        let current_size: usize = data.len();
        let cluster_size: usize = self.bpb.bytes_per_cluster();
        match self.get_last_cluster(dir_cluster) {
            Ok(_) => {},
            Err(e) => {
                return Err(e);
            },
        }
        if current_size > usize::MAX - cluster_size {
            return Err("directory too large");
        }
        let ghost before = data@;
        data.resize(current_size + cluster_size, 0);
        proof {
            assert(data@ =~= before.add(Seq::new(cluster_size as nat, |i: int| 0u8)));
        }
        if scan.consecutive > 0 {
            Ok((data, scan.start_offset))
        } else {
            Ok((data, current_size))
        }
    }

    /// Writes `data` as the bytes of the directory that begins at
    /// `dir_cluster`. The data is a whole number of clusters. The chain
    /// then ends with an end-of-chain mark, so that none of its clusters
    /// is marked free.
    pub fn store_directory(&mut self, dir_cluster: u32, data: &[u8]) -> (r: Result<
        (),
        &'static str,
    >)
        requires
            old(self).wf(),
            old(self).chain(dir_cluster) is Some,
            data@.len() % (old(self).bpb.cluster_bytes() as nat) == 0,
            data@.len() == 0 ==> old(self).dir_data(dir_cluster).len() == 0,
        ensures
            final(self).bpb == old(self).bpb,
            r is Ok ==> final(self).chain(dir_cluster) is Some && final(self).dir_data(dir_cluster)
                == data@,
            r is Ok && data@.len() > 0 ==> old(self).same_except(
                final(self),
                (final(self).chain(dir_cluster)->0).to_set(),
                (final(self).chain(dir_cluster)->0).to_set(),
            ),
            data@.len() == 0 ==> r is Ok,
            r is Ok && data@.len() == 0 ==> final(self).device.sectors() == old(self).device.sectors(),
            r is Ok && data@.len() > 0 ==> old(self).kept_or_fresh(
                dir_cluster,
                final(self).chain(dir_cluster)->0,
            ),
            r is Ok && data@.len() > 0 && data@.len() == old(self).dir_data(dir_cluster).len()
                ==> final(self).chain(dir_cluster) == old(self).chain(dir_cluster),
            r is Ok && data@.len() > 0 ==> final(self).well_ended(dir_cluster),
    {
        let ghost size = self.bpb.cluster_bytes();
        let ghost len = data@.len() as int;
        match self.write_chain(dir_cluster, data) {
            Ok(first) => {
                proof {
                    if len > 0 {
                        if dir_cluster < 2 {
                            assert(old(self).chain(dir_cluster) == Some(Seq::<u32>::empty()));
                        }
                        let needed = clusters_needed(len, size);
                        assert(needed * size == len) by (nonlinear_arith)
                            requires
                                size > 0,
                                len >= 0,
                                len % size == 0,
                                needed == len / size,
                        ;
                        assert(padded(data@, len) =~= data@);
                        if dir_cluster >= 2 {
                            assert(needed >= 1) by (nonlinear_arith)
                                requires
                                    needed * size == len,
                                    len > 0,
                                    size > 0,
                            ;
                            self.lemma_ended_chain_is_used(dir_cluster);
                        }
                        if dir_cluster >= 2 && len == old(self).dir_data(dir_cluster).len() {
                            let cs = old(self).chain(dir_cluster)->0;
                            old(self).lemma_clusters_data_len(cs);
                            assert(cs.len() == needed) by (nonlinear_arith)
                                requires
                                    cs.len() * size == len,
                                    needed * size == len,
                                    size > 0,
                            ;
                            assert(cs.subrange(0, needed) =~= cs);
                        }
                    } else {
                        assert(self.dir_data(dir_cluster) =~= data@);
                    }
                }
                if dir_cluster < 2 && data.len() > 0 {
                    // The directory had no cluster of its own: the chain now
                    // begins at `first`, which nothing refers to.
                    return Err("invalid directory cluster");
                }
                Ok(())
            },
            Err(e) => Err(e),
        }
    }

    /// Adds an entry for `name` to the directory that begins at
    /// `dir_cluster`: the long-name slots when the name needs them, then
    /// the short slot, placed where `slots_offset` says.
    ///
    /// The entry is refused when the room found does not hold it. Where
    /// the name is listable, the directory then lists it under that
    /// name; where it is addable, the directory lists what it listed
    /// before, in the same order, and that one entry more. Afterwards no
    /// cluster of the directory's chain is marked free.
    #[verifier::spinoff_prover]
    #[verifier::rlimit(50)]
    pub fn add_dir_entry(
        &mut self,
        dir_cluster: u32,
        name: &str,
        attr: u8,
        cluster: u32,
        size: u32,
    ) -> (r: Result<(), &'static str>)
        requires
            old(self).wf(),
        ensures
            final(self).bpb == old(self).bpb,
            old(self).chain(dir_cluster) is None ==> r is Err,
            is_end(dir_cluster) ==> r is Err,
            r is Ok ==> {
                let slots = name_slots(
                    name@,
                    short_name_bytes(name@, uppercase_of(name@)),
                    needs_lfn_spec(name@),
                    attr,
                    cluster,
                    size,
                );
                &&& old(self).chain(dir_cluster) is Some
                &&& final(self).chain(dir_cluster) is Some
                &&& final(self).dir_data(dir_cluster) == with_entry(
                    old(self).dir_data(dir_cluster),
                    old(self).bpb.cluster_bytes(),
                    slots,
                )
                &&& slots.len() == 32 * slots_of(name@)
                &&& slots_offset(old(self).dir_data(dir_cluster), slots_of(name@)) + slots.len()
                    <= slots_grown(
                    old(self).dir_data(dir_cluster),
                    slots_of(name@),
                    old(self).bpb.cluster_bytes(),
                ).len()
                &&& old(self).kept_or_fresh(dir_cluster, final(self).chain(dir_cluster)->0)
                &&& old(self).same_except(
                    final(self),
                    (final(self).chain(dir_cluster)->0).to_set(),
                    (final(self).chain(dir_cluster)->0).to_set(),
                )
                &&& final(self).well_ended(dir_cluster)
            },
            r is Ok && attr != ATTR_LFN && attr & ATTR_VOLUME_ID == 0 && listable(
                old(self).dir_data(dir_cluster),
                name@,
            ) ==> lists_name(final(self).listing(dir_cluster), name@) && lists_entry(
                final(self).listing(dir_cluster),
                name@,
                attr,
                cluster,
                size,
            ),
            r is Ok && attr != ATTR_LFN && attr & ATTR_VOLUME_ID == 0 && addable(
                old(self).dir_data(dir_cluster),
                name@,
            ) ==> one_more(
                old(self).listing(dir_cluster),
                final(self).listing(dir_cluster),
                name@,
                fresh_short_slot(
                    short_name_bytes(name@, uppercase_of(name@)),
                    attr,
                    cluster,
                    size,
                ),
            ),
    {
        let short_name = make_short_name(name);
        let need_lfn = needs_lfn(name);
        let lfn_entries: Vec<LfnEntry> = if need_lfn {
            create_lfn_entries(name, &short_name)
        } else {
            Vec::new()
        };
        let count: usize = lfn_entries.len();
        if count == usize::MAX {
            return Err("name too long");
        }
        let slots_needed: usize = count + 1;
        let (mut data, offset) = match self.find_free_dir_slots(dir_cluster, slots_needed) {
            Ok(found) => found,
            Err(e) => {
                return Err(e);
            },
        };
        if offset > data.len() || (data.len() - offset) / DIR_ENTRY_SIZE < slots_needed {
            return Err("directory full");
        }
        let short_entry = ShortDirEntry::with_name(short_name, attr, cluster, size);
        let ghost grown = data@;
        let ghost before = self.dir_data(dir_cluster);
        place_entries(&mut data, offset, &lfn_entries, &short_entry);
        proof {
            assert(slots_needed == slots_of(name@));
            let cs0 = self.chain(dir_cluster)->0;
            self.lemma_clusters_data_len(cs0);
            let size0 = self.bpb.cluster_bytes();
            let q = 16 * (self.bpb.sectors_per_cluster as int);
            let n0 = cs0.len() as int;
            assert(n0 * size0 == 32 * (n0 * q)) by (nonlinear_arith)
                requires
                    size0 == 32 * q,
            ;
            lemma_fresh_short_slot(short_entry, cluster);
            if attr != ATTR_LFN && attr & ATTR_VOLUME_ID == 0 {
                lemma_entry_added(before, data@, size0, lfn_entries@, short_entry, name@);
            }
            lemma_name_slots(lfn_entries@, short_entry, name@, need_lfn, cluster);
            let cs = self.chain(dir_cluster)->0;
            let size = self.bpb.cluster_bytes();
            self.lemma_clusters_data_len(cs);
            let n = cs.len() as int;
            vstd::arithmetic::div_mod::lemma_mod_multiples_basic(n, size);
            vstd::arithmetic::div_mod::lemma_mod_multiples_basic(n + 1, size);
            assert((n + 1) * size == n * size + size) by (nonlinear_arith);
        }
        self.store_directory(dir_cluster, data.as_slice())
    }

    /// Rewrites the short slot of `entry` in the directory that begins at
    /// `dir_cluster`. The long-name slots are left as they are, and no
    /// cluster of the directory's chain is marked free afterwards.
    pub fn update_dir_entry(&mut self, dir_cluster: u32, entry: &FatDirEntry) -> (r: Result<
        (),
        &'static str,
    >)
        requires
            old(self).wf(),
        ensures
            final(self).bpb == old(self).bpb,
            old(self).chain(dir_cluster) is None ==> r is Err,
            entry.entry_count == 0 || entry.entry_offset + 32 * entry.entry_count > old(self).dir_data(dir_cluster).len()
                ==> r is Err,
            r is Ok ==> {
                &&& final(self).chain(dir_cluster) is Some
                &&& final(self).dir_data(dir_cluster) == overlay(
                    old(self).dir_data(dir_cluster),
                    entry.entry_offset + 32 * (entry.entry_count - 1),
                    entry.short_entry.bytes(),
                )
                &&& final(self).chain(dir_cluster) == old(self).chain(dir_cluster)
                &&& old(self).same_except(
                    final(self),
                    (old(self).chain(dir_cluster)->0).to_set(),
                    (old(self).chain(dir_cluster)->0).to_set(),
                )
                &&& final(self).well_ended(dir_cluster)
            },
    {
        let mut data = match self.read_chain(dir_cluster) {
            Ok(d) => d,
            Err(e) => {
                return Err(e);
            },
        };
        if entry.entry_count == 0 || entry.entry_offset > data.len() || (data.len()
            - entry.entry_offset) / DIR_ENTRY_SIZE < entry.entry_count {
            return Err("invalid entry offset");
        }
        let short_offset: usize = entry.entry_offset + (entry.entry_count - 1) * DIR_ENTRY_SIZE;
        let bytes = entry.short_entry.serialize();
        put_slot(&mut data, short_offset, &bytes);
        proof {
            let cs = self.chain(dir_cluster)->0;
            let size = self.bpb.cluster_bytes();
            self.lemma_clusters_data_len(cs);
            assert((cs.len() * size) % size == 0) by (nonlinear_arith)
                requires
                    size > 0,
            ;
        }
        self.store_directory(dir_cluster, data.as_slice())
    }

    /// Marks every slot of `entry` as deleted in the directory that begins
    /// at `dir_cluster`.
    pub fn remove_dir_entry(&mut self, dir_cluster: u32, entry: &FatDirEntry) -> (r: Result<
        (),
        &'static str,
    >)
        requires
            old(self).wf(),
        ensures
            final(self).bpb == old(self).bpb,
            old(self).chain(dir_cluster) is None ==> r is Err,
            r is Ok ==> {
                &&& final(self).chain(dir_cluster) is Some
                &&& final(self).dir_data(dir_cluster) == with_deleted(
                    old(self).dir_data(dir_cluster),
                    entry.entry_offset as int,
                    entry.entry_count as int,
                )
            },
            r is Ok && old(self).dir_data(dir_cluster).len() > 0 ==> {
                &&& final(self).chain(dir_cluster) == old(self).chain(dir_cluster)
                &&& old(self).same_except(
                    final(self),
                    (old(self).chain(dir_cluster)->0).to_set(),
                    (old(self).chain(dir_cluster)->0).to_set(),
                )
            },
            r is Ok && old(self).dir_data(dir_cluster).len() == 0 ==> final(self).device.sectors()
                == old(self).device.sectors(),
            is_end(dir_cluster) ==> r is Ok,
    {
        let mut data = match self.read_chain(dir_cluster) {
            Ok(d) => d,
            Err(e) => {
                return Err(e);
            },
        };
        mark_deleted(&mut data, entry.entry_offset, entry.entry_count);
        proof {
            let cs = self.chain(dir_cluster)->0;
            let size = self.bpb.cluster_bytes();
            self.lemma_clusters_data_len(cs);
            assert((cs.len() * size) % size == 0) by (nonlinear_arith)
                requires
                    size > 0,
            ;
        }
        self.store_directory(dir_cluster, data.as_slice())
    }

    /// Where a walk from the directory `dir` along the names `parts`
    /// ends: the directory that holds the last name, and the entry found
    /// for it. There is no end when a name is not found, when a name before
    /// the last is not a directory, or when a directory has no chain.
    pub open spec fn walk(&self, dir: u32, parts: Seq<Seq<char>>) -> Option<
        (u32, Option<DirEntryView>),
    >
        decreases parts.len(),
    {
        if parts.len() == 0 {
            Some((dir, None))
        } else if self.chain(dir) is None {
            None
        } else {
            match lookup_in(self.listing(dir), lowercase_of(parts[0])) {
                None => None,
                Some(e) => if parts.len() == 1 {
                    Some((dir, Some(e)))
                } else if e.short.attr & ATTR_DIRECTORY == 0 {
                    None
                } else {
                    self.walk(e.short.cluster_spec(), parts.drop_first())
                },
            }
        }
    }

    /// Where `path` leads from the root directory.
    pub open spec fn resolved(&self, path: Seq<char>) -> Option<(u32, Option<DirEntryView>)> {
        self.walk(self.bpb.root_cluster, segments(path, '/'))
    }

    /// Follows `path` from the root directory. The result is the cluster
    /// of the directory that holds the last name of the path and the entry
    /// of that name; for a path without names, the root directory and no
    /// entry.
    pub fn resolve_path(&self, path: &str) -> (r: Result<
        (u32, Option<FatDirEntry>),
        &'static str,
    >)
        requires
            self.wf(),
        ensures
            self.resolved(path@) is None ==> r is Err,
            segments(path@, '/').len() == 0 ==> r is Ok,
            r matches Ok(v) ==> self.resolved(path@) == Some((v.0, view_of(v.1))),
    {
        let chars = chars_of(path);
        let parts = split_segments(chars.as_slice(), '/');
        proof {
            assert(texts(parts@).subrange(0, parts@.len() as int) =~= texts(parts@));
        }
        self.resolve_parts(&parts, parts.len())
    }

    /// Follows the first `count` names of `parts` from the root directory.
    pub fn resolve_parts(&self, parts: &Vec<Vec<char>>, count: usize) -> (r: Result<
        (u32, Option<FatDirEntry>),
        &'static str,
    >)
        requires
            self.wf(),
            count <= parts@.len(),
        ensures
            self.walk(self.bpb.root_cluster, texts(parts@).subrange(0, count as int)) is None
                ==> r is Err,
            count == 0 ==> r is Ok,
            r matches Ok(v) ==> self.walk(
                self.bpb.root_cluster,
                texts(parts@).subrange(0, count as int),
            ) == Some((v.0, view_of(v.1))),
    {
        let ghost all = texts(parts@).subrange(0, count as int);
        if count == 0 {
            return Ok((self.bpb.root_cluster, None));
        }
        let mut current_cluster: u32 = self.bpb.root_cluster;
        let mut i: usize = 0;
        proof {
            assert(all.subrange(0, count as int) =~= all);
        }
        while i < count
            invariant
                i < count,
                count <= parts@.len(),
                self.wf(),
                all == texts(parts@).subrange(0, count as int),
                self.walk(self.bpb.root_cluster, all) == self.walk(
                    current_cluster,
                    all.subrange(i as int, count as int),
                ),
            decreases count - i,
        {
            let part = string_of(parts[i].as_slice());
            let ghost rest = all.subrange(i as int, count as int);
            proof {
                assert(rest[0] == part@);
                assert(rest.drop_first() =~= all.subrange(i + 1, count as int));
            }
            let found = match self.find_in_directory(current_cluster, part.as_str()) {
                Ok(f) => f,
                Err(e) => {
                    return Err(e);
                },
            };
            let entry = match found {
                Some(e) => e,
                None => {
                    return Err("path not found");
                },
            };
            if i == count - 1 {
                return Ok((current_cluster, Some(entry)));
            }
            if !entry.is_directory() {
                return Err("not a directory");
            }
            current_cluster = entry.cluster();
            i += 1;
        }
        Err("path not found")
    }

    /// A walk along at least one name ends at an entry.
    pub proof fn lemma_walk_entry(&self, dir: u32, parts: Seq<Seq<char>>)
        requires
            parts.len() > 0,
            self.walk(dir, parts) is Some,
        ensures
            (self.walk(dir, parts)->0).1 is Some,
        decreases parts.len(),
    {
        let e = lookup_in(self.listing(dir), lowercase_of(parts[0]))->0;
        if parts.len() > 1 {
            self.lemma_walk_entry(e.short.cluster_spec(), parts.drop_first());
        }
    }

    /// Where a walk along at least one name ends: at the entry that the
    /// last name has in the directory that holds it, and that directory is
    /// the one the walk began in, for a single name, or the one that the
    /// names before the last lead to.
    pub proof fn lemma_walk_parent(&self, dir: u32, parts: Seq<Seq<char>>)
        requires
            parts.len() > 0,
            self.walk(dir, parts) is Some,
        ensures
            ({
                let end = self.walk(dir, parts)->0;
                &&& end.1 is Some
                &&& lookup_in(self.listing(end.0), lowercase_of(parts.last())) == end.1
                &&& if parts.len() == 1 {
                    end.0 == dir
                } else {
                    match self.walk(dir, parts.drop_last()) {
                        Some((_, Some(e))) => e.short.attr & ATTR_DIRECTORY != 0
                            && e.short.cluster_spec() == end.0,
                        _ => false,
                    }
                }
            }),
        decreases parts.len(),
    {
        let first = lookup_in(self.listing(dir), lowercase_of(parts[0]))->0;
        let rest = parts.drop_first();
        if parts.len() == 1 {
            assert(parts.last() == parts[0]);
        } else {
            assert(self.walk(dir, parts) == self.walk(first.short.cluster_spec(), rest));
            self.lemma_walk_parent(first.short.cluster_spec(), rest);
            assert(rest.last() == parts.last());
            let front = parts.drop_last();
            assert(front[0] == parts[0]);
            assert(front.drop_first() =~= rest.drop_last());
            if parts.len() == 2 {
                assert(front.len() == 1);
                assert(self.walk(dir, front) == Some((dir, Some(first))));
            } else {
                assert(self.walk(dir, front) == self.walk(
                    first.short.cluster_spec(),
                    rest.drop_last(),
                ));
            }
        }
    }

    /// The entry that a path leads to is the entry that its last name has
    /// in the directory that holds it.
    pub proof fn lemma_resolved_parent(&self, path: Seq<char>)
        requires
            segments(path, '/').len() > 0,
            self.resolved(path) is Some,
        ensures
            (self.resolved(path)->0).1 is Some,
            self.parent_of(segments(path, '/')) == Some((self.resolved(path)->0).0),
            lookup_in(
                self.listing((self.resolved(path)->0).0),
                lowercase_of(segments(path, '/').last()),
            ) == (self.resolved(path)->0).1,
    {
        self.lemma_walk_parent(self.bpb.root_cluster, segments(path, '/'));
    }

    /// The cluster of the directory that holds the last of the names
    /// `parts`: the root directory for a single name, else the directory
    /// that the names before the last lead to.
    pub open spec fn parent_of(&self, parts: Seq<Seq<char>>) -> Option<u32> {
        if parts.len() == 0 {
            None
        } else if parts.len() == 1 {
            Some(self.bpb.root_cluster)
        } else {
            match self.walk(self.bpb.root_cluster, parts.drop_last()) {
                Some((_, Some(e))) => if e.short.attr & ATTR_DIRECTORY != 0 {
                    Some(e.short.cluster_spec())
                } else {
                    None
                },
                _ => None,
            }
        }
    }

    /// Splits `path` into the directory that holds its last name and that
    /// name. A path without names is refused.
    pub fn split_path(&self, path: &str) -> (r: Result<(u32, String), &'static str>)
        requires
            self.wf(),
        ensures
            self.parent_of(segments(path@, '/')) is None ==> r is Err,
            segments(path@, '/').len() == 1 ==> r is Ok,
            r matches Ok(v) ==> self.parent_of(segments(path@, '/')) == Some(v.0) && v.1@
                == segments(path@, '/').last(),
    {
        let chars = chars_of(path);
        let parts = split_segments(chars.as_slice(), '/');
        let n: usize = parts.len();
        if n == 0 {
            return Err("invalid path");
        }
        let name = string_of(parts[n - 1].as_slice());
        proof {
            assert(texts(parts@).subrange(0, n - 1) =~= texts(parts@).drop_last());
            assert(texts(parts@).last() == parts@[n - 1]@);
            if n > 1 && self.walk(self.bpb.root_cluster, texts(parts@).drop_last()) is Some {
                self.lemma_walk_entry(self.bpb.root_cluster, texts(parts@).drop_last());
            }
        }
        if n == 1 {
            return Ok((self.bpb.root_cluster, name));
        }
        let parent = match self.resolve_parts(&parts, n - 1) {
            Ok(v) => v.1,
            Err(e) => {
                return Err(e);
            },
        };
        match parent {
            Some(e) => {
                if e.is_directory() {
                    Ok((e.cluster(), name))
                } else {
                    Err("parent is not a directory")
                }
            },
            None => Ok((self.bpb.root_cluster, name)),
        }
    }
}

/// `data` with the slots of a new entry placed in it: in the first row of
/// free slots long enough, or, when there is none, at the free slots that
/// end the directory after it has grown by one cluster of zero bytes.
pub open spec fn with_entry(data: Seq<u8>, cluster_bytes: int, slots: Seq<u8>) -> Seq<u8> {
    let wanted = slots.len() as int / 32;
    overlay(slots_grown(data, wanted, cluster_bytes), slots_offset(data, wanted), slots)
}

} // verus!
