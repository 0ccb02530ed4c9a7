//! The FAT32 filesystem as the virtual filesystem sees it, and its files.

use vstd::prelude::*;
use crate::text::{chars_of, lowercase_of, segments, split_segments, texts, uppercase_of};
use crate::vfs::block::BlockDevice;
use crate::vfs::fat32::bpb::Bpb;
use crate::vfs::fat32::chain::CHAIN_LIMIT;
use crate::vfs::fat32::dir::{
    dir_entries, is_listed, lemma_short_of, name_slots, overlay, put_slot, scan_dir, slot,
    with_deleted, DirEntryView, FatDirEntry,
};
use crate::vfs::fat32::entry::padded_text;
use crate::vfs::fat32::lfn::LfnEntry;
use crate::vfs::fat32::listing::{
    lemma_rewritten_entry_is_found, listable, lists_entry, whole_run, with_short,
};
use crate::vfs::fat32::write::{clusters_needed, padded};
use crate::vfs::fat32::entry::{ShortDirEntry, ATTR_ARCHIVE, ATTR_DIRECTORY, ATTR_VOLUME_ID};
use crate::vfs::fat32::name::{needs_lfn_spec, short_name_bytes};
use crate::vfs::fat32::ops::{lookup_in, view_of, with_entry};
use crate::vfs::fat32::table::Fat32Inner;
use crate::vfs::types::{
    read_at, read_window, seek_allowed, seek_goal, seek_position, write_at, written, DirEntry,
    DirEntryModel, FileHandle, FileType, Filesystem, Metadata, OpenFlags, SeekFrom, VfsError,
    VfsResult, O_APPEND, O_CREAT, O_TRUNC, listing_view,
};

use crate::vfs::fat32::added::{addable, lemma_added_is_found, one_more};
use crate::vfs::fat32::dir::fresh_short_slot;

verus! {

/// An open file of a FAT32 volume. The whole file is held in memory; it is
/// written back when the handle is closed.
pub struct FatFileHandle {
    pub path: String,
    pub cluster: u32,
    pub size: u32,
    pub position: usize,
    pub data: Vec<u8>,
    pub dirty: bool,
    pub flags: OpenFlags,
}

impl FileHandle for FatFileHandle {
    /// Whether reading into a buffer that holds `room` may give `r`, leave
    /// the handle as `after` and the buffer holding `out`.
    open spec fn reads(
        &self,
        room: Seq<u8>,
        r: VfsResult<usize>,
        after: &Self,
        out: Seq<u8>,
    ) -> bool {
        &&& r == Ok::<usize, VfsError>(
            read_window(self.data@, self.position as int, room.len() as int).len() as usize,
        )
        &&& out.subrange(0, r->Ok_0 as int) == read_window(
            self.data@,
            self.position as int,
            room.len() as int,
        )
        &&& after.position == self.position + r->Ok_0
        &&& after.data == self.data
        &&& after.dirty == self.dirty
        &&& after.flags == self.flags
        &&& after.cluster == self.cluster
        &&& after.path == self.path
    }

    fn read(&mut self, buf: &mut Vec<u8>) -> (r: VfsResult<usize>) {
        let len: usize = self.data.len();
        let n = read_at(&self.data, self.position, buf);
        self.position = self.position + n;
        Ok(n)
    }

    /// Whether writing `bytes` may give `r` and leave the handle as `after`.
    open spec fn writes(&self, bytes: Seq<u8>, r: VfsResult<usize>, after: &Self) -> bool {
        &&& !self.flags.writable() ==> r == Err::<usize, VfsError>(
            VfsError::PermissionDenied,
        ) && *after == *self
        &&& self.flags.writable() && self.position + bytes.len() > usize::MAX ==> r
            == Err::<usize, VfsError>(VfsError::NoSpace) && *after == *self
        &&& self.flags.writable() && self.position + bytes.len() <= usize::MAX ==> {
            &&& r == Ok::<usize, VfsError>(bytes.len() as usize)
            &&& after.data@ == written(self.data@, self.position as int, bytes)
            &&& after.position == self.position + bytes.len()
            &&& after.dirty
            &&& after.flags == self.flags
            &&& after.cluster == self.cluster
            &&& after.path == self.path
        }
    }

    fn write(&mut self, buf: &[u8]) -> (r: VfsResult<usize>) {
        if !self.flags.is_writable() {
            return Err(VfsError::PermissionDenied);
        }
        if buf.len() > usize::MAX - self.position {
            return Err(VfsError::NoSpace);
        }
        write_at(&mut self.data, self.position, buf);
        self.position = self.position + buf.len();
        self.dirty = true;
        Ok(buf.len())
    }

    /// Whether moving the position by `pos` may give `r` and leave the
    /// handle as `after`.
    open spec fn seeks(&self, pos: SeekFrom, r: VfsResult<usize>, after: &Self) -> bool {
        &&& r == if seek_allowed(seek_goal(pos, self.position, self.data@.len() as usize)) {
            Ok::<usize, VfsError>(
                seek_goal(pos, self.position, self.data@.len() as usize) as usize,
            )
        } else {
            Err::<usize, VfsError>(VfsError::InvalidPath)
        }
        &&& r matches Ok(p) ==> after.position == p
        &&& r is Err ==> after.position == self.position
        &&& after.data == self.data
        &&& after.dirty == self.dirty
        &&& after.flags == self.flags
    }

    fn seek(&mut self, pos: SeekFrom) -> (r: VfsResult<usize>) {
        match seek_position(pos, self.position, self.data.len()) {
            Ok(p) => {
                self.position = p;
                Ok(p)
            },
            Err(e) => Err(e),
        }
    }

    /// Whether asking for what is known of the file may give `r`: its
    /// size is that of the handle's bytes.
    open spec fn describes(&self, r: VfsResult<Metadata>) -> bool {
        r == Ok::<Metadata, VfsError>(
            Metadata { file_type: FileType::File, size: self.data@.len() as usize },
        )
    }

    fn metadata(&self) -> (r: VfsResult<Metadata>) {
        Ok(Metadata { file_type: FileType::File, size: self.data.len() })
    }
}

/// A FAT32 volume mounted on a device.
pub struct Fat32Fs<D: BlockDevice> {
    pub inner: Fat32Inner<D>,
}

/// What a directory entry is listed as.
pub open spec fn listed(e: DirEntryView) -> DirEntryModel {
    DirEntryModel {
        name: e.name,
        file_type: if e.short.attr & ATTR_DIRECTORY != 0 {
            FileType::Directory
        } else {
            FileType::File
        },
    }
}

/// The first `size` bytes of `data`, or all of it when it is shorter.
pub open spec fn cut(data: Seq<u8>, size: int) -> Seq<u8> {
    if size < data.len() {
        data.subrange(0, size)
    } else {
        data
    }
}

impl<D: BlockDevice> Fat32Fs<D> {
    /// Mounts the volume on `device`: reads the boot sector and accepts
    /// its geometry, or fails.
    pub fn new(device: D) -> (r: Result<Self, &'static str>)
        ensures
            r matches Ok(fs) ==> {
                &&& fs.inner.wf()
                &&& fs.inner.device == device
                &&& device.sectors().contains_key(0)
                &&& Bpb::parse_spec(device.sectors()[0]) == Some(fs.inner.bpb)
            },
            device.sectors().contains_key(0) ==> match Bpb::parse_spec(device.sectors()[0]) {
                None => r is Err,
                Some(b) => !b.wf() ==> r is Err,
            },
    {
        let mut sector = [0u8; 512];
        match device.read_sector(0, &mut sector) {
            Ok(()) => {},
            Err(e) => {
                return Err(e);
            },
        }
        let bpb = match Bpb::parse(&sector) {
            Some(b) => b,
            None => {
                return Err("invalid FAT32 boot sector");
            },
        };
        if bpb.sectors_per_fat == 0 {
            return Err("not a FAT32 filesystem");
        }
        if !bpb.is_valid() {
            return Err("unsupported FAT32 geometry");
        }
        Ok(Self { inner: Fat32Inner { device, bpb } })
    }

    /// The bytes of the file that `e` describes: its chain cut to its size,
    /// and nothing when it has no cluster.
    pub open spec fn file_bytes(&self, e: DirEntryView) -> Seq<u8> {
        if e.short.cluster_spec() >= 2 {
            cut(self.inner.dir_data(e.short.cluster_spec()), e.short.size as int)
        } else {
            Seq::empty()
        }
    }

    /// What a file that was written back reads as: where the chain from
    /// `first` holds `data` padded to whole clusters, an entry that
    /// records `first` as its first cluster and the length of `data` as
    /// its size describes a file with exactly the bytes `data`.
    pub proof fn lemma_synced_file_reads_back(&self, first: u32, data: Seq<u8>, e: DirEntryView)
        requires
            self.inner.wf(),
            0 < data.len() < 0x1_0000_0000,
            self.inner.chain(first) is Some,
            self.inner.clusters_data(self.inner.chain(first)->0) == padded(
                data,
                clusters_needed(data.len() as int, self.inner.bpb.cluster_bytes())
                    * self.inner.bpb.cluster_bytes(),
            ),
            e.short == e.short.pointing(first, data.len() as u32),
        ensures
            self.file_bytes(e) == data,
            e.short.cluster_spec() == first,
    {
        let size = self.inner.bpb.cluster_bytes();
        let n = clusters_needed(data.len() as int, size);
        let read = self.inner.dir_data(first);
        self.inner.lemma_write_then_read(first, data, read);
        assert(e.short.cluster_spec() == first) by {
            let hi = first as int / 65536;
            let lo = first as int % 65536;
            assert(hi * 65536 + lo == first) by (nonlinear_arith)
                requires
                    hi == first as int / 65536,
                    lo == first as int % 65536,
            ;
        }
        assert(first >= 2) by {
            if first < 2 {
                assert(self.inner.chain(first) == Some(Seq::<u32>::empty()));
                assert(read.len() == 0);
            }
        }
        assert(cut(read, data.len() as int) =~= data);
    }

    /// A file that was written back is read back: after the bytes `data`
    /// of the file at `path` were written back, the lookup of its name
    /// finds an entry of the same name that describes a file with exactly
    /// the bytes `data`.
    ///
    /// This is stated for a volume on which the effect of writing back is
    /// stated, and for an entry whose long-name entries are a whole run,
    /// which records where its short entry stands.
    #[verifier::spinoff_prover]
    #[verifier::rlimit(50)]
    pub proof fn lemma_written_back_is_read_back(
        &self,
        after: &Self,
        path: Seq<char>,
        old_cluster: u32,
        data: Seq<u8>,
    )
        requires
            self.inner.wf(),
            self.syncs(path, old_cluster, data, Ok::<(), VfsError>(()), after),
            0 < data.len() < 0x1_0000_0000,
            self.inner.apart(self.inner.parent_of(segments(path, '/'))->0, old_cluster),
            self.inner.well_ended(self.inner.parent_of(segments(path, '/'))->0),
            whole_run(
                (lookup_in(
                    self.inner.listing(self.inner.parent_of(segments(path, '/'))->0),
                    lowercase_of(segments(path, '/').last()),
                )->0).lfn,
            ),
        ensures
            ({
                let parts = segments(path, '/');
                let parent = self.inner.parent_of(parts)->0;
                let found = lookup_in(self.inner.listing(parent), lowercase_of(parts.last()))->0;
                let now = lookup_in(after.inner.listing(parent), lowercase_of(parts.last()));
                &&& now is Some
                &&& (now->0).name == found.name
                &&& (now->0).short.size == data.len()
                &&& after.file_bytes(now->0) == data
                &&& after.inner.chain((now->0).short.cluster_spec()) is Some
                &&& (after.inner.chain((now->0).short.cluster_spec())->0).len() == clusters_needed(
                    data.len() as int,
                    self.inner.bpb.cluster_bytes(),
                )
                &&& (now->0).lfn == found.lfn
                &&& after.inner.apart(parent, (now->0).short.cluster_spec())
                &&& after.inner.well_ended(parent)
            }),
    {
        let parts = segments(path, '/');
        let parent = self.inner.parent_of(parts)->0;
        let target = lowercase_of(parts.last());
        let found = lookup_in(self.inner.listing(parent), target)->0;
        let length = (data.len() % 0x1_0000_0000) as u32;
        let size = self.inner.bpb.cluster_bytes();
        let place = found.offset + 32 * (found.count - 1);
        let first = choose|first: u32|
            {
                &&& old_cluster >= 2 ==> first == old_cluster
                &&& #[trigger] after.inner.chain(first) is Some
                &&& (after.inner.chain(first)->0).len() == clusters_needed(data.len() as int, size)
                &&& after.inner.clusters_data(after.inner.chain(first)->0) == padded(
                    data,
                    clusters_needed(data.len() as int, size) * size,
                )
                &&& after.inner.dir_data(parent) == overlay(
                    self.inner.dir_data(parent),
                    place,
                    found.short.pointing(first, length).bytes(),
                )
                &&& after.inner.apart(parent, first)
                &&& after.inner.well_ended(parent)
            };
        let short = found.short.pointing(first, length);
        lemma_rewritten_entry_is_found(self.inner.dir_data(parent), target, short);
        let now = with_short(found, short);
        assert(lookup_in(after.inner.listing(parent), target) == Some(now));
        assert(short == short.pointing(first, data.len() as u32));
        after.lemma_synced_file_reads_back(first, data, now);
    }

    /// A file that was written back and is opened again reads as it was
    /// written: the handle holds exactly the bytes `data`, at position 0,
    /// and records their number as the size; the chain of the file has as
    /// many clusters as the bytes need; a read into a buffer with room for
    /// them gives them all, and the read after it gives nothing.
    ///
    /// This is stated where `lemma_written_back_is_read_back` is, for a
    /// path whose parent directory is found after the writing as before,
    /// as the root directory always is, and for an open that neither
    /// creates nor empties the file nor appends to it.
    pub proof fn lemma_reopened_file_reads_back(
        &self,
        synced: &Self,
        opened: &Self,
        path: Seq<char>,
        old_cluster: u32,
        data: Seq<u8>,
        flags: OpenFlags,
        h: FatFileHandle,
        room: Seq<u8>,
        first: VfsResult<usize>,
        read: FatFileHandle,
        out: Seq<u8>,
        second: VfsResult<usize>,
        done: FatFileHandle,
        rest: Seq<u8>,
    )
        requires
            self.inner.wf(),
            self.syncs(path, old_cluster, data, Ok::<(), VfsError>(()), synced),
            0 < data.len() < 0x1_0000_0000,
            self.inner.apart(self.inner.parent_of(segments(path, '/'))->0, old_cluster),
            self.inner.well_ended(self.inner.parent_of(segments(path, '/'))->0),
            whole_run(
                (lookup_in(
                    self.inner.listing(self.inner.parent_of(segments(path, '/'))->0),
                    lowercase_of(segments(path, '/').last()),
                )->0).lfn,
            ),
            segments(path, '/').len() == 1 || synced.inner.parent_of(segments(path, '/'))
                == self.inner.parent_of(segments(path, '/')),
            !flags.contains_spec(OpenFlags(O_CREAT)),
            !flags.contains_spec(OpenFlags(O_TRUNC)),
            !flags.contains_spec(OpenFlags(O_APPEND)),
            synced.opens(path, flags, Ok::<FatFileHandle, VfsError>(h), opened),
            room.len() >= data.len(),
            h.reads(room, first, &read, out),
            read.reads(room, second, &done, rest),
        ensures
            h.data@ == data,
            h.position == 0,
            h.size == data.len(),
            synced.inner.chain(h.cluster) is Some,
            (synced.inner.chain(h.cluster)->0).len() == clusters_needed(
                data.len() as int,
                self.inner.bpb.cluster_bytes(),
            ),
            first == Ok::<usize, VfsError>(data.len() as usize),
            out.subrange(0, data.len() as int) == data,
            second == Ok::<usize, VfsError>(0),
    {
        let parts = segments(path, '/');
        assert(self.inner.parent_of(parts) is Some);
        let parent = self.inner.parent_of(parts)->0;
        self.lemma_written_back_is_read_back(synced, path, old_cluster, data);
        let now = lookup_in(synced.inner.listing(parent), lowercase_of(parts.last()))->0;
        assert(synced.inner.resolved(path) is Some);
        synced.inner.lemma_resolved_parent(path);
        assert(synced.inner.parent_of(parts) == Some(parent));
        assert(synced.inner.resolved(path) == Some((parent, Some(now))));
        assert(synced.opens_file(h, path, flags, now));
        assert(read_window(h.data@, 0, room.len() as int) =~= data);
    }

    /// A file that is written back twice reads as it was written last.
    ///
    /// The bytes `held` are written back for the file at `path`, and then
    /// the bytes `data`, with the first cluster that the entry of the
    /// file records after the first writing, as a handle of the file
    /// holds it; and the path is opened again, without creating, emptying
    /// or appending. Then the handle holds exactly the bytes `data`, and
    /// the rest is as `lemma_reopened_file_reads_back` says: however the
    /// number of clusters has changed between the two writings.
    ///
    /// Only the volume before the first writing is asked what that law
    /// asks of it: the first writing leaves the volume so that the second
    /// can be read back.
    pub proof fn lemma_rewritten_file_reads_back(
        &self,
        stored: &Self,
        synced: &Self,
        opened: &Self,
        path: Seq<char>,
        old_cluster: u32,
        held: Seq<u8>,
        data: Seq<u8>,
        flags: OpenFlags,
        h: FatFileHandle,
        room: Seq<u8>,
        first: VfsResult<usize>,
        read: FatFileHandle,
        out: Seq<u8>,
        second: VfsResult<usize>,
        done: FatFileHandle,
        rest: Seq<u8>,
    )
        requires
            self.inner.wf(),
            self.syncs(path, old_cluster, held, Ok::<(), VfsError>(()), stored),
            0 < held.len() < 0x1_0000_0000,
            self.inner.apart(self.inner.parent_of(segments(path, '/'))->0, old_cluster),
            self.inner.well_ended(self.inner.parent_of(segments(path, '/'))->0),
            whole_run(
                (lookup_in(
                    self.inner.listing(self.inner.parent_of(segments(path, '/'))->0),
                    lowercase_of(segments(path, '/').last()),
                )->0).lfn,
            ),
            segments(path, '/').len() == 1 || (stored.inner.parent_of(segments(path, '/'))
                == self.inner.parent_of(segments(path, '/')) && synced.inner.parent_of(
                segments(path, '/'),
            ) == self.inner.parent_of(segments(path, '/'))),
            stored.syncs(
                path,
                (lookup_in(
                    stored.inner.listing(self.inner.parent_of(segments(path, '/'))->0),
                    lowercase_of(segments(path, '/').last()),
                )->0).short.cluster_spec(),
                data,
                Ok::<(), VfsError>(()),
                synced,
            ),
            0 < data.len() < 0x1_0000_0000,
            !flags.contains_spec(OpenFlags(O_CREAT)),
            !flags.contains_spec(OpenFlags(O_TRUNC)),
            !flags.contains_spec(OpenFlags(O_APPEND)),
            synced.opens(path, flags, Ok::<FatFileHandle, VfsError>(h), opened),
            room.len() >= data.len(),
            h.reads(room, first, &read, out),
            read.reads(room, second, &done, rest),
        ensures
            h.data@ == data,
            h.position == 0,
            h.size == data.len(),
            synced.inner.chain(h.cluster) is Some,
            (synced.inner.chain(h.cluster)->0).len() == clusters_needed(
                data.len() as int,
                self.inner.bpb.cluster_bytes(),
            ),
            first == Ok::<usize, VfsError>(data.len() as usize),
            out.subrange(0, data.len() as int) == data,
            second == Ok::<usize, VfsError>(0),
    {
        let parts = segments(path, '/');
        let parent = self.inner.parent_of(parts)->0;
        self.lemma_written_back_is_read_back(stored, path, old_cluster, held);
        let now = lookup_in(stored.inner.listing(parent), lowercase_of(parts.last()))->0;
        assert(stored.inner.parent_of(parts) == Some(parent));
        stored.lemma_reopened_file_reads_back(
            synced,
            opened,
            path,
            now.short.cluster_spec(),
            data,
            flags,
            h,
            room,
            first,
            read,
            out,
            second,
            done,
            rest,
        );
    }

    /// A new file that is written and closed reads as it was written.
    ///
    /// A file is created for writing where no entry has its name, in a
    /// directory to which the name is addable; the bytes `data` are
    /// written through the handle, and the handle is closed, which
    /// succeeds; and the path is opened again, without creating, emptying
    /// or appending. Then the write took all of `data`; the second handle
    /// holds exactly the bytes `data`, at position 0, and records their
    /// number as the size; the chain of the file has as many clusters as
    /// the bytes need; a read into a buffer with room for them gives them
    /// all, and the read after it gives nothing.
    ///
    /// This asks nothing of the cluster chains of the volume. It is
    /// stated for a path whose parent directory is found after each step
    /// as before, as the root directory always is.
    pub proof fn lemma_new_file_reads_back(
        &self,
        created: &Self,
        path: Seq<char>,
        first: OpenFlags,
        made: FatFileHandle,
        data: Seq<u8>,
        taken: VfsResult<usize>,
        written_to: FatFileHandle,
        synced: &Self,
        second: OpenFlags,
        h: FatFileHandle,
        opened: &Self,
        room: Seq<u8>,
        all: VfsResult<usize>,
        read: FatFileHandle,
        out: Seq<u8>,
        nothing: VfsResult<usize>,
        done: FatFileHandle,
        rest: Seq<u8>,
    )
        requires
            self.inner.wf(),
            self.inner.parent_of(segments(path, '/')) is Some,
            lookup_in(
                self.inner.listing(self.inner.parent_of(segments(path, '/'))->0),
                lowercase_of(segments(path, '/').last()),
            ) is None,
            addable(
                self.inner.dir_data(self.inner.parent_of(segments(path, '/'))->0),
                segments(path, '/').last(),
            ),
            self.opens(path, first, Ok::<FatFileHandle, VfsError>(made), created),
            first.writable(),
            made.writes(data, taken, &written_to),
            created.closes(written_to, Ok::<(), VfsError>(()), synced),
            0 < data.len() < 0x1_0000_0000,
            segments(path, '/').len() == 1 || (created.inner.parent_of(segments(path, '/'))
                == self.inner.parent_of(segments(path, '/')) && synced.inner.parent_of(
                segments(path, '/'),
            ) == self.inner.parent_of(segments(path, '/'))),
            !second.contains_spec(OpenFlags(O_CREAT)),
            !second.contains_spec(OpenFlags(O_TRUNC)),
            !second.contains_spec(OpenFlags(O_APPEND)),
            synced.opens(path, second, Ok::<FatFileHandle, VfsError>(h), opened),
            room.len() >= data.len(),
            h.reads(room, all, &read, out),
            read.reads(room, nothing, &done, rest),
        ensures
            taken == Ok::<usize, VfsError>(data.len() as usize),
            h.data@ == data,
            h.position == 0,
            h.size == data.len(),
            synced.inner.chain(h.cluster) is Some,
            (synced.inner.chain(h.cluster)->0).len() == clusters_needed(
                data.len() as int,
                self.inner.bpb.cluster_bytes(),
            ),
            all == Ok::<usize, VfsError>(data.len() as usize),
            out.subrange(0, data.len() as int) == data,
            nothing == Ok::<usize, VfsError>(0),
    {
        let parts = segments(path, '/');
        let parent = self.inner.parent_of(parts)->0;
        let name = parts.last();
        if self.inner.resolved(path) is Some {
            self.inner.lemma_resolved_parent(path);
        }
        assert(self.inner.resolved(path) is None);
        assert(made.cluster == 0);
        assert(written_to.data@ =~= data);
        assert(created.syncs(path, 0, data, Ok::<(), VfsError>(()), synced));
        let short = fresh_short_slot(
            short_name_bytes(name, uppercase_of(name)),
            ATTR_ARCHIVE,
            0,
            0,
        );
        assert(one_more(
            self.inner.listing(parent),
            created.inner.listing(parent),
            name,
            short,
        ));
        lemma_added_is_found(
            self.inner.listing(parent),
            created.inner.listing(parent),
            name,
            short,
        );
        assert(created.inner.parent_of(parts) == Some(parent));
        assert(created.inner.chain(0) == Some(Seq::<u32>::empty()));
        assert(created.inner.apart(parent, 0));
        created.lemma_reopened_file_reads_back(
            synced,
            opened,
            path,
            0,
            data,
            second,
            h,
            room,
            all,
            read,
            out,
            nothing,
            done,
            rest,
        );
    }

    /// A new file that is written, closed and then written back again
    /// with other bytes reads as it was written last: so does a file
    /// that has grown across the end of a cluster.
    ///
    /// A file is created for writing where no entry has its name, in a
    /// directory to which the name is addable; the bytes `held` are
    /// written through the handle, and the handle is closed, which
    /// succeeds; the bytes `data` are then written back for the file,
    /// with the first cluster that its entry records by then; and the
    /// path is opened again, without creating, emptying or appending.
    /// Then the last handle holds exactly the bytes `data`; the chain of
    /// the file has as many clusters as they need; and a read into a
    /// buffer with room for them gives them all.
    ///
    /// This asks nothing of the cluster chains of the volume. It is
    /// stated for a path whose parent directory is found after each step
    /// as before, as the root directory always is.
    pub proof fn lemma_new_file_rewritten_reads_back(
        &self,
        created: &Self,
        path: Seq<char>,
        first: OpenFlags,
        made: FatFileHandle,
        held: Seq<u8>,
        taken: VfsResult<usize>,
        written_to: FatFileHandle,
        stored: &Self,
        data: Seq<u8>,
        synced: &Self,
        second: OpenFlags,
        h: FatFileHandle,
        opened: &Self,
        room: Seq<u8>,
        all: VfsResult<usize>,
        read: FatFileHandle,
        out: Seq<u8>,
        nothing: VfsResult<usize>,
        done: FatFileHandle,
        rest: Seq<u8>,
    )
        requires
            self.inner.wf(),
            self.inner.parent_of(segments(path, '/')) is Some,
            lookup_in(
                self.inner.listing(self.inner.parent_of(segments(path, '/'))->0),
                lowercase_of(segments(path, '/').last()),
            ) is None,
            addable(
                self.inner.dir_data(self.inner.parent_of(segments(path, '/'))->0),
                segments(path, '/').last(),
            ),
            self.opens(path, first, Ok::<FatFileHandle, VfsError>(made), created),
            first.writable(),
            made.writes(held, taken, &written_to),
            created.closes(written_to, Ok::<(), VfsError>(()), stored),
            0 < held.len() < 0x1_0000_0000,
            segments(path, '/').len() == 1 || (created.inner.parent_of(segments(path, '/'))
                == self.inner.parent_of(segments(path, '/')) && stored.inner.parent_of(
                segments(path, '/'),
            ) == self.inner.parent_of(segments(path, '/')) && synced.inner.parent_of(
                segments(path, '/'),
            ) == self.inner.parent_of(segments(path, '/'))),
            stored.syncs(
                path,
                (lookup_in(
                    stored.inner.listing(self.inner.parent_of(segments(path, '/'))->0),
                    lowercase_of(segments(path, '/').last()),
                )->0).short.cluster_spec(),
                data,
                Ok::<(), VfsError>(()),
                synced,
            ),
            0 < data.len() < 0x1_0000_0000,
            !second.contains_spec(OpenFlags(O_CREAT)),
            !second.contains_spec(OpenFlags(O_TRUNC)),
            !second.contains_spec(OpenFlags(O_APPEND)),
            synced.opens(path, second, Ok::<FatFileHandle, VfsError>(h), opened),
            room.len() >= data.len(),
            h.reads(room, all, &read, out),
            read.reads(room, nothing, &done, rest),
        ensures
            h.data@ == data,
            h.position == 0,
            h.size == data.len(),
            synced.inner.chain(h.cluster) is Some,
            (synced.inner.chain(h.cluster)->0).len() == clusters_needed(
                data.len() as int,
                self.inner.bpb.cluster_bytes(),
            ),
            all == Ok::<usize, VfsError>(data.len() as usize),
            out.subrange(0, data.len() as int) == data,
            nothing == Ok::<usize, VfsError>(0),
    {
        let parts = segments(path, '/');
        let parent = self.inner.parent_of(parts)->0;
        let name = parts.last();
        if self.inner.resolved(path) is Some {
            self.inner.lemma_resolved_parent(path);
        }
        assert(self.inner.resolved(path) is None);
        assert(made.cluster == 0);
        assert(written_to.data@ =~= held);
        assert(created.syncs(path, 0, held, Ok::<(), VfsError>(()), stored));
        let short = fresh_short_slot(
            short_name_bytes(name, uppercase_of(name)),
            ATTR_ARCHIVE,
            0,
            0,
        );
        assert(one_more(
            self.inner.listing(parent),
            created.inner.listing(parent),
            name,
            short,
        ));
        lemma_added_is_found(
            self.inner.listing(parent),
            created.inner.listing(parent),
            name,
            short,
        );
        assert(created.inner.parent_of(parts) == Some(parent));
        assert(created.inner.chain(0) == Some(Seq::<u32>::empty()));
        assert(created.inner.apart(parent, 0));
        created.lemma_rewritten_file_reads_back(
            stored,
            synced,
            opened,
            path,
            0,
            held,
            data,
            second,
            h,
            room,
            all,
            read,
            out,
            nothing,
            done,
            rest,
        );
    }

    /// Whether writing the bytes `data` of the file at `path` back may give
    /// `r` and leave the volume as `after`.
    ///
    /// The effect is stated for a volume on which the chain of the
    /// directory that holds the file shares no cluster with the chain of
    /// the file, and on which no cluster of the directory's chain is
    /// marked free: then the short slot of the file's entry records the
    /// first cluster and the size, and with data, the chain from that
    /// first cluster holds the data, padded with zero bytes to whole
    /// clusters; the two chains still share no cluster, and still no
    /// cluster of the directory's chain is marked free.
    pub open spec fn syncs(
        &self,
        path: Seq<char>,
        old_cluster: u32,
        data: Seq<u8>,
        r: VfsResult<()>,
        after: &Self,
    ) -> bool {
        let parts = segments(path, '/');
        let parent = self.inner.parent_of(parts)->0;
        let found = lookup_in(self.inner.listing(parent), lowercase_of(parts.last()));
        let slot = (found->0).offset + 32 * ((found->0).count - 1);
        let size = self.inner.bpb.cluster_bytes();
        let length = (data.len() % 0x1_0000_0000) as u32;
        &&& after.inner.wf()
        &&& after.inner.bpb == self.inner.bpb
        &&& self.inner.parent_of(parts) is None ==> r == Err::<(), VfsError>(
            VfsError::InvalidPath,
        ) && after.inner.device.sectors() == self.inner.device.sectors()
        &&& r == Err::<(), VfsError>(VfsError::NotFound) ==> self.inner.parent_of(parts) is Some
            && found is None && after.inner.device.sectors() == self.inner.device.sectors()
        &&& r is Ok ==> self.inner.parent_of(parts) is Some && found is Some
        &&& r matches Err(e) ==> e == VfsError::InvalidPath || e == VfsError::NotFound || e
            == VfsError::IoError
        &&& r == Err::<(), VfsError>(VfsError::InvalidPath) ==> parts.len() != 1
            && after.inner.device.sectors() == self.inner.device.sectors()
        &&& self.inner.parent_of(parts) is Some && found is None ==> r is Err
            && after.inner.device.sectors() == self.inner.device.sectors()
        &&& self.inner.parent_of(parts) is Some && found is Some ==> !(r == Err::<(), VfsError>(
            VfsError::NotFound,
        ))
        &&& r is Ok && data.len() == 0 && self.inner.apart(parent, old_cluster) ==> {
            &&& after.inner.dir_data(parent) == overlay(
                self.inner.dir_data(parent),
                slot,
                (found->0).short.pointing(0, 0).bytes(),
            )
            &&& self.inner.freed(&after.inner, old_cluster)
        }
        &&& r is Ok && data.len() > 0 && self.inner.apart(parent, old_cluster)
            && self.inner.well_ended(parent) ==> exists|first: u32|
            {
                &&& old_cluster >= 2 ==> first == old_cluster
                &&& #[trigger] after.inner.chain(first) is Some
                &&& (after.inner.chain(first)->0).len() == clusters_needed(data.len() as int, size)
                &&& after.inner.clusters_data(after.inner.chain(first)->0) == padded(
                    data,
                    clusters_needed(data.len() as int, size) * size,
                )
                &&& after.inner.dir_data(parent) == overlay(
                    self.inner.dir_data(parent),
                    slot,
                    (found->0).short.pointing(first, length).bytes(),
                )
                &&& after.inner.apart(parent, first)
                &&& after.inner.well_ended(parent)
            }
    }

    /// Writes the bytes of a file back: its chain, then the cluster and
    /// size in its directory entry. An empty file gives its chain up.
    pub fn sync_file(&mut self, path: &str, old_cluster: u32, data: &[u8]) -> (r: VfsResult<()>)
        requires
            old(self).inner.wf(),
        ensures
            old(self).syncs(path@, old_cluster, data@, r, final(self)),
    {
        let (parent_cluster, name) = match self.inner.split_path(path) {
            Ok(v) => v,
            Err(_) => {
                return Err(VfsError::InvalidPath);
            },
        };
        let entry = match entry_found(self.inner.find_in_directory(parent_cluster, name.as_str())) {
            Ok(e) => e,
            Err(e) => {
                return Err(e);
            },
        };
        let new_cluster: u32 = if data.len() == 0 {
            if old_cluster >= 2 {
                match self.inner.free_chain(old_cluster) {
                    Ok(()) => {},
                    Err(_) => {
                        return Err(VfsError::IoError);
                    },
                }
            }
            proof {
                old(self).inner.lemma_apart_kept(&self.inner, parent_cluster, old_cluster);
            }
            0
        } else {
            match self.inner.write_chain(old_cluster, data) {
                Ok(c) => c,
                Err(_) => {
                    return Err(VfsError::IoError);
                },
            }
        };
        let ghost mid = self.inner;
        let ghost apart = old(self).inner.apart(parent_cluster, old_cluster)
            && old(self).inner.well_ended(parent_cluster);
        proof {
            if data@.len() > 0 && apart {
                old(self).inner.lemma_written_apart(&mid, parent_cluster, old_cluster, new_cluster);
            }
        }
        let mut updated_entry = entry;
        updated_entry.short_entry.set_cluster(new_cluster);
        updated_entry.short_entry.size = ((data.len() as u64) % 0x1_0000_0000) as u32;
        proof {
            assert(updated_entry.short_entry == entry.short_entry.pointing(
                new_cluster,
                (data@.len() % 0x1_0000_0000) as u32,
            ));
        }
        match self.inner.update_dir_entry(parent_cluster, &updated_entry) {
            Ok(()) => {
                proof {
                    if data@.len() == 0 && old(self).inner.apart(parent_cluster, old_cluster) {
                        old(self).inner.lemma_freed_kept(
                            &mid,
                            &self.inner,
                            parent_cluster,
                            old_cluster,
                        );
                    }
                    if data@.len() > 0 && apart {
                        let kept = mid.chain(parent_cluster)->0;
                        let file = mid.chain(new_cluster)->0;
                        mid.lemma_chain_kept(
                            &self.inner,
                            new_cluster,
                            CHAIN_LIMIT as nat,
                            kept.to_set(),
                            kept.to_set(),
                        );
                        assert(self.inner.chain(new_cluster) is Some);
                    }
                }
                Ok(())
            },
            Err(_) => Err(VfsError::IoError),
        }
    }

    /// Whether closing `handle` may give `r` and leave the volume as `after`.
    pub open spec fn closes(&self, handle: FatFileHandle, r: VfsResult<()>, after: &Self) -> bool {
        if handle.dirty {
            self.syncs(handle.path@, handle.cluster, handle.data@, r, after)
        } else {
            r is Ok && *after == *self
        }
    }

    /// Closes a file: when it was written to, its bytes are written back.
    pub fn close(&mut self, handle: FatFileHandle) -> (r: VfsResult<()>)
        requires
            old(self).inner.wf(),
        ensures
            old(self).closes(handle, r, final(self)),
    {
        if handle.dirty {
            self.sync_file(handle.path.as_str(), handle.cluster, handle.data.as_slice())
        } else {
            Ok(())
        }
    }
}

/// Whether `e` is the entry with the name field `name` that links a
/// directory to the directory at `cluster`.
pub open spec fn links(e: ShortDirEntry, name: Seq<u8>, cluster: u32) -> bool {
    &&& e.name@ == name
    &&& e.attr == ATTR_DIRECTORY
    &&& e.cluster_spec() == cluster
    &&& e.size == 0
}

/// The name field of the entry `.`.
pub open spec fn dot_name() -> Seq<u8> {
    seq![46u8, 32u8, 32u8, 32u8, 32u8, 32u8, 32u8, 32u8, 32u8, 32u8, 32u8]
}

/// The name field of the entry `..`.
pub open spec fn dotdot_name() -> Seq<u8> {
    seq![46u8, 46u8, 32u8, 32u8, 32u8, 32u8, 32u8, 32u8, 32u8, 32u8, 32u8]
}

/// Whether `data` is the bytes of a new directory at cluster `own` in the
/// directory at `parent`: the entry `.` for itself, the entry `..` for
/// the directory that holds it, and zero bytes after them.
pub open spec fn fresh_dir(data: Seq<u8>, own: u32, parent: u32) -> bool {
    &&& data.len() >= 64
    &&& exists|dot: ShortDirEntry, dotdot: ShortDirEntry|
        #![trigger dot.bytes(), dotdot.bytes()]
        {
            &&& links(dot, dot_name(), own)
            &&& links(dotdot, dotdot_name(), parent)
            &&& slot(data, 0) == dot.bytes()
            &&& slot(data, 1) == dotdot.bytes()
        }
    &&& forall|k: int| 64 <= k < data.len() ==> data[k] == 0
}

/// A new directory lists nothing: its entries `.` and `..` are not
/// listed, and what follows them ends the directory.
pub proof fn lemma_fresh_dir_lists_nothing(data: Seq<u8>, own: u32, parent: u32)
    requires
        fresh_dir(data, own, parent),
    ensures
        dir_entries(data).len() == 0,
{
    let (dot, dotdot) = choose|dot: ShortDirEntry, dotdot: ShortDirEntry|
        #![trigger dot.bytes(), dotdot.bytes()]
        {
            &&& links(dot, dot_name(), own)
            &&& links(dotdot, dotdot_name(), parent)
            &&& slot(data, 0) == dot.bytes()
            &&& slot(data, 1) == dotdot.bytes()
        };
    dot.lemma_decode_encoded();
    dotdot.lemma_decode_encoded();
    lemma_short_of(dot, slot(data, 0));
    lemma_short_of(dotdot, slot(data, 1));
    let none = Seq::<LfnEntry>::empty();
    let acc = Seq::<DirEntryView>::empty();
    assert(16u8 & 8u8 == 0u8) by (bit_vector);
    assert(slot(data, 0)[0] == dot.name@[0] && slot(data, 0)[11] == dot.attr) by {
        assert(dot.name@ == slot(data, 0).subrange(0, 11));
        assert(slot(data, 0).subrange(0, 11)[0] == slot(data, 0)[0]);
    }
    assert(slot(data, 1)[0] == dotdot.name@[0] && slot(data, 1)[11] == dotdot.attr) by {
        assert(dotdot.name@ == slot(data, 1).subrange(0, 11));
        assert(slot(data, 1).subrange(0, 11)[0] == slot(data, 1)[0]);
    }
    assert(!is_listed(dot)) by {
        reveal_with_fuel(padded_text, 3);
        let base = dot_name().subrange(0, 8);
        let ext = dot_name().subrange(8, 11);
        assert(base[0] == 46 && base.drop_first()[0] == 32);
        assert(ext[0] == 32);
        assert(padded_text(ext) =~= Seq::<char>::empty());
        assert(padded_text(base) =~= seq!['.']);
    }
    assert(!is_listed(dotdot)) by {
        reveal_with_fuel(padded_text, 4);
        let base = dotdot_name().subrange(0, 8);
        let ext = dotdot_name().subrange(8, 11);
        assert(base[0] == 46 && base.drop_first()[0] == 46 && base.drop_first().drop_first()[0]
            == 32);
        assert(ext[0] == 32);
        assert(padded_text(ext) =~= Seq::<char>::empty());
        assert(padded_text(base) =~= seq!['.', '.']);
    }
    assert(scan_dir(data, 2, none, 0, acc) == acc) by {
        if 96 <= data.len() {
            assert(slot(data, 2)[0] == data[64]);
        }
    }
    assert(scan_dir(data, 1, none, 0, acc) == scan_dir(data, 2, none, 0, acc));
    assert(scan_dir(data, 0, none, 0, acc) == scan_dir(data, 1, none, 0, acc));
}

/// What the lookup of a name says to the making of something of that
/// name: a name that is not found may be made, one that is found exists
/// already, and a lookup that failed is an I/O error.
pub fn name_is_new(found: Result<Option<FatDirEntry>, &'static str>) -> (r: VfsResult<()>)
    ensures
        r == match found {
            Ok(None) => Ok::<(), VfsError>(()),
            Ok(Some(_)) => Err::<(), VfsError>(VfsError::AlreadyExists),
            Err(_) => Err::<(), VfsError>(VfsError::IoError),
        },
{
    match found {
        Ok(None) => Ok(()),
        Ok(Some(_)) => Err(VfsError::AlreadyExists),
        Err(_) => Err(VfsError::IoError),
    }
}

/// What the lookup of a name says to a change of its entry: the entry, or
/// that nothing is found, or that the lookup failed.
pub fn entry_found(found: Result<Option<FatDirEntry>, &'static str>) -> (r: VfsResult<
    FatDirEntry,
>)
    ensures
        match found {
            Err(_) => r == Err::<FatDirEntry, VfsError>(VfsError::IoError),
            Ok(None) => r == Err::<FatDirEntry, VfsError>(VfsError::NotFound),
            Ok(Some(e)) => r == Ok::<FatDirEntry, VfsError>(e),
        },
{
    match found {
        Err(_) => Err(VfsError::IoError),
        Ok(None) => Err(VfsError::NotFound),
        Ok(Some(e)) => Ok(e),
    }
}

/// What the lookup of a name says to the removal of a file: the entry of
/// the file, or that nothing is found, that a directory is found, or that
/// the lookup failed.
pub fn file_to_remove(found: Result<Option<FatDirEntry>, &'static str>) -> (r: VfsResult<
    FatDirEntry,
>)
    ensures
        match found {
            Err(_) => r == Err::<FatDirEntry, VfsError>(VfsError::IoError),
            Ok(None) => r == Err::<FatDirEntry, VfsError>(VfsError::NotFound),
            Ok(Some(e)) => if e@.short.attr & ATTR_DIRECTORY != 0 {
                r == Err::<FatDirEntry, VfsError>(VfsError::IsADirectory)
            } else {
                r == Ok::<FatDirEntry, VfsError>(e)
            },
        },
{
    match found {
        Err(_) => Err(VfsError::IoError),
        Ok(None) => Err(VfsError::NotFound),
        Ok(Some(e)) => {
            if e.is_directory() {
                Err(VfsError::IsADirectory)
            } else {
                Ok(e)
            }
        },
    }
}

/// What the lookup of a name says to the removal of a directory: the
/// entry of the directory, or that nothing is found, that a file is
/// found, or that the lookup failed.
pub fn dir_to_remove(found: Result<Option<FatDirEntry>, &'static str>) -> (r: VfsResult<
    FatDirEntry,
>)
    ensures
        match found {
            Err(_) => r == Err::<FatDirEntry, VfsError>(VfsError::IoError),
            Ok(None) => r == Err::<FatDirEntry, VfsError>(VfsError::NotFound),
            Ok(Some(e)) => if e@.short.attr & ATTR_DIRECTORY == 0 {
                r == Err::<FatDirEntry, VfsError>(VfsError::NotADirectory)
            } else {
                r == Ok::<FatDirEntry, VfsError>(e)
            },
        },
{
    match found {
        Err(_) => Err(VfsError::IoError),
        Ok(None) => Err(VfsError::NotFound),
        Ok(Some(e)) => {
            if !e.is_directory() {
                Err(VfsError::NotADirectory)
            } else {
                Ok(e)
            }
        },
    }
}

/// What the entries read from a directory say to its removal: only a
/// directory without entries is removed, and a read that failed is an
/// I/O error.
pub fn holds_nothing(entries: Result<Vec<FatDirEntry>, &'static str>) -> (r: VfsResult<()>)
    ensures
        r == match entries {
            Err(_) => Err::<(), VfsError>(VfsError::IoError),
            Ok(v) => if v@.len() > 0 {
                Err::<(), VfsError>(VfsError::NotEmpty)
            } else {
                Ok::<(), VfsError>(())
            },
        },
{
    match entries {
        Err(_) => Err(VfsError::IoError),
        Ok(v) => {
            if v.len() > 0 {
                Err(VfsError::NotEmpty)
            } else {
                Ok(())
            }
        },
    }
}

/// The listing entries that directory entries are shown as.
pub open spec fn to_listing(entries: Seq<DirEntryView>) -> Seq<DirEntryModel> {
    Seq::new(entries.len(), |i: int| listed(entries[i]))
}

impl<D: BlockDevice> Fat32Fs<D> {
    /// Whether `h` is what opening the existing file `e` at `path` with
    /// `flags` gives: the bytes of the file, none of them with `O_TRUNC`;
    /// the position at the end of the bytes read with `O_APPEND`, else at
    /// the start; and the handle marked for writing back with `O_TRUNC`.
    pub open spec fn opens_file(
        &self,
        h: FatFileHandle,
        path: Seq<char>,
        flags: OpenFlags,
        e: DirEntryView,
    ) -> bool {
        &&& h.path@ == path
        &&& h.flags == flags
        &&& h.cluster == e.short.cluster_spec()
        &&& h.size == e.short.size
        &&& h.dirty == flags.contains_spec(OpenFlags(O_TRUNC))
        &&& h.data@ == if flags.contains_spec(OpenFlags(O_TRUNC)) {
            Seq::<u8>::empty()
        } else {
            self.file_bytes(e)
        }
        &&& h.position == if flags.contains_spec(OpenFlags(O_APPEND)) {
            self.file_bytes(e).len()
        } else {
            0
        }
    }

    /// Whether `h` is the handle of a file just created at `path`.
    pub open spec fn opens_new(h: FatFileHandle, path: Seq<char>, flags: OpenFlags) -> bool {
        &&& h.path@ == path
        &&& h.flags == flags
        &&& h.cluster == 0
        &&& h.size == 0
        &&& !h.dirty
        &&& h.data@.len() == 0
        &&& h.position == 0
    }

    /// Opens the file that `entry` describes.
    fn open_existing(&self, path: &str, entry: &FatDirEntry, flags: OpenFlags) -> (r: VfsResult<
        FatFileHandle,
    >)
        requires
            self.inner.wf(),
        ensures
            entry@.short.attr & ATTR_DIRECTORY != 0 ==> r == Err::<FatFileHandle, VfsError>(
                VfsError::IsADirectory,
            ),
            r matches Ok(h) ==> entry@.short.attr & ATTR_DIRECTORY == 0 && self.opens_file(
                h,
                path@,
                flags,
                entry@,
            ),
            r matches Err(e) ==> e == VfsError::IsADirectory || e == VfsError::IoError,
            r == Err::<FatFileHandle, VfsError>(VfsError::IsADirectory) ==> entry@.short.attr
                & ATTR_DIRECTORY != 0,
    {
        if entry.is_directory() {
            return Err(VfsError::IsADirectory);
        }
        let cluster = entry.cluster();
        let data: Vec<u8> = if cluster >= 2 {
            let mut d = match self.inner.read_chain(cluster) {
                Ok(d) => d,
                Err(_) => {
                    return Err(VfsError::IoError);
                },
            };
            let size = entry.size() as usize;
            if size < d.len() {
                d.truncate(size);
            }
            assert(d@ =~= self.file_bytes(entry@));
            d
        } else {
            Vec::new()
        };
        let position: usize = if flags.has(O_APPEND) {
            data.len()
        } else {
            0
        };
        let data: Vec<u8> = if flags.has(O_TRUNC) {
            Vec::new()
        } else {
            data
        };
        Ok(
            FatFileHandle {
                path: path.to_owned(),
                cluster,
                size: entry.size(),
                position,
                data,
                dirty: flags.has(O_TRUNC),
                flags,
            },
        )
    }

    /// Creates an empty file at `path` and opens it.
    fn create_file(&mut self, path: &str, flags: OpenFlags) -> (r: VfsResult<FatFileHandle>)
        requires
            old(self).inner.wf(),
        ensures
            final(self).inner.wf(),
            final(self).inner.bpb == old(self).inner.bpb,
            old(self).inner.parent_of(segments(path@, '/')) is None ==> r == Err::<
                FatFileHandle,
                VfsError,
            >(VfsError::InvalidPath),
            r matches Err(e) ==> e == VfsError::InvalidPath || e == VfsError::IoError,
            r == Err::<FatFileHandle, VfsError>(VfsError::InvalidPath) ==> final(self).inner.device.sectors() == old(self).inner.device.sectors(),
            old(self).inner.parent_of(segments(path@, '/')) is Some && lookup_in(
                old(self).inner.listing(old(self).inner.parent_of(segments(path@, '/'))->0),
                lowercase_of(segments(path@, '/').last()),
            ) is Some ==> r is Err && final(self).inner.device.sectors() == old(self).inner.device.sectors(),
            r matches Ok(h) ==> {
                let parts = segments(path@, '/');
                let parent = old(self).inner.parent_of(parts)->0;
                &&& Self::opens_new(h, path@, flags)
                &&& old(self).inner.parent_of(parts) is Some
                &&& lookup_in(old(self).inner.listing(parent), lowercase_of(parts.last())) is None
                &&& final(self).inner.chain(parent) is Some
                &&& final(self).inner.well_ended(parent)
                &&& final(self).inner.dir_data(parent) == with_entry(
                    old(self).inner.dir_data(parent),
                    old(self).inner.bpb.cluster_bytes(),
                    name_slots(
                        parts.last(),
                        short_name_bytes(
                            parts.last(),
                            uppercase_of(parts.last()),
                        ),
                        needs_lfn_spec(parts.last()),
                        ATTR_ARCHIVE,
                        0,
                        0,
                    ),
                )
                &&& listable(old(self).inner.dir_data(parent), parts.last()) ==> lists_entry(
                    final(self).inner.listing(parent),
                    parts.last(),
                    ATTR_ARCHIVE,
                    0,
                    0,
                )
                &&& addable(old(self).inner.dir_data(parent), parts.last()) ==> one_more(
                    old(self).inner.listing(parent),
                    final(self).inner.listing(parent),
                    parts.last(),
                    fresh_short_slot(
                        short_name_bytes(parts.last(), uppercase_of(parts.last())),
                        ATTR_ARCHIVE,
                        0,
                        0,
                    ),
                )
            },
    {
        proof {
            assert(ATTR_ARCHIVE & ATTR_VOLUME_ID == 0) by (bit_vector)
                requires
                    ATTR_ARCHIVE == 0x20u8,
                    ATTR_VOLUME_ID == 0x08u8,
            ;
        }
        let (parent_cluster, name) = match self.inner.split_path(path) {
            Ok(v) => v,
            Err(_) => {
                return Err(VfsError::InvalidPath);
            },
        };
        match self.inner.find_in_directory(parent_cluster, name.as_str()) {
            Ok(None) => {},
            _ => {
                return Err(VfsError::IoError);
            },
        }
        match self.inner.add_dir_entry(parent_cluster, name.as_str(), ATTR_ARCHIVE, 0, 0) {
            Ok(()) => {},
            Err(_) => {
                return Err(VfsError::IoError);
            },
        }
        Ok(
            FatFileHandle {
                path: path.to_owned(),
                cluster: 0,
                size: 0,
                position: 0,
                data: Vec::new(),
                dirty: false,
                flags,
            },
        )
    }
}

impl<D: BlockDevice> Filesystem for Fat32Fs<D> {
    type Handle = FatFileHandle;

    open spec fn wf(&self) -> bool {
        self.inner.wf()
    }

    /// Whether opening `path` with `flags` may give `r` and leave the
    /// volume as `after`. A file that is found is opened with its bytes;
    /// one that is not found is created with `O_CREAT`, in the directory
    /// that holds its name, and is not found without. The directory
    /// lists a file that was created where its name is listable, and
    /// where the name is addable it lists what it listed before and that
    /// one entry more; no cluster of its chain is marked free then.
    open spec fn opens(
        &self,
        path: Seq<char>,
        flags: OpenFlags,
        r: VfsResult<FatFileHandle>,
        after: &Self,
    ) -> bool {
        let parts = segments(path, '/');
        let target = self.inner.resolved(path);
        let parent = self.inner.parent_of(parts)->0;
        &&& after.inner.bpb == self.inner.bpb
        &&& r matches Err(e) ==> e == VfsError::NotFound || e == VfsError::IsADirectory || e
            == VfsError::InvalidPath || e == VfsError::IoError
        &&& target is None && !flags.contains_spec(OpenFlags(O_CREAT)) ==> r == Err::<
            FatFileHandle,
            VfsError,
        >(VfsError::NotFound)
        &&& parts.len() == 0 ==> r == Err::<FatFileHandle, VfsError>(
            if flags.contains_spec(OpenFlags(O_CREAT)) {
                VfsError::InvalidPath
            } else {
                VfsError::NotFound
            },
        ) && after.inner.device.sectors() == self.inner.device.sectors()
        &&& parts.len() > 0 && target is Some && ((target->0).1->0).short.attr & ATTR_DIRECTORY
            != 0 ==> {
            &&& after.inner.device.sectors() == self.inner.device.sectors()
            &&& if flags.contains_spec(OpenFlags(O_CREAT)) {
                r == Err::<FatFileHandle, VfsError>(VfsError::IsADirectory) || r == Err::<
                    FatFileHandle,
                    VfsError,
                >(VfsError::InvalidPath) || r == Err::<FatFileHandle, VfsError>(VfsError::IoError)
            } else {
                r == Err::<FatFileHandle, VfsError>(VfsError::IsADirectory) || r == Err::<
                    FatFileHandle,
                    VfsError,
                >(VfsError::NotFound)
            }
        }
        &&& !flags.contains_spec(OpenFlags(O_CREAT)) && parts.len() > 0 && target is Some && ((
        target->0).1->0).short.attr & ATTR_DIRECTORY == 0 ==> r is Ok || r == Err::<
            FatFileHandle,
            VfsError,
        >(VfsError::NotFound) || r == Err::<FatFileHandle, VfsError>(VfsError::IoError)
        &&& !flags.contains_spec(OpenFlags(O_CREAT)) ==> after.inner.device.sectors()
            == self.inner.device.sectors()
        &&& r == Err::<FatFileHandle, VfsError>(VfsError::IsADirectory) ==> target is Some && (
        target->0).1 is Some && ((target->0).1->0).short.attr & ATTR_DIRECTORY != 0
        &&& r matches Ok(h) ==> {
            ||| {
                &&& target is Some
                &&& (target->0).1 is Some
                &&& self.opens_file(h, path, flags, (target->0).1->0)
                &&& after.inner.device.sectors() == self.inner.device.sectors()
            }
            ||| {
                &&& flags.contains_spec(OpenFlags(O_CREAT))
                &&& Self::opens_new(h, path, flags)
                &&& self.inner.parent_of(parts) is Some
                &&& lookup_in(self.inner.listing(parent), lowercase_of(parts.last())) is None
                &&& after.inner.chain(parent) is Some
                &&& after.inner.well_ended(parent)
                &&& after.inner.dir_data(parent) == with_entry(
                    self.inner.dir_data(parent),
                    self.inner.bpb.cluster_bytes(),
                    name_slots(
                        parts.last(),
                        short_name_bytes(parts.last(), uppercase_of(parts.last())),
                        needs_lfn_spec(parts.last()),
                        ATTR_ARCHIVE,
                        0,
                        0,
                    ),
                )
                &&& listable(self.inner.dir_data(parent), parts.last()) ==> lists_entry(
                    after.inner.listing(parent),
                    parts.last(),
                    ATTR_ARCHIVE,
                    0,
                    0,
                )
                &&& addable(self.inner.dir_data(parent), parts.last()) ==> one_more(
                    self.inner.listing(parent),
                    after.inner.listing(parent),
                    parts.last(),
                    fresh_short_slot(
                        short_name_bytes(parts.last(), uppercase_of(parts.last())),
                        ATTR_ARCHIVE,
                        0,
                        0,
                    ),
                )
            }
        }
    }

    /// Whether creating the directory `path` may give `r` and leave the
    /// volume as `after`.
    ///
    /// A path whose parent directory is not found is an invalid path, and
    /// for a path of more than one name so is a walk to the parent that
    /// the device fails; a path of one name is never invalid. A name that
    /// is found exists already. Where both the walk and the lookup
    /// succeed, any other failure is an I/O error. None of the failures
    /// but the I/O error changes the volume.
    ///
    /// A parent directory whose chain does not end with an end-of-chain
    /// mark is refused as an I/O error before anything is written: a
    /// cluster of such a chain could be handed out again. On success the
    /// lowest free cluster holds the new directory: the parent holds the
    /// new entry, and lists it where the name is listable; where the
    /// name is addable, it lists what it listed before and that one entry
    /// more. The new cluster is a chain of its own with the entries
    /// `.` and `..` and lists nothing.
    open spec fn makes_dir(&self, path: Seq<char>, r: VfsResult<()>, after: &Self) -> bool {
        let parts = segments(path, '/');
        let parent = self.inner.parent_of(parts)->0;
        let found = lookup_in(self.inner.listing(parent), lowercase_of(parts.last()));
        let same = after.inner.device.sectors() == self.inner.device.sectors();
        &&& after.inner.bpb == self.inner.bpb
        &&& r matches Err(e) ==> e == VfsError::InvalidPath || e == VfsError::AlreadyExists || e
            == VfsError::IoError
        &&& self.inner.parent_of(parts) is None ==> r == Err::<(), VfsError>(
            VfsError::InvalidPath,
        )
        &&& r == Err::<(), VfsError>(VfsError::InvalidPath) ==> parts.len() != 1 && same
        &&& r == Err::<(), VfsError>(VfsError::AlreadyExists) ==> self.inner.parent_of(parts)
            is Some && found is Some && same
        &&& self.inner.parent_of(parts) is Some && found is Some ==> r is Err && same
        &&& r is Ok ==> self.inner.parent_of(parts) is Some && found is None
            && self.inner.chain(parent) is Some
        &&& r is Ok ==> self.inner.well_ended(parent)
        &&& r is Ok ==> exists|c: u32| #[trigger]
            self.inner.lowest_free(c) && ({
                &&& after.inner.dir_data(parent) == with_entry(
                    self.inner.dir_data(parent),
                    self.inner.bpb.cluster_bytes(),
                    name_slots(
                        parts.last(),
                        short_name_bytes(parts.last(), uppercase_of(parts.last())),
                        needs_lfn_spec(parts.last()),
                        ATTR_DIRECTORY,
                        c,
                        0,
                    ),
                )
                &&& after.inner.chain(c) == Some(seq![c])
                &&& fresh_dir(after.inner.dir_data(c), c, parent)
                &&& after.inner.listing(c).len() == 0
                &&& listable(self.inner.dir_data(parent), parts.last()) ==> lists_entry(
                    after.inner.listing(parent),
                    parts.last(),
                    ATTR_DIRECTORY,
                    c,
                    0,
                )
                &&& addable(self.inner.dir_data(parent), parts.last()) ==> one_more(
                    self.inner.listing(parent),
                    after.inner.listing(parent),
                    parts.last(),
                    fresh_short_slot(
                        short_name_bytes(parts.last(), uppercase_of(parts.last())),
                        ATTR_DIRECTORY,
                        c,
                        0,
                    ),
                )
            })
    }


    /// Whether removing the file `path` may give `r` and leave the volume
    /// as `after`.
    ///
    /// A path whose parent directory is not found is an invalid path, and
    /// for a path of more than one name so is a walk to the parent that
    /// the device fails; a path of one name is never invalid. A name that
    /// is not found is not found, and a directory is refused as one.
    /// Where the walk and the lookup succeed, any other failure is an I/O
    /// error. None of the failures but the I/O error changes the volume.
    ///
    /// On success, where the chain of the file shares no cluster with the
    /// chain of the directory that holds it, the slots of its entry are
    /// marked as deleted there and the clusters of the file are free.
    open spec fn removes(&self, path: Seq<char>, r: VfsResult<()>, after: &Self) -> bool {
        let parts = segments(path, '/');
        let parent = self.inner.parent_of(parts)->0;
        let found = lookup_in(self.inner.listing(parent), lowercase_of(parts.last()));
        let same = after.inner.device.sectors() == self.inner.device.sectors();
        &&& after.inner.bpb == self.inner.bpb
        &&& r matches Err(e) ==> e == VfsError::InvalidPath || e == VfsError::NotFound || e
            == VfsError::IsADirectory || e == VfsError::IoError
        &&& self.inner.parent_of(parts) is None ==> r == Err::<(), VfsError>(
            VfsError::InvalidPath,
        )
        &&& r == Err::<(), VfsError>(VfsError::InvalidPath) ==> parts.len() != 1 && same
        &&& self.inner.parent_of(parts) is Some && !(r == Err::<(), VfsError>(
            VfsError::InvalidPath,
        )) && !(r == Err::<(), VfsError>(VfsError::IoError)) ==> match found {
            None => r == Err::<(), VfsError>(VfsError::NotFound) && same,
            Some(e) => if e.short.attr & ATTR_DIRECTORY != 0 {
                r == Err::<(), VfsError>(VfsError::IsADirectory) && same
            } else {
                r is Ok
            },
        }
        &&& self.inner.parent_of(parts) is Some && (found is None || (found->0).short.attr
            & ATTR_DIRECTORY != 0) ==> same
        &&& r is Ok && self.inner.apart(parent, (found->0).short.cluster_spec()) ==> {
            &&& after.inner.dir_data(parent) == with_deleted(
                self.inner.dir_data(parent),
                (found->0).offset,
                (found->0).count,
            )
            &&& self.inner.freed(&after.inner, (found->0).short.cluster_spec())
        }
    }

    /// Whether removing the directory `path` may give `r` and leave the
    /// volume as `after`.
    ///
    /// A path whose parent directory is not found is an invalid path, and
    /// for a path of more than one name so is a walk to the parent that
    /// the device fails; a path of one name is never invalid. A name that
    /// is not found is not found, a file is refused as no directory, and
    /// a directory that lists an entry is not empty. Where the walk, the
    /// lookup and the listing succeed, any other failure is an I/O error.
    /// None of the failures but the I/O error changes the volume.
    ///
    /// On success, where the chain of the directory shares no cluster
    /// with the chain of the directory that holds it, the slots of its
    /// entry are marked as deleted there and its clusters are free.
    open spec fn removes_dir(&self, path: Seq<char>, r: VfsResult<()>, after: &Self) -> bool {
        let parts = segments(path, '/');
        let parent = self.inner.parent_of(parts)->0;
        let found = lookup_in(self.inner.listing(parent), lowercase_of(parts.last()));
        let own = (found->0).short.cluster_spec();
        let same = after.inner.device.sectors() == self.inner.device.sectors();
        &&& after.inner.bpb == self.inner.bpb
        &&& r matches Err(e) ==> e == VfsError::InvalidPath || e == VfsError::NotFound || e
            == VfsError::NotADirectory || e == VfsError::NotEmpty || e == VfsError::IoError
        &&& self.inner.parent_of(parts) is None ==> r == Err::<(), VfsError>(
            VfsError::InvalidPath,
        )
        &&& r == Err::<(), VfsError>(VfsError::InvalidPath) ==> parts.len() != 1 && same
        &&& self.inner.parent_of(parts) is Some && !(r == Err::<(), VfsError>(
            VfsError::InvalidPath,
        )) && !(r == Err::<(), VfsError>(VfsError::IoError)) ==> match found {
            None => r == Err::<(), VfsError>(VfsError::NotFound) && same,
            Some(e) => if e.short.attr & ATTR_DIRECTORY == 0 {
                r == Err::<(), VfsError>(VfsError::NotADirectory) && same
            } else if self.inner.listing(own).len() > 0 {
                r == Err::<(), VfsError>(VfsError::NotEmpty) && same
            } else {
                r is Ok
            },
        }
        &&& self.inner.parent_of(parts) is Some && (found is None || (found->0).short.attr
            & ATTR_DIRECTORY == 0 || self.inner.chain(own) is None || self.inner.listing(
            own,
        ).len() > 0) ==> r is Err && same
        &&& r is Ok && self.inner.apart(parent, own) ==> {
            &&& after.inner.dir_data(parent) == with_deleted(
                self.inner.dir_data(parent),
                (found->0).offset,
                (found->0).count,
            )
            &&& self.inner.freed(&after.inner, own)
        }
    }

    /// Whether listing the directory `path` may give `r`: the entries of
    /// the directory in the order of its slots. A path without names is
    /// the root directory.
    open spec fn lists(&self, path: Seq<char>, r: VfsResult<Vec<DirEntry>>) -> bool {
        let parts = segments(path, '/');
        let target = self.inner.resolved(path);
        let cluster = if parts.len() == 0 {
            self.inner.bpb.root_cluster
        } else {
            ((target->0).1->0).short.cluster_spec()
        };
        &&& parts.len() > 0 && target is None ==> r == Err::<Vec<DirEntry>, VfsError>(
            VfsError::NotFound,
        )
        &&& r matches Err(e) ==> e == VfsError::NotFound || e == VfsError::NotADirectory || e
            == VfsError::IoError
        &&& parts.len() == 0 ==> r is Ok || r == Err::<Vec<DirEntry>, VfsError>(VfsError::IoError)
        &&& parts.len() > 0 && target is Some && ((target->0).1->0).short.attr & ATTR_DIRECTORY
            == 0 ==> r == Err::<Vec<DirEntry>, VfsError>(VfsError::NotADirectory) || r == Err::<
            Vec<DirEntry>,
            VfsError,
        >(VfsError::NotFound)
        &&& parts.len() > 0 && target is Some && ((target->0).1->0).short.attr & ATTR_DIRECTORY
            != 0 ==> !(r == Err::<Vec<DirEntry>, VfsError>(VfsError::NotADirectory))
        &&& r matches Ok(list) ==> {
            &&& parts.len() > 0 ==> target is Some && (target->0).1 is Some && ((
            target->0).1->0).short.attr & ATTR_DIRECTORY != 0
            &&& self.inner.chain(cluster) is Some
            &&& listing_view(list@) == to_listing(self.inner.listing(cluster))
        }
        &&& r == Err::<Vec<DirEntry>, VfsError>(VfsError::NotADirectory) ==> target is Some && (
        target->0).1 is Some && ((target->0).1->0).short.attr & ATTR_DIRECTORY == 0
    }

    /// Whether asking for what is known of `path` may give `r`: the kind
    /// and the size that the entry at the path records. A path without
    /// names is the root directory.
    open spec fn describes(&self, path: Seq<char>, r: VfsResult<Metadata>) -> bool {
        let parts = segments(path, '/');
        let target = self.inner.resolved(path);
        &&& parts.len() == 0 ==> r == Ok::<Metadata, VfsError>(
            Metadata { file_type: FileType::Directory, size: 0 },
        )
        &&& parts.len() > 0 && target is None ==> r == Err::<Metadata, VfsError>(
            VfsError::NotFound,
        )
        &&& r is Err ==> r == Err::<Metadata, VfsError>(VfsError::NotFound)
        &&& r matches Ok(m) ==> (parts.len() > 0 ==> target is Some && (target->0).1 is Some && m
            == (Metadata {
            file_type: listed((target->0).1->0).file_type,
            size: ((target->0).1->0).short.size as usize,
        }))
    }

    /// Opens the file at `path`. With `O_CREAT` a file that is not found
    /// is created in the directory that holds its name.
    fn open(&mut self, path: &str, flags: OpenFlags) -> (r: VfsResult<FatFileHandle>) {
        proof {
            if segments(path@, '/').len() > 0 && self.inner.resolved(path@) is Some {
                self.inner.lemma_resolved_parent(path@);
            }
        }
        match self.inner.resolve_path(path) {
            Ok((_, Some(entry))) => self.open_existing(path, &entry, flags),
            Ok((_, None)) => {
                if !flags.has(O_CREAT) {
                    Err(VfsError::NotFound)
                } else {
                    Err(VfsError::InvalidPath)
                }
            },
            Err(_) => {
                if !flags.has(O_CREAT) {
                    Err(VfsError::NotFound)
                } else {
                    self.create_file(path, flags)
                }
            },
        }
    }

    /// Creates the directory at `path`: a cluster that holds the entries
    /// `.` and `..`, and an entry in the directory that holds its name.
    fn mkdir(&mut self, path: &str) -> (r: VfsResult<()>) {
        proof {
            assert(ATTR_DIRECTORY & ATTR_VOLUME_ID == 0) by (bit_vector)
                requires
                    ATTR_DIRECTORY == 0x10u8,
                    ATTR_VOLUME_ID == 0x08u8,
            ;
        }
        let (parent_cluster, name) = match self.inner.split_path(path) {
            Ok(v) => v,
            Err(_) => {
                return Err(VfsError::InvalidPath);
            },
        };
        match name_is_new(self.inner.find_in_directory(parent_cluster, name.as_str())) {
            Ok(()) => {},
            Err(e) => {
                return Err(e);
            },
        }
        match self.inner.get_last_cluster(parent_cluster) {
            Ok(_) => {},
            Err(_) => {
                return Err(VfsError::IoError);
            },
        }
        proof {
            self.inner.lemma_ended_chain_is_used(parent_cluster);
        }
        let dir_cluster = match self.inner.allocate_cluster() {
            Ok(c) => c,
            Err(_) => {
                return Err(VfsError::IoError);
            },
        };
        let ghost fresh = self.inner;
        let cluster_size: usize = self.inner.bpb.bytes_per_cluster();
        let mut dir_data: Vec<u8> = vec![0u8; cluster_size];
        let own_name: [u8; 11] = [46, 32, 32, 32, 32, 32, 32, 32, 32, 32, 32];
        let parent_name: [u8; 11] = [46, 46, 32, 32, 32, 32, 32, 32, 32, 32, 32];
        let dot_entry = ShortDirEntry::with_name(own_name, ATTR_DIRECTORY, dir_cluster, 0);
        put_slot(&mut dir_data, 0, &dot_entry.serialize());
        let dotdot_entry = ShortDirEntry::with_name(parent_name, ATTR_DIRECTORY, parent_cluster, 0);
        put_slot(&mut dir_data, 32, &dotdot_entry.serialize());
        let ghost block = dir_data@;
        proof {
            assert(slot(block, 0) =~= dot_entry.bytes());
            assert(slot(block, 1) =~= dotdot_entry.bytes());
            assert(own_name@ =~= dot_name());
            assert(parent_name@ =~= dotdot_name());
            assert(links(dot_entry, dot_name(), dir_cluster));
            assert(links(dotdot_entry, dotdot_name(), parent_cluster));
            assert(fresh_dir(block, dir_cluster, parent_cluster));
            lemma_fresh_dir_lists_nothing(block, dir_cluster, parent_cluster);
            assert(block.subrange(0, cluster_size as int) =~= block);
        }
        match self.inner.write_cluster(dir_cluster, dir_data.as_slice()) {
            Ok(()) => {},
            Err(_) => {
                return Err(VfsError::IoError);
            },
        }
        let ghost ready = self.inner;
        proof {
            if !(old(self).inner.chain(parent_cluster)->0).contains(dir_cluster) {
                let cs = old(self).inner.chain(parent_cluster)->0;
                let only = set![dir_cluster];
                fresh.lemma_cluster_write(&ready, dir_cluster);
                old(self).inner.lemma_same_except_join(
                    &fresh,
                    &ready,
                    only,
                    only,
                    Set::empty(),
                    only,
                    only,
                    only,
                );
                old(self).inner.lemma_chain_kept(
                    &ready,
                    parent_cluster,
                    CHAIN_LIMIT as nat,
                    only,
                    only,
                );
                assert(old(self).inner.lowest_free(dir_cluster));
            }
        }
        match self.inner.add_dir_entry(parent_cluster, name.as_str(), ATTR_DIRECTORY, dir_cluster, 0) {
            Ok(()) => {
                proof {
                    if !(old(self).inner.chain(parent_cluster)->0).contains(dir_cluster) {
                        ready.lemma_new_cluster_kept(
                            &old(self).inner,
                            &self.inner,
                            parent_cluster,
                            dir_cluster,
                        );
                    }
                }
                Ok(())
            },
            Err(_) => Err(VfsError::IoError),
        }
    }

    /// Removes the file at `path`: its chain is freed and the slots of
    /// its entry are marked as deleted.
    fn remove(&mut self, path: &str) -> (r: VfsResult<()>) {
        let (parent_cluster, name) = match self.inner.split_path(path) {
            Ok(v) => v,
            Err(_) => {
                return Err(VfsError::InvalidPath);
            },
        };
        let entry = match file_to_remove(
            self.inner.find_in_directory(parent_cluster, name.as_str()),
        ) {
            Ok(e) => e,
            Err(e) => {
                return Err(e);
            },
        };
        if entry.cluster() >= 2 {
            match self.inner.free_chain(entry.cluster()) {
                Ok(()) => {},
                Err(_) => {
                    return Err(VfsError::IoError);
                },
            }
        }
        let ghost mid = self.inner;
        proof {
            old(self).inner.lemma_apart_kept(&mid, parent_cluster, entry@.short.cluster_spec());
        }
        match self.inner.remove_dir_entry(parent_cluster, &entry) {
            Ok(()) => {
                proof {
                    if old(self).inner.apart(parent_cluster, entry@.short.cluster_spec()) {
                        old(self).inner.lemma_freed_kept(
                            &mid,
                            &self.inner,
                            parent_cluster,
                            entry@.short.cluster_spec(),
                        );
                    }
                }
                Ok(())
            },
            Err(_) => Err(VfsError::IoError),
        }
    }

    /// Removes the directory at `path`, which must have no entries.
    fn rmdir(&mut self, path: &str) -> (r: VfsResult<()>) {
        let (parent_cluster, name) = match self.inner.split_path(path) {
            Ok(v) => v,
            Err(_) => {
                return Err(VfsError::InvalidPath);
            },
        };
        let entry = match dir_to_remove(
            self.inner.find_in_directory(parent_cluster, name.as_str()),
        ) {
            Ok(e) => e,
            Err(e) => {
                return Err(e);
            },
        };
        match holds_nothing(self.inner.read_directory(entry.cluster())) {
            Ok(()) => {},
            Err(e) => {
                return Err(e);
            },
        }
        match self.inner.free_chain(entry.cluster()) {
            Ok(()) => {},
            Err(_) => {
                return Err(VfsError::IoError);
            },
        }
        let ghost mid = self.inner;
        proof {
            old(self).inner.lemma_apart_kept(&mid, parent_cluster, entry@.short.cluster_spec());
        }
        match self.inner.remove_dir_entry(parent_cluster, &entry) {
            Ok(()) => {
                proof {
                    if old(self).inner.apart(parent_cluster, entry@.short.cluster_spec()) {
                        old(self).inner.lemma_freed_kept(
                            &mid,
                            &self.inner,
                            parent_cluster,
                            entry@.short.cluster_spec(),
                        );
                    }
                }
                Ok(())
            },
            Err(_) => Err(VfsError::IoError),
        }
    }

    /// Lists the directory at `path`; a path without names is the root.
    fn readdir(&self, path: &str) -> (r: VfsResult<Vec<DirEntry>>) {
        proof {
            if segments(path@, '/').len() > 0 && self.inner.resolved(path@) is Some {
                self.inner.lemma_resolved_parent(path@);
            }
        }
        let chars = chars_of(path);
        let parts = split_segments(chars.as_slice(), '/');
        let cluster: u32 = if parts.len() == 0 {
            self.inner.bpb.root_cluster
        } else {
            match self.inner.resolve_path(path) {
                Ok((_, Some(entry))) => {
                    if !entry.is_directory() {
                        return Err(VfsError::NotADirectory);
                    }
                    entry.cluster()
                },
                _ => {
                    return Err(VfsError::NotFound);
                },
            }
        };
        let entries = match self.inner.read_directory(cluster) {
            Ok(e) => e,
            Err(_) => {
                return Err(VfsError::IoError);
            },
        };
        let mut list: Vec<DirEntry> = Vec::new();
        let mut i: usize = 0;
        let ghost shown = self.inner.listing(cluster);
        while i < entries.len()
            invariant
                i <= entries@.len(),
                crate::vfs::fat32::dir::views(entries@) == shown,
                list@.len() == i,
                forall|j: int| 0 <= j < i ==> (#[trigger] list@[j])@ == listed(shown[j]),
            decreases entries@.len() - i,
        {
            let e = &entries[i];
            let file_type = if e.is_directory() {
                FileType::Directory
            } else {
                FileType::File
            };
            assert(shown[i as int] == e@);
            list.push(DirEntry { name: e.name.clone(), file_type });
            i += 1;
        }
        assert(listing_view(list@) =~= to_listing(shown));
        Ok(list)
    }

    /// What is known of the file or directory at `path`; a path without
    /// names is the root directory.
    fn metadata(&self, path: &str) -> (r: VfsResult<Metadata>) {
        let chars = chars_of(path);
        let parts = split_segments(chars.as_slice(), '/');
        if parts.len() == 0 {
            return Ok(Metadata { file_type: FileType::Directory, size: 0 });
        }
        match self.inner.resolve_path(path) {
            Ok((_, Some(entry))) => Ok(
                Metadata {
                    file_type: if entry.is_directory() {
                        FileType::Directory
                    } else {
                        FileType::File
                    },
                    size: entry.size() as usize,
                },
            ),
            _ => Err(VfsError::NotFound),
        }
    }
}

} // verus!
