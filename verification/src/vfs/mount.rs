//! The mount table: filesystems at absolute paths, the deepest first, and
//! the dispatch of every operation to the filesystem that holds its path.

use vstd::prelude::*;
use crate::text::{chars_eq, chars_of, segments, string_of};
use crate::vfs::block::devfs::{BlockDeviceHandle, DevFs};
use crate::vfs::block::{BlockDevice, Partition};
use crate::vfs::fat32::fs::{Fat32Fs, FatFileHandle};
use crate::vfs::handle::StaticFileHandle;
use crate::vfs::memfs::MemFs;
use crate::vfs::path::{normalize_chars, normalized};
use crate::vfs::tasksfs::TasksFs;
use crate::vfs::tmpfs::{TmpFileHandle, TmpFs};
use crate::vfs::types::{O_APPEND, O_TRUNC};
use crate::vfs::types::{
    DirEntry, FileHandle, FileType, Filesystem, Metadata, OpenFlags, SeekFrom, VfsError, VfsResult,
};

verus! {

/// A filesystem of one of the kinds the kernel has.
pub enum FsKind<D: BlockDevice> {
    Tmp(TmpFs),
    Tasks(TasksFs),
    Mem(MemFs),
    Dev(DevFs<D>),
    Fat(Fat32Fs<Partition<D>>),
}

/// An open file of one of the kinds the filesystems open.
pub enum FileKind {
    Tmp(TmpFileHandle),
    Fat(FatFileHandle),
    Static(StaticFileHandle),
    Block(BlockDeviceHandle),
}

/// An open file and the path at which its filesystem is mounted.
pub struct OpenFile {
    pub mount: String,
    pub kind: FileKind,
}

/// A filesystem and the absolute path it is mounted at.
pub struct Mount<D: BlockDevice> {
    pub path: String,
    pub fs: FsKind<D>,
}

/// The mount table.
pub struct Vfs<D: BlockDevice> {
    pub mounts: Vec<Mount<D>>,
}

/// The path left of `path` below the mount point `mount`, when `path`
/// lies at or below it: everything lies below `/`; a mount point itself
/// is its root `/`; any other path must continue the mount point with a
/// `/`.
pub open spec fn below(mount: Seq<char>, path: Seq<char>) -> Option<Seq<char>> {
    if mount == seq!['/'] {
        Some(path)
    } else if path == mount {
        Some(seq!['/'])
    } else if mount.len() < path.len() && path.subrange(0, mount.len() as int) == mount {
        let rest = path.subrange(mount.len() as int, path.len() as int);
        if rest == seq!['/'] {
            Some(seq!['/'])
        } else if rest[0] == '/' {
            Some(rest)
        } else {
            None
        }
    } else {
        None
    }
}

/// Position of the first of the mount points `mounts` that `path` lies at
/// or below, or their number when there is none.
pub open spec fn mount_index(mounts: Seq<Seq<char>>, path: Seq<char>) -> int
    decreases mounts.len(),
{
    if mounts.len() == 0 {
        0
    } else if below(mounts[0], path) is Some {
        0
    } else {
        1 + mount_index(mounts.drop_first(), path)
    }
}

/// The first mount point found is one the path lies below, and no
/// earlier one is.
pub proof fn lemma_mount_index(mounts: Seq<Seq<char>>, path: Seq<char>)
    ensures
        0 <= mount_index(mounts, path) <= mounts.len(),
        mount_index(mounts, path) < mounts.len() ==> below(
            mounts[mount_index(mounts, path)],
            path,
        ) is Some,
        forall|i: int| 0 <= i < mount_index(mounts, path) ==> below(#[trigger] mounts[i], path) is None,
    decreases mounts.len(),
{
    if mounts.len() > 0 && below(mounts[0], path) is None {
        let rest = mounts.drop_first();
        lemma_mount_index(rest, path);
        assert forall|i: int| 0 <= i < mount_index(mounts, path) implies below(
            #[trigger] mounts[i],
            path,
        ) is None by {
            if i > 0 {
                assert(rest[i - 1] == mounts[i]);
            }
        }
    }
}

/// Whether each of the mount points begins with `/`.
pub open spec fn rooted(mounts: Seq<Seq<char>>) -> bool {
    forall|i: int| 0 <= i < mounts.len() ==> (#[trigger] mounts[i]).len() > 0 && mounts[i][0] == '/'
}

/// Whether the mount points are ordered from the longest to the shortest.
pub open spec fn longest_first(mounts: Seq<Seq<char>>) -> bool {
    forall|i: int, j: int| 0 <= i < j < mounts.len() ==> mounts[i].len() >= mounts[j].len()
}

/// With the longest mount points first, a path below a mount point
/// resolves to that mount point or to one before it, and never to a
/// mount point that is a proper prefix of it: the deeper mount wins.
pub proof fn lemma_deepest_mount_wins(mounts: Seq<Seq<char>>, outer: int, inner: int, path: Seq<char>)
    requires
        longest_first(mounts),
        0 <= outer < mounts.len(),
        0 <= inner < mounts.len(),
        mounts[outer].len() < mounts[inner].len(),
        mounts[outer] == mounts[inner].subrange(0, mounts[outer].len() as int),
        below(mounts[inner], path) is Some,
    ensures
        mount_index(mounts, path) <= inner,
        inner < outer,
        mount_index(mounts, path) != outer,
{
    lemma_mount_index(mounts, path);
    if mount_index(mounts, path) > inner {
        assert(below(mounts[inner], path) is None);
    }
    if outer < inner {
        assert(mounts[outer].len() >= mounts[inner].len());
    }
}

/// Two mount points of the same length that a path lies at or below are
/// the same mount point.
pub proof fn lemma_one_mount_of_a_length(a: Seq<char>, b: Seq<char>, path: Seq<char>)
    requires
        a.len() == b.len(),
        a.len() > 0,
        a[0] == '/',
        b[0] == '/',
        below(a, path) is Some,
        below(b, path) is Some,
    ensures
        a == b,
{
    if a.len() == 1 {
        assert(a =~= seq!['/']);
        assert(b =~= seq!['/']);
    } else {
        assert(a != seq!['/']);
        assert(b != seq!['/']);
        if path != a && path != b {
            assert(a =~= path.subrange(0, a.len() as int));
            assert(b =~= path.subrange(0, b.len() as int));
        }
    }
}

/// The deepest mount holds a path: among mount points that begin with
/// `/`, differ from one another and stand with the longest first, a path
/// that lies at or below a mount point, and below no longer one, resolves
/// to exactly that mount.
pub proof fn lemma_deepest_mount_holds(mounts: Seq<Seq<char>>, inner: int, path: Seq<char>)
    requires
        longest_first(mounts),
        rooted(mounts),
        mounts.no_duplicates(),
        0 <= inner < mounts.len(),
        below(mounts[inner], path) is Some,
        forall|k: int|
            0 <= k < mounts.len() && mounts[k].len() > mounts[inner].len() ==> below(
                #[trigger] mounts[k],
                path,
            ) is None,
    ensures
        mount_index(mounts, path) == inner,
{
    lemma_mount_index(mounts, path);
    let found = mount_index(mounts, path);
    if found > inner {
        assert(below(mounts[inner], path) is None);
    }
    if found < inner {
        assert(mounts[found].len() >= mounts[inner].len());
        assert(below(mounts[found], path) is Some);
        lemma_one_mount_of_a_length(mounts[found], mounts[inner], path);
    }
}

/// Decides whether `path` lies at or below the mount point `mount`, and
/// computes what is left of it there.
pub fn path_below(mount: &[char], path: &[char]) -> (r: Option<Vec<char>>)
    ensures
        match below(mount@, path@) {
            Some(rest) => r matches Some(v) && v@ == rest,
            None => r is None,
        },
{
    let root: [char; 1] = ['/'];
    assert(root@ =~= seq!['/']);
    if chars_eq(mount, root.as_slice()) {
        let mut out: Vec<char> = Vec::new();
        crate::text::push_chars(&mut out, path);
        assert(Seq::<char>::empty().add(path@) =~= path@);
        return Some(out);
    }
    if chars_eq(path, mount) {
        let mut out: Vec<char> = Vec::new();
        out.push('/');
        assert(out@ =~= seq!['/']);
        return Some(out);
    }
    let m: usize = mount.len();
    let n: usize = path.len();
    if m >= n {
        return None;
    }
    let mut i: usize = 0;
    while i < m
        invariant
            i <= m,
            m < n,
            m == mount@.len(),
            n == path@.len(),
            mount@ != seq!['/'],
            path@ != mount@,
            forall|k: int| 0 <= k < i ==> path@[k] == mount@[k],
        decreases m - i,
    {
        if path[i] != mount[i] {
            proof {
                let head = path@.subrange(0, m as int);
                assert(head[i as int] != mount@[i as int]);
                assert(head != mount@);
            }
            return None;
        }
        i += 1;
    }
    assert(path@.subrange(0, m as int) =~= mount@);
    let ghost rest = path@.subrange(m as int, n as int);
    assert(rest[0] == path@[m as int]);
    if path[m] != '/' {
        assert(rest != seq!['/']) by {
            if rest == seq!['/'] {
                assert(rest[0] == '/');
            }
        }
        return None;
    }
    let mut out: Vec<char> = Vec::new();
    let mut k: usize = m;
    while k < n
        invariant
            m <= k <= n,
            n == path@.len(),
            out@ == path@.subrange(m as int, k as int),
        decreases n - k,
    {
        out.push(path[k]);
        k += 1;
        assert(out@ =~= path@.subrange(m as int, k as int));
    }
    Some(out)
}

impl<D: BlockDevice> FsKind<D> {
    /// What the filesystem needs and keeps.
    pub open spec fn wf(&self) -> bool {
        match self {
            FsKind::Fat(f) => f.inner.wf(),
            FsKind::Tmp(t) => t.wf(),
            FsKind::Dev(d) => d.wf(),
            _ => true,
        }
    }

    /// Whether `other` is a filesystem of the same kind.
    pub open spec fn same_kind(&self, other: &Self) -> bool {
        match (self, other) {
            (FsKind::Tmp(_), FsKind::Tmp(_)) => true,
            (FsKind::Tasks(_), FsKind::Tasks(_)) => true,
            (FsKind::Mem(_), FsKind::Mem(_)) => true,
            (FsKind::Dev(_), FsKind::Dev(_)) => true,
            (FsKind::Fat(_), FsKind::Fat(_)) => true,
            _ => false,
        }
    }

    /// Whether opening `path` with `flags` may give `r` and leave the
    /// filesystem as `after`: what the filesystem of this kind says, with
    /// the handle of its kind.
    pub open spec fn opens(
        &self,
        path: Seq<char>,
        flags: OpenFlags,
        r: VfsResult<FileKind>,
        after: &Self,
    ) -> bool {
        match (*self, *after, r) {
            (FsKind::Tmp(a), FsKind::Tmp(b), Ok(FileKind::Tmp(h))) => a.opens(path, flags, Ok(h), &b),
            (FsKind::Tmp(a), FsKind::Tmp(b), Err(e)) => a.opens(path, flags, Err(e), &b),
            (FsKind::Tasks(a), FsKind::Tasks(b), Ok(FileKind::Static(h))) => a.opens(
                path,
                flags,
                Ok(h),
                &b,
            ),
            (FsKind::Tasks(a), FsKind::Tasks(b), Err(e)) => a.opens(path, flags, Err(e), &b),
            (FsKind::Mem(a), FsKind::Mem(b), Ok(FileKind::Static(h))) => a.opens(
                path,
                flags,
                Ok(h),
                &b,
            ),
            (FsKind::Mem(a), FsKind::Mem(b), Err(e)) => a.opens(path, flags, Err(e), &b),
            (FsKind::Dev(a), FsKind::Dev(b), Ok(FileKind::Block(h))) => a.opens(
                path,
                flags,
                Ok(h),
                &b,
            ),
            (FsKind::Dev(a), FsKind::Dev(b), Err(e)) => a.opens(path, flags, Err(e), &b),
            (FsKind::Fat(a), FsKind::Fat(b), Ok(FileKind::Fat(h))) => a.opens(path, flags, Ok(h), &b),
            (FsKind::Fat(a), FsKind::Fat(b), Err(e)) => a.opens(path, flags, Err(e), &b),
            _ => false,
        }
    }

    /// Whether creating the directory `path` may give `r` and leave the
    /// filesystem as `after`.
    pub open spec fn makes_dir(&self, path: Seq<char>, r: VfsResult<()>, after: &Self) -> bool {
        match (*self, *after) {
            (FsKind::Tmp(a), FsKind::Tmp(b)) => a.makes_dir(path, r, &b),
            (FsKind::Tasks(a), FsKind::Tasks(b)) => a.makes_dir(path, r, &b),
            (FsKind::Mem(a), FsKind::Mem(b)) => a.makes_dir(path, r, &b),
            (FsKind::Dev(a), FsKind::Dev(b)) => a.makes_dir(path, r, &b),
            (FsKind::Fat(a), FsKind::Fat(b)) => a.makes_dir(path, r, &b),
            _ => false,
        }
    }

    /// Whether removing the file `path` may give `r` and leave the
    /// filesystem as `after`.
    pub open spec fn removes(&self, path: Seq<char>, r: VfsResult<()>, after: &Self) -> bool {
        match (*self, *after) {
            (FsKind::Tmp(a), FsKind::Tmp(b)) => a.removes(path, r, &b),
            (FsKind::Tasks(a), FsKind::Tasks(b)) => a.removes(path, r, &b),
            (FsKind::Mem(a), FsKind::Mem(b)) => a.removes(path, r, &b),
            (FsKind::Dev(a), FsKind::Dev(b)) => a.removes(path, r, &b),
            (FsKind::Fat(a), FsKind::Fat(b)) => a.removes(path, r, &b),
            _ => false,
        }
    }

    /// Whether removing the directory `path` may give `r` and leave the
    /// filesystem as `after`.
    pub open spec fn removes_dir(&self, path: Seq<char>, r: VfsResult<()>, after: &Self) -> bool {
        match (*self, *after) {
            (FsKind::Tmp(a), FsKind::Tmp(b)) => a.removes_dir(path, r, &b),
            (FsKind::Tasks(a), FsKind::Tasks(b)) => a.removes_dir(path, r, &b),
            (FsKind::Mem(a), FsKind::Mem(b)) => a.removes_dir(path, r, &b),
            (FsKind::Dev(a), FsKind::Dev(b)) => a.removes_dir(path, r, &b),
            (FsKind::Fat(a), FsKind::Fat(b)) => a.removes_dir(path, r, &b),
            _ => false,
        }
    }

    /// Whether listing the directory `path` may give `r`.
    pub open spec fn lists(&self, path: Seq<char>, r: VfsResult<Vec<DirEntry>>) -> bool {
        match *self {
            FsKind::Tmp(a) => a.lists(path, r),
            FsKind::Tasks(a) => a.lists(path, r),
            FsKind::Mem(a) => a.lists(path, r),
            FsKind::Dev(a) => a.lists(path, r),
            FsKind::Fat(a) => a.lists(path, r),
        }
    }

    /// Whether asking for what is known of `path` may give `r`.
    pub open spec fn describes(&self, path: Seq<char>, r: VfsResult<Metadata>) -> bool {
        match *self {
            FsKind::Tmp(a) => a.describes(path, r),
            FsKind::Tasks(a) => a.describes(path, r),
            FsKind::Mem(a) => a.describes(path, r),
            FsKind::Dev(a) => a.describes(path, r),
            FsKind::Fat(a) => a.describes(path, r),
        }
    }

    /// Opens a file of the filesystem.
    pub fn open(&mut self, path: &str, flags: OpenFlags) -> (r: VfsResult<FileKind>)
        requires
            old(self).wf(),
        ensures
            final(self).wf(),
            old(self).same_kind(final(self)),
            old(self).opens(path@, flags, r, final(self)),
    {
        match self {
            FsKind::Tmp(f) => match f.open(path, flags) {
                Ok(h) => Ok(FileKind::Tmp(h)),
                Err(e) => Err(e),
            },
            FsKind::Tasks(f) => match f.open(path, flags) {
                Ok(h) => Ok(FileKind::Static(h)),
                Err(e) => Err(e),
            },
            FsKind::Mem(f) => match f.open(path, flags) {
                Ok(h) => Ok(FileKind::Static(h)),
                Err(e) => Err(e),
            },
            FsKind::Dev(f) => match f.open(path, flags) {
                Ok(h) => Ok(FileKind::Block(h)),
                Err(e) => Err(e),
            },
            FsKind::Fat(f) => match f.open(path, flags) {
                Ok(h) => Ok(FileKind::Fat(h)),
                Err(e) => Err(e),
            },
        }
    }

    /// Creates a directory of the filesystem.
    pub fn mkdir(&mut self, path: &str) -> (r: VfsResult<()>)
        requires
            old(self).wf(),
        ensures
            final(self).wf(),
            old(self).same_kind(final(self)),
            old(self).makes_dir(path@, r, final(self)),
    {
        match self {
            FsKind::Tmp(f) => f.mkdir(path),
            FsKind::Tasks(f) => f.mkdir(path),
            FsKind::Mem(f) => f.mkdir(path),
            FsKind::Dev(f) => f.mkdir(path),
            FsKind::Fat(f) => f.mkdir(path),
        }
    }

    /// Removes a file of the filesystem.
    pub fn remove(&mut self, path: &str) -> (r: VfsResult<()>)
        requires
            old(self).wf(),
        ensures
            final(self).wf(),
            old(self).same_kind(final(self)),
            old(self).removes(path@, r, final(self)),
    {
        match self {
            FsKind::Tmp(f) => f.remove(path),
            FsKind::Tasks(f) => f.remove(path),
            FsKind::Mem(f) => f.remove(path),
            FsKind::Dev(f) => f.remove(path),
            FsKind::Fat(f) => f.remove(path),
        }
    }

    /// Removes a directory of the filesystem.
    pub fn rmdir(&mut self, path: &str) -> (r: VfsResult<()>)
        requires
            old(self).wf(),
        ensures
            final(self).wf(),
            old(self).same_kind(final(self)),
            old(self).removes_dir(path@, r, final(self)),
    {
        match self {
            FsKind::Tmp(f) => f.rmdir(path),
            FsKind::Tasks(f) => f.rmdir(path),
            FsKind::Mem(f) => f.rmdir(path),
            FsKind::Dev(f) => f.rmdir(path),
            FsKind::Fat(f) => f.rmdir(path),
        }
    }

    /// Lists a directory of the filesystem.
    pub fn readdir(&self, path: &str) -> (r: VfsResult<Vec<DirEntry>>)
        requires
            self.wf(),
        ensures
            self.lists(path@, r),
    {
        match self {
            FsKind::Tmp(f) => f.readdir(path),
            FsKind::Tasks(f) => f.readdir(path),
            FsKind::Mem(f) => f.readdir(path),
            FsKind::Dev(f) => f.readdir(path),
            FsKind::Fat(f) => f.readdir(path),
        }
    }

    /// What the filesystem knows of `path`.
    pub fn metadata(&self, path: &str) -> (r: VfsResult<Metadata>)
        requires
            self.wf(),
        ensures
            self.describes(path@, r),
    {
        match self {
            FsKind::Tmp(f) => f.metadata(path),
            FsKind::Tasks(f) => f.metadata(path),
            FsKind::Mem(f) => f.metadata(path),
            FsKind::Dev(f) => f.metadata(path),
            FsKind::Fat(f) => f.metadata(path),
        }
    }
}

impl<D: BlockDevice> Vfs<D> {
    /// The mount points, in the order of the table.
    pub open spec fn points(&self) -> Seq<Seq<char>> {
        Seq::new(self.mounts@.len(), |i: int| self.mounts@[i].path@)
    }

    /// Every filesystem is as it needs to be; the mount points begin with
    /// `/`, no two of them are the same, and the longest come first.
    pub open spec fn wf(&self) -> bool {
        &&& forall|i: int| 0 <= i < self.mounts@.len() ==> (#[trigger] self.mounts@[i]).fs.wf()
        &&& longest_first(self.points())
        &&& rooted(self.points())
        &&& self.points().no_duplicates()
    }

    /// A table without mounts.
    pub fn new() -> (r: Self)
        ensures
            r.wf(),
            r.mounts@.len() == 0,
    {
        Self { mounts: Vec::new() }
    }

    /// Finds the mount whose mount point is exactly `path`.
    pub fn find_mount(&self, path: &[char]) -> (r: Option<usize>)
        ensures
            match r {
                Some(i) => i < self.mounts@.len() && self.mounts@[i as int].path@ == path@
                    && forall|k: int| 0 <= k < i ==> (#[trigger] self.mounts@[k]).path@ != path@,
                None => forall|k: int|
                    0 <= k < self.mounts@.len() ==> (#[trigger] self.mounts@[k]).path@ != path@,
            },
    {
        let n: usize = self.mounts.len();
        let mut i: usize = 0;
        while i < n
            invariant
                i <= n,
                n == self.mounts@.len(),
                forall|k: int| 0 <= k < i ==> (#[trigger] self.mounts@[k]).path@ != path@,
            decreases n - i,
        {
            let p = chars_of(self.mounts[i].path.as_str());
            if chars_eq(p.as_slice(), path) {
                return Some(i);
            }
            i += 1;
        }
        None
    }

    /// Mounts `fs` at the normal form of `path`, behind the mounts whose
    /// mount points are at least as long. A path that is a mount point
    /// already is refused.
    pub fn mount(&mut self, path: &str, fs: FsKind<D>) -> (r: VfsResult<()>)
        requires
            old(self).wf(),
            fs.wf(),
        ensures
            final(self).wf(),
            old(self).points().contains(normalized(path@)) ==> r == Err::<(), VfsError>(
                VfsError::AlreadyExists,
            ) && final(self).mounts@ == old(self).mounts@,
            !old(self).points().contains(normalized(path@)) ==> r is Ok && exists|at: int|
                0 <= at <= old(self).mounts@.len()
                    && #[trigger] final(self).points() == old(self).points().insert(at, normalized(path@))
                    && final(self).mounts@[at].fs == fs
                    && final(self).mounts@.len() == old(self).mounts@.len() + 1
                    && (forall|k: int| 0 <= k < at ==> final(self).mounts@[k] == old(self).mounts@[k])
                    && (forall|k: int|
                    at <= k < old(self).mounts@.len() ==> final(self).mounts@[k + 1] == old(self).mounts@[k])
                    && (forall|k: int| 0 <= k < at ==> old(self).points()[k].len() >= normalized(
                    path@,
                ).len()) && (forall|k: int|
                    at <= k < old(self).mounts@.len() ==> old(self).points()[k].len() < normalized(
                        path@,
                    ).len()),
    {
        let chars = chars_of(path);
        let normal = normalize_chars(chars.as_slice());
        match self.find_mount(normal.as_slice()) {
            Some(i) => {
                assert(self.points()[i as int] == normal@);
                return Err(VfsError::AlreadyExists);
            },
            None => {},
        }
        proof {
            assert(!self.points().contains(normal@)) by {
                if self.points().contains(normal@) {
                    let k = choose|k: int| 0 <= k < self.points().len() && self.points()[k] == normal@;
                    assert(self.mounts@[k].path@ == normal@);
                }
            }
        }
        let n: usize = self.mounts.len();
        let len: usize = normal.len();
        let mut at: usize = 0;
        while at < n && chars_of(self.mounts[at].path.as_str()).len() >= len
            invariant
                at <= n,
                n == self.mounts@.len(),
                len == normal@.len(),
                *self == *old(self),
                forall|k: int| 0 <= k < at ==> self.points()[k].len() >= len,
            decreases n - at,
        {
            at += 1;
        }
        let ghost before = self.points();
        proof {
            assert forall|k: int| at <= k < n implies before[k].len() < len by {
                if at < n {
                    assert(before[at as int].len() < len);
                    if k > at {
                        assert(before[at as int].len() >= before[k].len());
                    }
                }
            }
        }
        self.mounts.insert(at, Mount { path: string_of(normal.as_slice()), fs });
        proof {
            assert(self.points() =~= before.insert(at as int, normal@));
            assert forall|i: int, j: int| 0 <= i < j < self.points().len() implies self.points()[i].len()
                >= self.points()[j].len() by {
                let a = if i < at {
                    i
                } else {
                    i - 1
                };
                let b = if j < at {
                    j
                } else {
                    j - 1
                };
                if i != at && j != at {
                    assert(before[a].len() >= before[b].len());
                }
            }
            assert forall|i: int| 0 <= i < self.mounts@.len() implies (
            #[trigger] self.mounts@[i]).fs.wf() by {
                if i < at {
                    assert(self.mounts@[i] == old(self).mounts@[i]);
                } else if i > at {
                    assert(self.mounts@[i] == old(self).mounts@[i - 1]);
                }
            }
        }
        Ok(())
    }

    /// Takes the mount at the normal form of `path` out of the table.
    pub fn unmount(&mut self, path: &str) -> (r: VfsResult<()>)
        requires
            old(self).wf(),
        ensures
            final(self).wf(),
            !old(self).points().contains(normalized(path@)) ==> r == Err::<(), VfsError>(
                VfsError::NotFound,
            ) && final(self).mounts@ == old(self).mounts@,
            old(self).points().contains(normalized(path@)) ==> r is Ok && exists|at: int|
                0 <= at < old(self).mounts@.len() && old(self).points()[at] == normalized(path@)
                    && #[trigger] final(self).mounts@ == old(self).mounts@.remove(at),
    {
        let chars = chars_of(path);
        let normal = normalize_chars(chars.as_slice());
        match self.find_mount(normal.as_slice()) {
            Some(i) => {
                let ghost before = self.points();
                assert(before[i as int] == normal@);
                self.mounts.remove(i);
                proof {
                    assert(self.points() =~= before.remove(i as int));
                    assert forall|a: int, b: int| 0 <= a < b < self.points().len() implies self.points()[a].len()
                        >= self.points()[b].len() by {
                        let x = if a < i {
                            a
                        } else {
                            a + 1
                        };
                        let y = if b < i {
                            b
                        } else {
                            b + 1
                        };
                        assert(before[x].len() >= before[y].len());
                    }
                    assert forall|k: int| 0 <= k < self.mounts@.len() implies (
                    #[trigger] self.mounts@[k]).fs.wf() by {
                        if k < i {
                            assert(self.mounts@[k] == old(self).mounts@[k]);
                        } else {
                            assert(self.mounts@[k] == old(self).mounts@[k + 1]);
                        }
                    }
                }
                Ok(())
            },
            None => {
                proof {
                    if self.points().contains(normal@) {
                        let k = choose|k: int|
                            0 <= k < self.points().len() && self.points()[k] == normal@;
                        assert(self.mounts@[k].path@ == normal@);
                    }
                }
                Err(VfsError::NotFound)
            },
        }
    }

    /// Finds the mount that holds `path`: the first whose mount point the
    /// normal form of `path` lies at or below. The result is the position
    /// of the mount and the path left below its mount point.
    pub fn resolve(&self, path: &str) -> (r: VfsResult<(usize, String)>)
        ensures
            ({
                let normal = normalized(path@);
                let i = mount_index(self.points(), normal);
                if i < self.mounts@.len() {
                    r matches Ok(v) && v.0 == i && Some(v.1@) == below(self.points()[i], normal)
                } else {
                    r matches Err(e) && e == VfsError::NotFound
                }
            }),
    {
        let chars = chars_of(path);
        let normal = normalize_chars(chars.as_slice());
        let n: usize = self.mounts.len();
        let ghost all = self.points();
        let mut i: usize = 0;
        proof {
            assert(all.subrange(0, n as int) =~= all);
        }
        while i < n
            invariant
                i <= n,
                n == self.mounts@.len(),
                all == self.points(),
                normal@ == normalized(path@),
                mount_index(all, normal@) == i + mount_index(
                    all.subrange(i as int, n as int),
                    normal@,
                ),
            decreases n - i,
        {
            proof {
                let rest = all.subrange(i as int, n as int);
                assert(rest[0] == all[i as int]);
                assert(rest.drop_first() =~= all.subrange(i + 1, n as int));
            }
            let point = chars_of(self.mounts[i].path.as_str());
            match path_below(point.as_slice(), normal.as_slice()) {
                Some(rest) => {
                    return Ok((i, string_of(rest.as_slice())));
                },
                None => {},
            }
            i += 1;
        }
        proof {
            assert(all.subrange(n as int, n as int).len() == 0);
        }
        Err(VfsError::NotFound)
    }
}

impl<D: BlockDevice> Vfs<D> {
    /// Whether `other` has the same mounts at the same mount points, each
    /// of the same kind, and all but the mount at `touched` unchanged.
    pub open spec fn same_mounts(&self, other: &Self, touched: int) -> bool {
        &&& other.mounts@.len() == self.mounts@.len()
        &&& other.points() == self.points()
        &&& forall|i: int|
            0 <= i < self.mounts@.len() ==> (#[trigger] self.mounts@[i]).fs.same_kind(
                &other.mounts@[i].fs,
            )
        &&& forall|i: int|
            0 <= i < self.mounts@.len() && i != touched ==> #[trigger] other.mounts@[i]
                == self.mounts@[i]
    }

    /// The position of the mount that holds `path`; the number of mounts
    /// when none does.
    pub open spec fn holder(&self, path: Seq<char>) -> int {
        mount_index(self.points(), normalized(path))
    }

    /// The path that is left of `path` below the mount point of the mount
    /// that holds it.
    pub open spec fn relative(&self, path: Seq<char>) -> Seq<char> {
        below(self.points()[self.holder(path)], normalized(path))->0
    }

    /// The result of opening a file, as the filesystem gave it.
    pub open spec fn kind_of(r: VfsResult<OpenFile>) -> VfsResult<FileKind> {
        match r {
            Ok(f) => Ok(f.kind),
            Err(e) => Err(e),
        }
    }

    /// Whether opening `path` with `flags` may give `r` and leave the mounts as
    /// `after`: the mount that holds the path decides, and nothing is found
    /// when no mount holds it.
    pub open spec fn opens(
        &self,
        path: Seq<char>,
        flags: OpenFlags,
        r: VfsResult<OpenFile>,
        after: &Self,
    ) -> bool {
        &&& after.wf()
        &&& self.same_mounts(after, mount_index(self.points(), normalized(path)))
        &&& mount_index(self.points(), normalized(path)) >= self.mounts@.len() ==> (
        r matches Err(e) && e == VfsError::NotFound)
        &&& r matches Ok(f) ==> f.mount@ == self.points()[mount_index(
            self.points(),
            normalized(path),
        )]
        &&& self.holder(path) < self.mounts@.len() ==> self.mounts@[self.holder(path)].fs.opens(
            self.relative(path),
            flags,
            Self::kind_of(r),
            &after.mounts@[self.holder(path)].fs,
        )
    }

    /// Opens the file at `path` in the filesystem that holds it.
    pub fn open(&mut self, path: &str, flags: OpenFlags) -> (r: VfsResult<OpenFile>)
        requires
            old(self).wf(),
        ensures
            old(self).opens(path@, flags, r, final(self)),
    {
        let (index, relative) = match self.resolve(path) {
            Ok(v) => v,
            Err(e) => {
                return Err(e);
            },
        };
        let ghost before = self.points();
        let mount = self.mounts[index].path.clone();
        let result = self.mounts[index].fs.open(relative.as_str(), flags);
        proof {
            assert(self.points() =~= before);
        }
        match result {
            Ok(kind) => Ok(OpenFile { mount, kind }),
            Err(e) => Err(e),
        }
    }

    /// Whether creating the directory `path` may give `r` and leave the mounts as
    /// `after`.
    pub open spec fn makes_dir(&self, path: Seq<char>, r: VfsResult<()>, after: &Self) -> bool {
        &&& after.wf()
        &&& self.same_mounts(after, mount_index(self.points(), normalized(path)))
        &&& mount_index(self.points(), normalized(path)) >= self.mounts@.len() ==> r
            == Err::<(), VfsError>(VfsError::NotFound)
        &&& self.holder(path) < self.mounts@.len() ==> self.mounts@[self.holder(path)].fs.makes_dir(
            self.relative(path),
            r,
            &after.mounts@[self.holder(path)].fs,
        )
    }

    /// Creates the directory at `path` in the filesystem that holds it.
    pub fn mkdir(&mut self, path: &str) -> (r: VfsResult<()>)
        requires
            old(self).wf(),
        ensures
            old(self).makes_dir(path@, r, final(self)),
    {
        let (index, relative) = match self.resolve(path) {
            Ok(v) => v,
            Err(e) => {
                return Err(e);
            },
        };
        let ghost before = self.points();
        let result = self.mounts[index].fs.mkdir(relative.as_str());
        proof {
            assert(self.points() =~= before);
        }
        result
    }

    /// Whether removing the file `path` may give `r` and leave the mounts as
    /// `after`.
    pub open spec fn removes(&self, path: Seq<char>, r: VfsResult<()>, after: &Self) -> bool {
        &&& after.wf()
        &&& self.same_mounts(after, mount_index(self.points(), normalized(path)))
        &&& mount_index(self.points(), normalized(path)) >= self.mounts@.len() ==> r
            == Err::<(), VfsError>(VfsError::NotFound)
        &&& self.holder(path) < self.mounts@.len() ==> self.mounts@[self.holder(path)].fs.removes(
            self.relative(path),
            r,
            &after.mounts@[self.holder(path)].fs,
        )
    }

    /// Removes the file at `path` in the filesystem that holds it.
    pub fn remove(&mut self, path: &str) -> (r: VfsResult<()>)
        requires
            old(self).wf(),
        ensures
            old(self).removes(path@, r, final(self)),
    {
        let (index, relative) = match self.resolve(path) {
            Ok(v) => v,
            Err(e) => {
                return Err(e);
            },
        };
        let ghost before = self.points();
        let result = self.mounts[index].fs.remove(relative.as_str());
        proof {
            assert(self.points() =~= before);
        }
        result
    }

    /// Whether removing the directory `path` may give `r` and leave the mounts as
    /// `after`.
    pub open spec fn removes_dir(&self, path: Seq<char>, r: VfsResult<()>, after: &Self) -> bool {
        &&& after.wf()
        &&& self.same_mounts(after, mount_index(self.points(), normalized(path)))
        &&& mount_index(self.points(), normalized(path)) >= self.mounts@.len() ==> r
            == Err::<(), VfsError>(VfsError::NotFound)
        &&& self.holder(path) < self.mounts@.len() ==> self.mounts@[self.holder(path)].fs.removes_dir(
            self.relative(path),
            r,
            &after.mounts@[self.holder(path)].fs,
        )
    }

    /// Removes the directory at `path` in the filesystem that holds it.
    pub fn rmdir(&mut self, path: &str) -> (r: VfsResult<()>)
        requires
            old(self).wf(),
        ensures
            old(self).removes_dir(path@, r, final(self)),
    {
        let (index, relative) = match self.resolve(path) {
            Ok(v) => v,
            Err(e) => {
                return Err(e);
            },
        };
        let ghost before = self.points();
        let result = self.mounts[index].fs.rmdir(relative.as_str());
        proof {
            assert(self.points() =~= before);
        }
        result
    }

    /// Whether listing the directory `path` may give `r`.
    pub open spec fn lists(&self, path: Seq<char>, r: VfsResult<Vec<DirEntry>>) -> bool {
        &&& mount_index(self.points(), normalized(path)) >= self.mounts@.len() ==> (
        r matches Err(e) && e == VfsError::NotFound)
        &&& self.holder(path) < self.mounts@.len() ==> self.mounts@[self.holder(path)].fs.lists(
            self.relative(path),
            r,
        )
    }

    /// Lists the directory at `path` in the filesystem that holds it.
    pub fn readdir(&self, path: &str) -> (r: VfsResult<Vec<DirEntry>>)
        requires
            self.wf(),
        ensures
            self.lists(path@, r),
    {
        let (index, relative) = match self.resolve(path) {
            Ok(v) => v,
            Err(e) => {
                return Err(e);
            },
        };
        self.mounts[index].fs.readdir(relative.as_str())
    }

    /// Whether asking for what is known of `path` may give `r`.
    pub open spec fn describes(&self, path: Seq<char>, r: VfsResult<Metadata>) -> bool {
        &&& mount_index(self.points(), normalized(path)) >= self.mounts@.len() ==> r == Err::<
            Metadata,
            VfsError,
        >(VfsError::NotFound)
        &&& self.holder(path) < self.mounts@.len() ==> self.mounts@[self.holder(
            path,
        )].fs.describes(self.relative(path), r)
    }

    /// What the filesystem that holds `path` knows of it.
    pub fn metadata(&self, path: &str) -> (r: VfsResult<Metadata>)
        requires
            self.wf(),
        ensures
            self.describes(path@, r),
    {
        let (index, relative) = match self.resolve(path) {
            Ok(v) => v,
            Err(e) => {
                return Err(e);
            },
        };
        self.mounts[index].fs.metadata(relative.as_str())
    }

    /// Whether there is something at `path`.
    pub fn path_exists(&self, path: &str) -> (r: bool)
        requires
            self.wf(),
        ensures
            r ==> self.holder(path@) < self.mounts@.len() && exists|m: Metadata|
                self.mounts@[self.holder(path@)].fs.describes(self.relative(path@), Ok(m)),
            !r ==> self.holder(path@) >= self.mounts@.len() || exists|e: VfsError|
                self.mounts@[self.holder(path@)].fs.describes(self.relative(path@), Err(e)),
    {
        match self.metadata(path) {
            Ok(m) => {
                assert(self.mounts@[self.holder(path@)].fs.describes(self.relative(path@), Ok(m)));
                true
            },
            Err(e) => {
                assert(self.holder(path@) < self.mounts@.len() ==> self.mounts@[self.holder(
                    path@,
                )].fs.describes(self.relative(path@), Err(e)));
                false
            },
        }
    }

    /// Whether `i` is the position of the first mount at the mount point
    /// `point`.
    pub open spec fn first_at(&self, point: Seq<char>, i: int) -> bool {
        &&& 0 <= i < self.mounts@.len()
        &&& self.mounts@[i].path@ == point
        &&& forall|k: int| 0 <= k < i ==> (#[trigger] self.mounts@[k]).path@ != point
    }

    /// Whether no mount has the mount point `point`.
    pub open spec fn none_at(&self, point: Seq<char>) -> bool {
        forall|k: int| 0 <= k < self.mounts@.len() ==> (#[trigger] self.mounts@[k]).path@ != point
    }

    /// Whether reading from `file` into a buffer that holds `room` may give
    /// `r`, leave the file as `after` and the buffer holding `out`. A file
    /// of a device is read through the device filesystem it was opened in;
    /// when that is no longer mounted there, nothing is found.
    pub open spec fn reads(
        &self,
        file: OpenFile,
        room: Seq<u8>,
        r: VfsResult<usize>,
        after: OpenFile,
        out: Seq<u8>,
    ) -> bool {
        &&& after.mount == file.mount
        &&& out.len() == room.len()
        &&& match (file.kind, after.kind) {
            (FileKind::Tmp(h), FileKind::Tmp(g)) => h.reads(room, r, &g, out),
            (FileKind::Fat(h), FileKind::Fat(g)) => h.reads(room, r, &g, out),
            (FileKind::Static(h), FileKind::Static(g)) => h.reads(room, r, &g, out),
            (FileKind::Block(h), FileKind::Block(g)) => {
                &&& self.none_at(file.mount@) ==> r == Err::<usize, VfsError>(VfsError::NotFound)
                    && g == h && out == room
                &&& forall|i: int| #[trigger]
                    self.first_at(file.mount@, i) ==> match self.mounts@[i].fs {
                        FsKind::Dev(d) => d.reads(h, room, r, g, out),
                        _ => r == Err::<usize, VfsError>(VfsError::NotFound) && g == h && out
                            == room,
                    }
            },
            _ => false,
        }
    }

    /// Whether writing `bytes` to `file` may give `r`, leave the file as
    /// `after` and the mounts as `next`. A file of an in-memory filesystem
    /// or of a device is written through the filesystem it was opened in;
    /// when that is no longer mounted there, nothing is found.
    pub open spec fn writes(
        &self,
        file: OpenFile,
        bytes: Seq<u8>,
        r: VfsResult<usize>,
        after: OpenFile,
        next: &Self,
    ) -> bool {
        &&& after.mount == file.mount
        &&& match (file.kind, after.kind) {
            (FileKind::Fat(h), FileKind::Fat(g)) => h.writes(bytes, r, &g) && next.mounts@
                == self.mounts@,
            (FileKind::Static(h), FileKind::Static(g)) => h.writes(bytes, r, &g) && next.mounts@
                == self.mounts@,
            (FileKind::Tmp(h), FileKind::Tmp(g)) => {
                &&& self.none_at(file.mount@) ==> r == Err::<usize, VfsError>(VfsError::NotFound)
                    && g == h && next.mounts@ == self.mounts@
                &&& forall|i: int| #[trigger]
                    self.first_at(file.mount@, i) ==> match (
                        self.mounts@[i].fs,
                        next.mounts@[i].fs,
                    ) {
                        (FsKind::Tmp(t), FsKind::Tmp(u)) => h.writes(&t, bytes, r, &g, &u)
                            && self.same_mounts(next, i),
                        _ => r == Err::<usize, VfsError>(VfsError::NotFound) && g == h
                            && next.mounts@ == self.mounts@,
                    }
            },
            (FileKind::Block(h), FileKind::Block(g)) => {
                &&& self.none_at(file.mount@) ==> r == Err::<usize, VfsError>(VfsError::NotFound)
                    && g == h && next.mounts@ == self.mounts@
                &&& forall|i: int| #[trigger]
                    self.first_at(file.mount@, i) ==> match (
                        self.mounts@[i].fs,
                        next.mounts@[i].fs,
                    ) {
                        (FsKind::Dev(d), FsKind::Dev(e)) => d.writes(h, bytes, r, g, &e)
                            && self.same_mounts(next, i),
                        _ => r == Err::<usize, VfsError>(VfsError::NotFound) && g == h
                            && next.mounts@ == self.mounts@,
                    }
            },
            _ => false,
        }
    }

    /// Whether moving the position of `file` by `pos` may give `r` and
    /// leave the file as `after`.
    pub open spec fn seeks(
        &self,
        file: OpenFile,
        pos: SeekFrom,
        r: VfsResult<usize>,
        after: OpenFile,
    ) -> bool {
        &&& after.mount == file.mount
        &&& match (file.kind, after.kind) {
            (FileKind::Tmp(h), FileKind::Tmp(g)) => h.seeks(pos, r, &g),
            (FileKind::Fat(h), FileKind::Fat(g)) => h.seeks(pos, r, &g),
            (FileKind::Static(h), FileKind::Static(g)) => h.seeks(pos, r, &g),
            (FileKind::Block(h), FileKind::Block(g)) => {
                &&& self.none_at(file.mount@) ==> r == Err::<usize, VfsError>(VfsError::NotFound)
                    && g == h
                &&& forall|i: int| #[trigger]
                    self.first_at(file.mount@, i) ==> match self.mounts@[i].fs {
                        FsKind::Dev(d) => d.seeks(h, pos, r, g),
                        _ => r == Err::<usize, VfsError>(VfsError::NotFound) && g == h,
                    }
            },
            _ => false,
        }
    }

    /// Whether asking for what is known of `file` may give `r`.
    pub open spec fn describes_file(&self, file: OpenFile, r: VfsResult<Metadata>) -> bool {
        match file.kind {
            FileKind::Tmp(h) => h.describes(r),
            FileKind::Fat(h) => h.describes(r),
            FileKind::Static(h) => h.describes(r),
            FileKind::Block(h) => {
                &&& self.none_at(file.mount@) ==> r == Err::<Metadata, VfsError>(
                    VfsError::NotFound,
                )
                &&& forall|i: int| #[trigger]
                    self.first_at(file.mount@, i) ==> match self.mounts@[i].fs {
                        FsKind::Dev(d) => d.handle_described(h, r),
                        _ => r == Err::<Metadata, VfsError>(VfsError::NotFound),
                    }
            },
        }
    }

    /// Whether closing `file` may give `r` and leave the mounts as `next`.
    /// Only a file of a FAT32 volume has anything to do when it is closed.
    pub open spec fn closes(&self, file: OpenFile, r: VfsResult<()>, next: &Self) -> bool {
        match file.kind {
            FileKind::Fat(h) => {
                &&& self.none_at(file.mount@) ==> r == Err::<(), VfsError>(VfsError::NotFound)
                    && next.mounts@ == self.mounts@
                &&& forall|i: int| #[trigger]
                    self.first_at(file.mount@, i) ==> match (
                        self.mounts@[i].fs,
                        next.mounts@[i].fs,
                    ) {
                        (FsKind::Fat(f), FsKind::Fat(g)) => f.closes(h, r, &g)
                            && self.same_mounts(next, i),
                        _ => r == Err::<(), VfsError>(VfsError::NotFound) && next.mounts@
                            == self.mounts@,
                    }
            },
            _ => r is Ok && next.mounts@ == self.mounts@,
        }
    }

    /// Reads from `file` into the front of `buf`.
    pub fn read(&self, file: &mut OpenFile, buf: &mut Vec<u8>) -> (r: VfsResult<usize>)
        requires
            self.wf(),
        ensures
            r matches Ok(n) ==> n <= old(buf)@.len(),
            self.reads(*old(file), old(buf)@, r, *final(file), final(buf)@),
    {
        match &mut file.kind {
            FileKind::Tmp(h) => h.read(buf),
            FileKind::Fat(h) => h.read(buf),
            FileKind::Static(h) => h.read(buf),
            FileKind::Block(h) => {
                let point = chars_of(file.mount.as_str());
                match self.find_mount(point.as_slice()) {
                    Some(i) => match &self.mounts[i].fs {
                        FsKind::Dev(d) => d.read(h, buf),
                        _ => Err(VfsError::NotFound),
                    },
                    None => Err(VfsError::NotFound),
                }
            },
        }
    }

    /// Writes `buf` to `file`. A file of an in-memory filesystem is
    /// stored there at once; a file of a device is written to the device.
    pub fn write(&mut self, file: &mut OpenFile, buf: &[u8]) -> (r: VfsResult<usize>)
        requires
            old(self).wf(),
        ensures
            final(self).wf(),
            old(self).same_mounts(final(self), -1) || exists|i: int|
                0 <= i < old(self).mounts@.len() && old(self).mounts@[i].path@ == old(file).mount@
                    && #[trigger] old(self).same_mounts(final(self), i),
            r matches Ok(n) ==> n <= buf@.len(),
            old(self).writes(*old(file), buf@, r, *final(file), final(self)),
    {
        let point = chars_of(file.mount.as_str());
        let found = self.find_mount(point.as_slice());
        let ghost before = self.points();
        match &mut file.kind {
            FileKind::Fat(h) => h.write(buf),
            FileKind::Static(h) => h.write(buf),
            FileKind::Tmp(h) => match found {
                Some(i) => {
                    let r = match &mut self.mounts[i].fs {
                        FsKind::Tmp(t) => h.write(t, buf),
                        _ => Err(VfsError::NotFound),
                    };
                    proof {
                        assert(self.points() =~= before);
                        assert(old(self).same_mounts(self, i as int));
                        assert(old(self).first_at(old(file).mount@, i as int));
                        if !(old(self).mounts@[i as int].fs is Tmp) {
                            assert(self.mounts@ =~= old(self).mounts@);
                        }
                    }
                    r
                },
                None => Err(VfsError::NotFound),
            },
            FileKind::Block(h) => match found {
                Some(i) => {
                    let r = match &mut self.mounts[i].fs {
                        FsKind::Dev(d) => d.write(h, buf),
                        _ => Err(VfsError::NotFound),
                    };
                    proof {
                        assert(self.points() =~= before);
                        assert(old(self).same_mounts(self, i as int));
                        assert(old(self).first_at(old(file).mount@, i as int));
                        if !(old(self).mounts@[i as int].fs is Dev) {
                            assert(self.mounts@ =~= old(self).mounts@);
                        }
                    }
                    r
                },
                None => Err(VfsError::NotFound),
            },
        }
    }

    /// Moves the position of `file`.
    pub fn seek(&self, file: &mut OpenFile, pos: SeekFrom) -> (r: VfsResult<usize>)
        requires
            self.wf(),
        ensures
            self.seeks(*old(file), pos, r, *final(file)),
    {
        match &mut file.kind {
            FileKind::Tmp(h) => h.seek(pos),
            FileKind::Fat(h) => h.seek(pos),
            FileKind::Static(h) => h.seek(pos),
            FileKind::Block(h) => {
                let point = chars_of(file.mount.as_str());
                match self.find_mount(point.as_slice()) {
                    Some(i) => match &self.mounts[i].fs {
                        FsKind::Dev(d) => d.seek(h, pos),
                        _ => Err(VfsError::NotFound),
                    },
                    None => Err(VfsError::NotFound),
                }
            },
        }
    }

    /// What is known of `file`.
    pub fn file_metadata(&self, file: &OpenFile) -> (r: VfsResult<Metadata>)
        requires
            self.wf(),
        ensures
            self.describes_file(*file, r),
    {
        match &file.kind {
            FileKind::Tmp(h) => h.metadata(),
            FileKind::Fat(h) => h.metadata(),
            FileKind::Static(h) => h.metadata(),
            FileKind::Block(h) => {
                let point = chars_of(file.mount.as_str());
                match self.find_mount(point.as_slice()) {
                    Some(i) => match &self.mounts[i].fs {
                        FsKind::Dev(d) => d.handle_metadata(h),
                        _ => Err(VfsError::NotFound),
                    },
                    None => Err(VfsError::NotFound),
                }
            },
        }
    }

    /// Closes `file`. A file of a FAT32 volume that was written to is
    /// written back to the volume.
    pub fn close(&mut self, file: OpenFile) -> (r: VfsResult<()>)
        requires
            old(self).wf(),
        ensures
            final(self).wf(),
            old(self).closes(file, r, final(self)),
            old(self).same_mounts(final(self), -1) || exists|i: int|
                0 <= i < old(self).mounts@.len() && old(self).mounts@[i].path@ == file.mount@
                    && #[trigger] old(self).same_mounts(final(self), i),
    {
        let point = chars_of(file.mount.as_str());
        let found = self.find_mount(point.as_slice());
        let ghost before = self.points();
        match file.kind {
            FileKind::Fat(h) => match found {
                Some(i) => {
                    let r = match &mut self.mounts[i].fs {
                        FsKind::Fat(f) => f.close(h),
                        _ => Err(VfsError::NotFound),
                    };
                    proof {
                        assert(self.points() =~= before);
                        assert(old(self).same_mounts(self, i as int));
                        assert(old(self).first_at(file.mount@, i as int));
                        if !(old(self).mounts@[i as int].fs is Fat) {
                            assert(self.mounts@ =~= old(self).mounts@);
                        }
                    }
                    r
                },
                None => Err(VfsError::NotFound),
            },
            _ => Ok(()),
        }
    }
}

impl<D: BlockDevice> Vfs<D> {
    /// Through the mounts, a file of an in-memory filesystem that is
    /// opened empty for writing, written to, closed and opened again for
    /// reading reads as it was written.
    ///
    /// When the mount that holds `path` is an in-memory filesystem and a
    /// file that is not there yet, or any file with `O_TRUNC`, opens with
    /// flags that allow writing, the write of `data` takes all of it and
    /// the close succeeds; a later
    /// open of the path with flags that allow reading and neither
    /// truncate nor append succeeds; and a read of the file opened last
    /// into a buffer with room for `data` gives exactly `data`.
    pub proof fn lemma_written_file_reads_back(
        &self,
        created: &Self,
        path: Seq<char>,
        first: OpenFlags,
        f: OpenFile,
        data: Seq<u8>,
        w: VfsResult<usize>,
        kept: OpenFile,
        stored: &Self,
        c: VfsResult<()>,
        closed: &Self,
        second: OpenFlags,
        again: VfsResult<OpenFile>,
        reopened: &Self,
    )
        requires
            self.wf(),
            self.holder(path) < self.mounts@.len(),
            self.mounts@[self.holder(path)].fs is Tmp,
            self.opens(path, first, Ok::<OpenFile, VfsError>(f), created),
            first.contains_spec(OpenFlags(O_TRUNC)) || (self.mounts@[self.holder(
                path,
            )].fs->Tmp_0).root.view().find(segments(self.relative(path), '/')) is Err,
            first.writable(),
            data.len() <= usize::MAX,
            created.writes(f, data, w, kept, stored),
            stored.closes(kept, c, closed),
            second.readable(),
            !second.contains_spec(OpenFlags(O_TRUNC)),
            !second.contains_spec(OpenFlags(O_APPEND)),
            closed.opens(path, second, again, reopened),
        ensures
            w == Ok::<usize, VfsError>(data.len() as usize),
            c is Ok,
            again is Ok,
            forall|room: Seq<u8>, r: VfsResult<usize>, after: OpenFile, out: Seq<u8>|
                room.len() >= data.len() && #[trigger] reopened.reads(
                    again->Ok_0,
                    room,
                    r,
                    after,
                    out,
                ) ==> r == Ok::<usize, VfsError>(data.len() as usize) && out.subrange(
                    0,
                    data.len() as int,
                ) == data,
    {
        let i = self.holder(path);
        lemma_mount_index(self.points(), normalized(path));
        let t0 = self.mounts@[i].fs->Tmp_0;
        assert(self.mounts@[i].fs.opens(
            self.relative(path),
            first,
            Self::kind_of(Ok::<OpenFile, VfsError>(f)),
            &created.mounts@[i].fs,
        ));
        let t1 = created.mounts@[i].fs->Tmp_0;
        let h = f.kind->Tmp_0;
        assert(created.points() == self.points());
        assert(f.mount@ == self.points()[i]);
        assert(created.first_at(f.mount@, i)) by {
            assert forall|k: int| 0 <= k < i implies (#[trigger] created.mounts@[k]).path@
                != f.mount@ by {
                assert(created.points()[k] == created.mounts@[k].path@);
                assert(created.points()[i] == created.mounts@[i].path@);
            }
            assert(created.points()[i] == created.mounts@[i].path@);
        }
        let t2 = stored.mounts@[i].fs->Tmp_0;
        let g = kept.kind->Tmp_0;
        assert(h.writes(&t1, data, w, &g, &t2));
        assert(closed.mounts@ == stored.mounts@);
        assert(stored.points() == created.points());
        assert(closed.points() =~= stored.points());
        assert(closed.holder(path) == i);
        assert(closed.relative(path) == self.relative(path));
        assert(closed.mounts@[i].fs.opens(
            closed.relative(path),
            second,
            Self::kind_of(again),
            &reopened.mounts@[i].fs,
        ));
        let t3 = reopened.mounts@[i].fs->Tmp_0;
        let tmp_again: VfsResult<TmpFileHandle> = match again {
            Ok(file) => Ok(file.kind->Tmp_0),
            Err(e) => Err(e),
        };
        assert(t2.opens(closed.relative(path), second, tmp_again, &t3));
        crate::vfs::tmpfs::lemma_written_file_reads_back(
            &t0,
            &t1,
            self.relative(path),
            first,
            h,
            data,
            w,
            g,
            &t2,
            second,
            tmp_again,
            &t3,
        );
        assert forall|room: Seq<u8>, r: VfsResult<usize>, after: OpenFile, out: Seq<u8>|
            room.len() >= data.len() && #[trigger] reopened.reads(
                again->Ok_0,
                room,
                r,
                after,
                out,
            ) implies r == Ok::<usize, VfsError>(data.len() as usize) && out.subrange(
            0,
            data.len() as int,
        ) == data by {
            let a = (again->Ok_0).kind->Tmp_0;
            let b = after.kind->Tmp_0;
            assert(a.reads(room, r, &b, out));
        }
    }
}

} // verus!
