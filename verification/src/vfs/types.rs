//! The vocabulary shared by the virtual filesystem and its drivers.

use vstd::prelude::*;

verus! {

/// Number of descriptor slots of a task.
pub const MAX_FDS: usize = 64;

/// Access mode: reading only.
pub const O_RDONLY: u32 = 0;

/// Access mode: writing only.
pub const O_WRONLY: u32 = 1;

/// Access mode: reading and writing.
pub const O_RDWR: u32 = 2;

/// Create the file when it does not exist.
pub const O_CREAT: u32 = 0x40;

/// Together with `O_CREAT`: fail when the file exists.
pub const O_EXCL: u32 = 0x80;

/// Empty the file when it is opened.
pub const O_TRUNC: u32 = 0x200;

/// Every write goes to the end of the file.
pub const O_APPEND: u32 = 0x400;

/// Open a directory for listing.
pub const O_DIRECTORY: u32 = 0x10000;

/// What a name in a filesystem stands for.
#[derive(Debug, Clone, Copy, PartialEq, Eq, Structural)]
pub enum FileType {
    File,
    Directory,
    Device,
}

/// What is known of a file without reading it.
#[derive(Debug, Clone, Copy, PartialEq, Eq, Structural)]
pub struct Metadata {
    pub file_type: FileType,
    pub size: usize,
}

/// One name in a directory listing.
#[derive(Debug, Clone)]
pub struct DirEntry {
    pub name: String,
    pub file_type: FileType,
}

/// A directory listing entry as the contracts see it.
pub struct DirEntryModel {
    pub name: Seq<char>,
    pub file_type: FileType,
}

impl View for DirEntry {
    type V = DirEntryModel;

    open spec fn view(&self) -> DirEntryModel {
        DirEntryModel { name: self.name@, file_type: self.file_type }
    }
}

/// The views of a listing.
pub open spec fn listing_view(entries: Seq<DirEntry>) -> Seq<DirEntryModel> {
    Seq::new(entries.len(), |i: int| entries[i]@)
}

/// From where a new position in a file is counted.
#[derive(Debug, Clone, Copy)]
pub enum SeekFrom {
    Start(usize),
    Current(isize),
    End(isize),
}

/// The flags a file is opened with, as a bit set.
#[derive(Debug, Clone, Copy, PartialEq, Eq, Structural)]
pub struct OpenFlags(pub u32);

impl OpenFlags {
    /// No flag at all, which reads as read-only access.
    pub fn empty() -> (r: Self)
        ensures
            r.0 == 0,
    {
        Self(0)
    }

    /// The flags to read a file: read-only access.
    pub fn read() -> (r: Self)
        ensures
            r == OpenFlags(0),
    {
        Self(O_RDONLY)
    }

    /// The flags to write a file anew: write-only access, the file is
    /// created when it is missing and emptied when it is there.
    pub fn write() -> (r: Self)
        ensures
            r == OpenFlags(0x241),
    {
        Self(O_WRONLY + O_CREAT + O_TRUNC)
    }

    /// The flags to read and write a file.
    pub fn read_write() -> (r: Self)
        ensures
            r == OpenFlags(2),
    {
        Self(O_RDWR)
    }

    /// The flags to add to a file: write-only access at the end of the
    /// file, which is created when it is missing.
    pub fn append() -> (r: Self)
        ensures
            r == OpenFlags(0x441),
    {
        Self(O_WRONLY + O_CREAT + O_APPEND)
    }

    /// The bits of the flags.
    pub fn bits(&self) -> (r: u32)
        ensures
            r == self.0,
    {
        self.0
    }

    /// The flags with the given bits.
    pub fn from_bits(bits: u32) -> (r: Self)
        ensures
            r.0 == bits,
    {
        Self(bits)
    }

    /// Whether every flag of `other` is set. Read-only access has no bit
    /// of its own: it is contained exactly when both access bits are clear.
    pub open spec fn contains_spec(&self, other: Self) -> bool {
        if other.0 == 0 {
            self.0 & 3 == 0
        } else {
            self.0 & other.0 == other.0
        }
    }

    /// Whether every flag of `other` is set.
    pub fn contains(&self, other: Self) -> (r: bool)
        ensures
            r == self.contains_spec(other),
    {
        if other.0 == 0 {
            return (self.0 & 3) == 0;
        }
        (self.0 & other.0) == other.0
    }

    /// Whether the flag bits `bits` are all set.
    pub fn has(&self, bits: u32) -> (r: bool)
        ensures
            r == self.contains_spec(OpenFlags(bits)),
    {
        self.contains(OpenFlags(bits))
    }

    /// The flags of both.
    pub fn union(self, other: Self) -> (r: Self)
        ensures
            r.0 == self.0 | other.0,
    {
        Self(self.0 | other.0)
    }

    /// The two access bits.
    pub fn access_mode(&self) -> (r: u32)
        ensures
            r == self.0 & 3,
    {
        self.0 & 3
    }

    /// Whether the access mode allows reading.
    pub open spec fn readable(&self) -> bool {
        self.0 & 3 == 0 || self.0 & 3 == 2
    }

    /// Whether the access mode allows writing.
    pub open spec fn writable(&self) -> bool {
        self.0 & 3 == 1 || self.0 & 3 == 2
    }

    /// Whether the access mode allows reading.
    pub fn is_readable(&self) -> (r: bool)
        ensures
            r == self.readable(),
    {
        let mode = self.0 & 3;
        mode == 0 || mode == 2
    }

    /// Whether the access mode allows writing.
    pub fn is_writable(&self) -> (r: bool)
        ensures
            r == self.writable(),
    {
        let mode = self.0 & 3;
        mode == 1 || mode == 2
    }
}

/// Why a filesystem operation failed.
#[derive(Debug, Clone, Copy, PartialEq, Eq, Structural)]
pub enum VfsError {
    NotFound,
    AlreadyExists,
    NotADirectory,
    IsADirectory,
    NotEmpty,
    InvalidPath,
    PermissionDenied,
    NoSpace,
    InvalidFd,
    NotSupported,
    IoError,
}

pub type VfsResult<T> = Result<T, VfsError>;

/// The position a seek leads to in a file of `len` bytes read at
/// `position`, counted in unbounded integers.
pub open spec fn seek_goal(pos: SeekFrom, position: usize, len: usize) -> int {
    match pos {
        SeekFrom::Start(n) => n as int,
        SeekFrom::Current(n) => position as int + n as int,
        SeekFrom::End(n) => len as int + n as int,
    }
}

/// Whether a position can be taken: it is not negative and fits the
/// signed range in which positions are computed.
pub open spec fn seek_allowed(goal: int) -> bool {
    0 <= goal <= isize::MAX as int
}

/// Computes the position a seek leads to. A position that is negative, or
/// that does not fit the signed range, is refused as an invalid path.
pub fn seek_position(pos: SeekFrom, position: usize, len: usize) -> (r: VfsResult<usize>)
    ensures
        r == if seek_allowed(seek_goal(pos, position, len)) {
            Ok::<usize, VfsError>(seek_goal(pos, position, len) as usize)
        } else {
            Err::<usize, VfsError>(VfsError::InvalidPath)
        },
{
    let base: usize = match pos {
        SeekFrom::Start(_) => 0,
        SeekFrom::Current(_) => position,
        SeekFrom::End(_) => len,
    };
    match pos {
        SeekFrom::Start(n) => {
            if n > isize::MAX as usize {
                Err(VfsError::InvalidPath)
            } else {
                Ok(n)
            }
        },
        SeekFrom::Current(n) | SeekFrom::End(n) => {
            if n >= 0 {
                let step = n as usize;
                if base > isize::MAX as usize || step > isize::MAX as usize - base {
                    Err(VfsError::InvalidPath)
                } else {
                    Ok(base + step)
                }
            } else {
                // `n` is negative: its magnitude is at most `isize::MAX + 1`.
                let back: usize = if n == isize::MIN {
                    (isize::MAX as usize) + 1
                } else {
                    (-n) as usize
                };
                if back > base || base - back > isize::MAX as usize {
                    Err(VfsError::InvalidPath)
                } else {
                    Ok(base - back)
                }
            }
        },
    }
}

/// The bytes a read of at most `want` bytes takes from `data` at `position`.
pub open spec fn read_window(data: Seq<u8>, position: int, want: int) -> Seq<u8> {
    if position >= data.len() {
        Seq::empty()
    } else if want < data.len() - position {
        data.subrange(position, position + want)
    } else {
        data.subrange(position, data.len() as int)
    }
}

/// Copies into the front of `buf` what a read takes from `data` at
/// `position`, and gives the number of bytes copied.
pub fn read_at(data: &Vec<u8>, position: usize, buf: &mut Vec<u8>) -> (r: usize)
    ensures
        final(buf)@.len() == old(buf)@.len(),
        r <= old(buf)@.len(),
        r > 0 ==> position + r <= data@.len(),
        r == read_window(data@, position as int, old(buf)@.len() as int).len(),
        final(buf)@.subrange(0, r as int) == read_window(
            data@,
            position as int,
            old(buf)@.len() as int,
        ),
        final(buf)@.subrange(r as int, old(buf)@.len() as int) == old(buf)@.subrange(
            r as int,
            old(buf)@.len() as int,
        ),
{
    let len: usize = data.len();
    let available: usize = if position >= len {
        0
    } else {
        len - position
    };
    let to_read: usize = if buf.len() < available {
        buf.len()
    } else {
        available
    };
    let n: usize = buf.len();
    let mut i: usize = 0;
    while i < to_read
        invariant
            i <= to_read,
            to_read <= available,
            to_read <= n,
            n == buf@.len(),
            buf@.len() == old(buf)@.len(),
            len == data@.len(),
            available == (if position >= len {
                0
            } else {
                len - position
            }),
            forall|k: int| 0 <= k < i ==> buf@[k] == data@[position + k],
            forall|k: int| i <= k < n ==> buf@[k] == old(buf)@[k],
        decreases to_read - i,
    {
        buf[i] = data[position + i];
        i += 1;
    }
    proof {
        assert(buf@.subrange(0, to_read as int) =~= read_window(
            data@,
            position as int,
            old(buf)@.len() as int,
        ));
        assert(buf@.subrange(to_read as int, n as int) =~= old(buf)@.subrange(
            to_read as int,
            n as int,
        ));
    }
    to_read
}

/// `data` after `bytes` are written at `position`: the file grows with
/// zero bytes up to the position when it is shorter.
pub open spec fn written(data: Seq<u8>, position: int, bytes: Seq<u8>) -> Seq<u8> {
    Seq::new(
        (if position + bytes.len() > data.len() {
            position + bytes.len()
        } else {
            data.len() as int
        }) as nat,
        |k: int|
            if position <= k < position + bytes.len() {
                bytes[k - position]
            } else if k < data.len() {
                data[k]
            } else {
                0u8
            },
    )
}

/// Writes `bytes` into `data` at `position`, growing `data` as needed.
pub fn write_at(data: &mut Vec<u8>, position: usize, bytes: &[u8])
    requires
        position + bytes@.len() <= usize::MAX,
    ensures
        final(data)@ == written(old(data)@, position as int, bytes@),
{
    let end: usize = position + bytes.len();
    if end > data.len() {
        let ghost before = data@;
        data.resize(end, 0);
        assert(data@ =~= before.add(Seq::new((end - before.len()) as nat, |i: int| 0u8)));
    }
    let n: usize = data.len();
    let count: usize = bytes.len();
    let mut i: usize = 0;
    while i < count
        invariant
            i <= count,
            count == bytes@.len(),
            n == data@.len(),
            position + count <= n,
            n == written(old(data)@, position as int, bytes@).len(),
            forall|k: int|
                0 <= k < n ==> data@[k] == if position <= k < position + i {
                    bytes@[k - position]
                } else if k < old(data)@.len() {
                    old(data)@[k]
                } else {
                    0u8
                },
        decreases count - i,
    {
        data[position + i] = bytes[i];
        i += 1;
    }
    assert(data@ =~= written(old(data)@, position as int, bytes@));
}

/// An open file: a position in a sequence of bytes.
///
/// Each operation comes with a relation that says which results it may
/// give and how it may leave the handle.
pub trait FileHandle {
    /// Whether reading into a buffer that holds `room` may give `r`, leave
    /// the handle as `after` and the buffer holding `out`.
    spec fn reads(
        &self,
        room: Seq<u8>,
        r: VfsResult<usize>,
        after: &Self,
        out: Seq<u8>,
    ) -> bool;

    /// Whether writing `bytes` may give `r` and leave the handle as `after`.
    spec fn writes(&self, bytes: Seq<u8>, r: VfsResult<usize>, after: &Self) -> bool;

    /// Whether moving the position by `pos` may give `r` and leave the
    /// handle as `after`.
    spec fn seeks(&self, pos: SeekFrom, r: VfsResult<usize>, after: &Self) -> bool;

    /// Whether asking for what is known of the file may give `r`.
    spec fn describes(&self, r: VfsResult<Metadata>) -> bool;

    /// Reads into the front of `buf` and gives the number of bytes read,
    /// which is zero at the end of the file.
    fn read(&mut self, buf: &mut Vec<u8>) -> (r: VfsResult<usize>)
        ensures
            final(buf)@.len() == old(buf)@.len(),
            r matches Ok(n) ==> n <= old(buf)@.len(),
            old(self).reads(old(buf)@, r, final(self), final(buf)@),
    ;

    /// Writes `buf` and gives the number of bytes written.
    fn write(&mut self, buf: &[u8]) -> (r: VfsResult<usize>)
        ensures
            r matches Ok(n) ==> n <= buf@.len(),
            old(self).writes(buf@, r, final(self)),
    ;

    /// Moves the position and gives the new position.
    fn seek(&mut self, pos: SeekFrom) -> (r: VfsResult<usize>)
        ensures
            old(self).seeks(pos, r, final(self)),
    ;

    /// What is known of the file.
    fn metadata(&self) -> (r: VfsResult<Metadata>)
        ensures
            self.describes(r),
    ;
}

/// A mounted filesystem. Paths are relative to the mount point.
///
/// Each operation comes with a relation that says which results it may
/// give and how it may leave the filesystem; an implementation defines the
/// relations and its operations keep to them.
pub trait Filesystem {
    /// The handles the filesystem opens.
    type Handle;

    /// What the operations need of the filesystem and keep.
    spec fn wf(&self) -> bool;

    /// Whether opening `path` with `flags` may give `r` and leave the
    /// filesystem as `after`.
    spec fn opens(
        &self,
        path: Seq<char>,
        flags: OpenFlags,
        r: VfsResult<Self::Handle>,
        after: &Self,
    ) -> bool;

    /// Whether creating the directory `path` may give `r` and leave the
    /// filesystem as `after`.
    spec fn makes_dir(&self, path: Seq<char>, r: VfsResult<()>, after: &Self) -> bool;

    /// Whether removing the file `path` may give `r` and leave the
    /// filesystem as `after`.
    spec fn removes(&self, path: Seq<char>, r: VfsResult<()>, after: &Self) -> bool;

    /// Whether removing the directory `path` may give `r` and leave the
    /// filesystem as `after`.
    spec fn removes_dir(&self, path: Seq<char>, r: VfsResult<()>, after: &Self) -> bool;

    /// Whether listing the directory `path` may give `r`.
    spec fn lists(&self, path: Seq<char>, r: VfsResult<Vec<DirEntry>>) -> bool;

    /// Whether asking for what is known of `path` may give `r`.
    spec fn describes(&self, path: Seq<char>, r: VfsResult<Metadata>) -> bool;

    /// Opens, and with `O_CREAT` creates, a file.
    fn open(&mut self, path: &str, flags: OpenFlags) -> (r: VfsResult<Self::Handle>)
        requires
            old(self).wf(),
        ensures
            final(self).wf(),
            old(self).opens(path@, flags, r, final(self)),
    ;

    /// Creates a directory.
    fn mkdir(&mut self, path: &str) -> (r: VfsResult<()>)
        requires
            old(self).wf(),
        ensures
            final(self).wf(),
            old(self).makes_dir(path@, r, final(self)),
    ;

    /// Removes a file.
    fn remove(&mut self, path: &str) -> (r: VfsResult<()>)
        requires
            old(self).wf(),
        ensures
            final(self).wf(),
            old(self).removes(path@, r, final(self)),
    ;

    /// Removes an empty directory.
    fn rmdir(&mut self, path: &str) -> (r: VfsResult<()>)
        requires
            old(self).wf(),
        ensures
            final(self).wf(),
            old(self).removes_dir(path@, r, final(self)),
    ;

    /// Lists a directory.
    fn readdir(&self, path: &str) -> (r: VfsResult<Vec<DirEntry>>)
        requires
            self.wf(),
        ensures
            self.lists(path@, r),
    ;

    /// What is known of the file or directory at `path`.
    fn metadata(&self, path: &str) -> (r: VfsResult<Metadata>)
        requires
            self.wf(),
        ensures
            self.describes(path@, r),
    ;
}

/// Whether `fs` has something at `path`.
pub fn path_exists<F: Filesystem>(fs: &F, path: &str) -> (r: bool)
    requires
        fs.wf(),
    ensures
        r ==> exists|m: Metadata| fs.describes(path@, Ok(m)),
        !r ==> exists|e: VfsError| fs.describes(path@, Err(e)),
{
    match fs.metadata(path) {
        Ok(m) => {
            assert(fs.describes(path@, Ok(m)));
            true
        },
        Err(e) => {
            assert(fs.describes(path@, Err(e)));
            false
        },
    }
}

} // verus!
