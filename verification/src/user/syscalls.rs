//! Directory entries as they cross the system-call boundary: a type byte,
//! the length of the name in two bytes, low byte first, and the name.

use vstd::prelude::*;
use crate::cpu::syscall::{handled, syscall_handler, Kernel, SyscallOutcome, FAILURE};
use crate::sched::SwitchInfo;
use crate::vfs::block::BlockDevice;

verus! {

pub const SYS_EXIT: u64 = 0;

pub const SYS_WRITE: u64 = 1;

pub const SYS_READ: u64 = 2;

pub const SYS_OPEN: u64 = 3;

pub const SYS_CLOSE: u64 = 4;

pub const SYS_GETDENTS: u64 = 5;

pub const SYS_MKDIR: u64 = 6;

pub const SYS_UNLINK: u64 = 7;

pub const SYS_RMDIR: u64 = 8;

pub const SYS_CHDIR: u64 = 9;

pub const SYS_GETCWD: u64 = 10;

/// Type byte of a file.
pub const DT_FILE: u8 = 1;

/// Type byte of a directory.
pub const DT_DIR: u8 = 2;

/// Type byte of a device.
pub const DT_DEVICE: u8 = 3;

/// A directory entry as a user program holds it.
#[derive(Clone, Copy)]
pub struct DirEntry {
    pub file_type: u8,
    pub name_len: usize,
    pub name: [u8; 256],
}

/// Reads the directory entries out of the bytes that the kernel wrote.
pub struct DirEntryIter<'a> {
    pub buf: &'a [u8],
    pub offset: usize,
}

/// One entry on the wire: its type byte and the bytes of its name.
pub struct WireEntry {
    pub file_type: u8,
    pub name: Seq<u8>,
}

/// The bytes of one entry on the wire. The length is written in 16 bits.
pub open spec fn wire_bytes(e: WireEntry) -> Seq<u8> {
    seq![e.file_type, (e.name.len() % 256) as u8, ((e.name.len() / 256) % 256) as u8].add(e.name)
}

/// The entry that begins at `offset` of `buf`, if a whole entry with a
/// name of at most 256 bytes lies there.
pub open spec fn entry_at(buf: Seq<u8>, offset: int) -> Option<WireEntry> {
    if offset + 3 > buf.len() {
        None
    } else {
        let len = buf[offset + 1] as int + 256 * (buf[offset + 2] as int);
        if offset + 3 + len > buf.len() || len > 256 {
            None
        } else {
            Some(
                WireEntry {
                    file_type: buf[offset],
                    name: buf.subrange(offset + 3, offset + 3 + len),
                },
            )
        }
    }
}

impl DirEntry {
    /// An entry without type and name.
    pub fn empty() -> (r: Self)
        ensures
            r.file_type == 0,
            r.name_len == 0,
            forall|i: int| 0 <= i < 256 ==> r.name@[i] == 0,
    {
        Self { file_type: 0, name_len: 0, name: [0u8; 256] }
    }

    /// The name has at most 256 bytes.
    pub open spec fn wf(&self) -> bool {
        self.name_len <= 256
    }

    /// The bytes of the name.
    pub open spec fn name_spec(&self) -> Seq<u8> {
        self.name@.subrange(0, self.name_len as int)
    }

    /// The bytes of the name.
    pub fn name(&self) -> (r: &[u8])
        requires
            self.wf(),
        ensures
            r@ == self.name_spec(),
    {
        let all: &[u8] = self.name.as_slice();
        &all[0..self.name_len]
    }

    /// Whether the entry is a directory.
    pub fn is_dir(&self) -> (r: bool)
        ensures
            r == (self.file_type == 2),
    {
        self.file_type == 2
    }

    /// Whether the entry is a file.
    pub fn is_file(&self) -> (r: bool)
        ensures
            r == (self.file_type == 1),
    {
        self.file_type == 1
    }
}

impl<'a> DirEntryIter<'a> {
    /// Reads the entries in the first `len` bytes of `buf`.
    pub fn new(buf: &'a [u8], len: usize) -> (r: Self)
        requires
            len <= buf@.len(),
        ensures
            r.buf@ == buf@.subrange(0, len as int),
            r.offset == 0,
    {
        Self { buf: &buf[0..len], offset: 0 }
    }

    /// The next entry, if a whole one is left. The type byte and the
    /// length are passed over even when the name that follows is cut off
    /// or too long.
    pub fn next(&mut self) -> (r: Option<DirEntry>)
        requires
            old(self).offset <= old(self).buf@.len(),
        ensures
            final(self).buf == old(self).buf,
            final(self).offset <= final(self).buf@.len(),
            match entry_at(old(self).buf@, old(self).offset as int) {
                Some(e) => r is Some && r->0.wf() && r->0.file_type == e.file_type && r->0.name_spec()
                    == e.name && final(self).offset == old(self).offset + 3 + e.name.len(),
                None => r is None && final(self).offset == if old(self).offset + 3 > old(self).buf@.len() {
                    old(self).offset as int
                } else {
                    old(self).offset + 3
                },
            },
    {
        let n: usize = self.buf.len();
        if self.offset > n || n - self.offset < 3 {
            return None;
        }
        let file_type = self.buf[self.offset];
        self.offset += 1;
        let name_len: usize = (self.buf[self.offset] as usize) + 256 * (self.buf[self.offset
            + 1] as usize);
        self.offset += 2;
        if n - self.offset < name_len || name_len > 256 {
            return None;
        }
        let mut entry = DirEntry::empty();
        entry.file_type = file_type;
        entry.name_len = name_len;
        let mut i: usize = 0;
        while i < name_len
            invariant
                i <= name_len,
                name_len <= 256,
                n == self.buf@.len(),
                self.offset + name_len <= n,
                entry.name_len == name_len,
                entry.file_type == file_type,
                forall|k: int| 0 <= k < i ==> entry.name@[k] == self.buf@[self.offset + k],
            decreases name_len - i,
        {
            entry.name[i] = self.buf[self.offset + i];
            i += 1;
        }
        assert(entry.name_spec() =~= self.buf@.subrange(
            self.offset as int,
            self.offset + name_len,
        ));
        self.offset += name_len;
        Some(entry)
    }
}

/// The entry that begins at the front of the bytes of an entry, followed
/// by anything, is that entry.
pub proof fn lemma_wire_round_trip(e: WireEntry, rest: Seq<u8>)
    requires
        e.name.len() <= 256,
    ensures
        entry_at(wire_bytes(e).add(rest), 0) == Some(e),
{
    let buf = wire_bytes(e).add(rest);
    let len = e.name.len() as int;
    assert(buf[0] == e.file_type);
    assert(buf[1] as int + 256 * (buf[2] as int) == len);
    assert(buf.subrange(3, 3 + len) =~= e.name);
}

/// Flag of `open`: create the file when it does not exist.
pub const O_CREAT: u64 = 64;

/// Flag of `open`: empty the file.
pub const O_TRUNC: u64 = 512;

/// Flag of `open`: write at the end.
pub const O_APPEND: u64 = 1024;

/// Flag of `open`: open a directory for listing.
pub const O_DIRECTORY: u64 = 65536;

pub const O_RDONLY: u64 = 0;

pub const O_WRONLY: u64 = 1;

pub const O_RDWR: u64 = 2;

/// The result of a call as a signed number: -1 for a failure.
pub open spec fn signed(value: u64) -> i64 {
    if value == FAILURE {
        -1i64
    } else {
        (value as int % 0x8000_0000_0000_0000) as i64
    }
}

/// Turns the result of a call into a signed number.
pub fn to_signed(value: u64) -> (r: i64)
    ensures
        r == signed(value),
{
    if value == FAILURE {
        -1
    } else {
        (value % 0x8000_0000_0000_0000) as i64
    }
}

/// A buffer that held `before` after `bytes` were copied into its front.
pub open spec fn filled(before: Seq<u8>, bytes: Seq<u8>) -> Seq<u8> {
    bytes.add(before.subrange(bytes.len() as int, before.len() as int))
}

/// Copies `bytes` into the front of `buf`, as many as fit.
fn copy_front(buf: &mut Vec<u8>, bytes: &Vec<u8>) -> (r: usize)
    ensures
        r == if bytes@.len() <= old(buf)@.len() {
            bytes@.len()
        } else {
            old(buf)@.len()
        },
        final(buf)@ == filled(old(buf)@, bytes@.subrange(0, r as int)),
        final(buf)@.len() == old(buf)@.len(),
{
    let n: usize = buf.len();
    let count: usize = bytes.len();
    let mut i: usize = 0;
    while i < count && i < n
        invariant
            i <= count,
            i <= n,
            count == bytes@.len(),
            n == buf@.len(),
            buf@.len() == old(buf)@.len(),
            forall|k: int| 0 <= k < i ==> buf@[k] == bytes@[k],
            forall|k: int| i <= k < n ==> buf@[k] == old(buf)@[k],
        decreases count - i,
    {
        buf[i] = bytes[i];
        i += 1;
    }
    assert(buf@ =~= filled(old(buf)@, bytes@.subrange(0, i as int)));
    i
}

/// Ends the task that runs. The result is the switch away from it.
pub fn exit<D: BlockDevice>(kernel: &mut Kernel<D>, code: u64) -> (r: Option<SwitchInfo>)
    requires
        old(kernel).wf(),
    ensures
        final(kernel).wf(),
        exists|o: SyscallOutcome| #[trigger]
            handled(old(kernel), SYS_EXIT, code, 0, 0, Seq::empty(), o, final(kernel)) && r
                == o.switch,
{
    let o = syscall_handler(kernel, SYS_EXIT, code, 0, 0, &[]);
    assert(handled(old(kernel), SYS_EXIT, code, 0, 0, Seq::empty(), o, kernel));
    o.switch
}

/// Writes `buf` to descriptor `fd` and gives the number of bytes written.
pub fn write<D: BlockDevice>(kernel: &mut Kernel<D>, fd: u64, buf: &[u8]) -> (r: u64)
    requires
        old(kernel).wf(),
    ensures
        final(kernel).wf(),
        exists|o: SyscallOutcome| #[trigger]
            handled(old(kernel), SYS_WRITE, fd, 0, buf@.len() as u64, buf@, o, final(kernel))
                && r == o.value,
{
    let len: u64 = buf.len() as u64;
    let o = syscall_handler(kernel, SYS_WRITE, fd, 0, len, buf);
    assert(handled(old(kernel), SYS_WRITE, fd, 0, buf@.len() as u64, buf@, o, kernel));
    o.value
}

/// Reads from descriptor `fd` into the front of `buf` and gives the
/// number of bytes read. When the keyboard is read and has no input,
/// nothing is read.
pub fn read<D: BlockDevice>(kernel: &mut Kernel<D>, fd: u64, buf: &mut Vec<u8>) -> (r: u64)
    requires
        old(kernel).wf(),
    ensures
        final(kernel).wf(),
        final(buf)@.len() == old(buf)@.len(),
        r == FAILURE || r <= old(buf)@.len(),
        exists|o: SyscallOutcome| #[trigger]
            handled(
                old(kernel),
                SYS_READ,
                fd,
                0,
                old(buf)@.len() as u64,
                Seq::empty(),
                o,
                final(kernel),
            ) && if o.wait_for_input {
                r == 0 && final(buf)@ == old(buf)@
            } else {
                r == o.value && final(buf)@ == filled(old(buf)@, o.output@)
            },
{
    let n: usize = buf.len();
    let o = syscall_handler(kernel, SYS_READ, fd, 0, n as u64, &[]);
    assert(handled(old(kernel), SYS_READ, fd, 0, old(buf)@.len() as u64, Seq::empty(), o, kernel));
    if o.wait_for_input {
        return 0;
    }
    let copied = copy_front(buf, &o.output);
    assert(o.output@.subrange(0, copied as int) =~= o.output@);
    if o.value == FAILURE {
        FAILURE
    } else {
        copied as u64
    }
}

/// Reads one character from the keyboard; 0 when there is none.
pub fn getch<D: BlockDevice>(kernel: &mut Kernel<D>) -> (r: u8)
    requires
        old(kernel).wf(),
    ensures
        final(kernel).wf(),
        exists|o: SyscallOutcome| #[trigger]
            handled(old(kernel), SYS_READ, 0, 0, 1, Seq::empty(), o, final(kernel))
                && r == if !o.wait_for_input
                && o.output@.len() > 0 {
                o.output@[0]
            } else {
                0
            },
{
    let mut buf: Vec<u8> = vec![0u8; 1];
    read(kernel, 0, &mut buf);
    buf[0]
}

/// Opens the file at `path` and gives its descriptor, or -1.
pub fn open<D: BlockDevice>(kernel: &mut Kernel<D>, path: &[u8], flags: u64) -> (r: i64)
    requires
        old(kernel).wf(),
    ensures
        final(kernel).wf(),
        r == -1 || 3 <= r < 64,
        exists|o: SyscallOutcome| #[trigger]
            handled(old(kernel), SYS_OPEN, 0, path@.len() as u64, flags, path@, o, final(kernel))
                && r == signed(o.value),
{
    let o = syscall_handler(kernel, SYS_OPEN, 0, path.len() as u64, flags, path);
    assert(handled(old(kernel), SYS_OPEN, 0, path@.len() as u64, flags, path@, o, kernel));
    to_signed(o.value)
}

/// Closes descriptor `fd`: 0, or -1 when nothing was open there.
pub fn close<D: BlockDevice>(kernel: &mut Kernel<D>, fd: u64) -> (r: i64)
    requires
        old(kernel).wf(),
    ensures
        final(kernel).wf(),
        exists|o: SyscallOutcome| #[trigger]
            handled(old(kernel), SYS_CLOSE, fd, 0, 0, Seq::empty(), o, final(kernel)) && r
                == signed(o.value),
{
    let o = syscall_handler(kernel, SYS_CLOSE, fd, 0, 0, &[]);
    assert(handled(old(kernel), SYS_CLOSE, fd, 0, 0, Seq::empty(), o, kernel));
    if o.value == FAILURE {
        -1
    } else {
        0
    }
}

/// Creates the file at `path` when it does not exist: 0, or -1. The file
/// is opened with `O_CREAT` and, when that gave a descriptor, closed.
pub fn touch<D: BlockDevice>(kernel: &mut Kernel<D>, path: &[u8]) -> (r: i64)
    requires
        old(kernel).wf(),
    ensures
        final(kernel).wf(),
        exists|o: SyscallOutcome, mid: Kernel<D>|
            #![trigger handled(old(kernel), SYS_OPEN, 0, path@.len() as u64, O_CREAT, path@, o, &mid)]
            {
                &&& handled(old(kernel), SYS_OPEN, 0, path@.len() as u64, O_CREAT, path@, o, &mid)
                &&& if o.value == FAILURE {
                    r == -1 && mid == *final(kernel)
                } else {
                    r == 0 && exists|c: SyscallOutcome| #[trigger]
                        handled(&mid, SYS_CLOSE, o.value, 0, 0, Seq::empty(), c, final(kernel))
                }
            },
{
    let o = syscall_handler(kernel, SYS_OPEN, 0, path.len() as u64, O_CREAT, path);
    let ghost mid = *kernel;
    assert(handled(old(kernel), SYS_OPEN, 0, path@.len() as u64, O_CREAT, path@, o, &mid));
    if o.value != FAILURE {
        let c = syscall_handler(kernel, SYS_CLOSE, o.value, 0, 0, &[]);
        assert(handled(&mid, SYS_CLOSE, o.value, 0, 0, Seq::empty(), c, kernel));
        0
    } else {
        -1
    }
}

/// Removes the file at `path`: 0, or -1.
pub fn unlink<D: BlockDevice>(kernel: &mut Kernel<D>, path: &[u8]) -> (r: i64)
    requires
        old(kernel).wf(),
    ensures
        final(kernel).wf(),
        exists|o: SyscallOutcome| #[trigger]
            handled(old(kernel), SYS_UNLINK, 0, path@.len() as u64, 0, path@, o, final(kernel))
                && r == signed(o.value),
{
    let o = syscall_handler(kernel, SYS_UNLINK, 0, path.len() as u64, 0, path);
    assert(handled(old(kernel), SYS_UNLINK, 0, path@.len() as u64, 0, path@, o, kernel));
    to_signed(o.value)
}

/// Creates the directory at `path`: 0, or -1.
pub fn mkdir<D: BlockDevice>(kernel: &mut Kernel<D>, path: &[u8]) -> (r: i64)
    requires
        old(kernel).wf(),
    ensures
        final(kernel).wf(),
        exists|o: SyscallOutcome| #[trigger]
            handled(old(kernel), SYS_MKDIR, 0, path@.len() as u64, 0, path@, o, final(kernel))
                && r == signed(o.value),
{
    let o = syscall_handler(kernel, SYS_MKDIR, 0, path.len() as u64, 0, path);
    assert(handled(old(kernel), SYS_MKDIR, 0, path@.len() as u64, 0, path@, o, kernel));
    to_signed(o.value)
}

/// Removes the directory at `path`: 0, or -1.
pub fn rmdir<D: BlockDevice>(kernel: &mut Kernel<D>, path: &[u8]) -> (r: i64)
    requires
        old(kernel).wf(),
    ensures
        final(kernel).wf(),
        exists|o: SyscallOutcome| #[trigger]
            handled(old(kernel), SYS_RMDIR, 0, path@.len() as u64, 0, path@, o, final(kernel))
                && r == signed(o.value),
{
    let o = syscall_handler(kernel, SYS_RMDIR, 0, path.len() as u64, 0, path);
    assert(handled(old(kernel), SYS_RMDIR, 0, path@.len() as u64, 0, path@, o, kernel));
    to_signed(o.value)
}

/// Makes the directory at `path` the working directory: 0, or -1.
pub fn chdir<D: BlockDevice>(kernel: &mut Kernel<D>, path: &[u8]) -> (r: i64)
    requires
        old(kernel).wf(),
    ensures
        final(kernel).wf(),
        exists|o: SyscallOutcome| #[trigger]
            handled(old(kernel), SYS_CHDIR, 0, path@.len() as u64, 0, path@, o, final(kernel))
                && r == signed(o.value),
{
    let o = syscall_handler(kernel, SYS_CHDIR, 0, path.len() as u64, 0, path);
    assert(handled(old(kernel), SYS_CHDIR, 0, path@.len() as u64, 0, path@, o, kernel));
    to_signed(o.value)
}

/// Copies the working directory into the front of `buf` and gives the
/// number of bytes copied, or -1.
pub fn getcwd<D: BlockDevice>(kernel: &mut Kernel<D>, buf: &mut Vec<u8>) -> (r: i64)
    requires
        old(kernel).wf(),
    ensures
        final(kernel).wf(),
        final(buf)@.len() == old(buf)@.len(),
        r == -1 || 0 <= r <= old(buf)@.len(),
        exists|o: SyscallOutcome| #[trigger]
            handled(
                old(kernel),
                SYS_GETCWD,
                0,
                old(buf)@.len() as u64,
                0,
                Seq::empty(),
                o,
                final(kernel),
            ) && if o.value == FAILURE {
                r == -1 && final(buf)@ == old(buf)@
            } else {
                r == signed(o.value) && final(buf)@ == filled(old(buf)@, o.output@)
            },
{
    let n: usize = buf.len();
    let o = syscall_handler(kernel, SYS_GETCWD, 0, n as u64, 0, &[]);
    assert(handled(old(kernel), SYS_GETCWD, 0, old(buf)@.len() as u64, 0, Seq::empty(), o, kernel));
    if o.value == FAILURE {
        return -1;
    }
    let copied = copy_front(buf, &o.output);
    assert(o.output@.subrange(0, copied as int) =~= o.output@);
    to_signed(copied as u64)
}

/// Copies the next entries of the directory at descriptor `fd` into the
/// front of `buf` and gives the number of bytes copied, or -1.
pub fn getdents<D: BlockDevice>(kernel: &mut Kernel<D>, fd: u64, buf: &mut Vec<u8>) -> (r: i64)
    requires
        old(kernel).wf(),
    ensures
        final(kernel).wf(),
        final(buf)@.len() == old(buf)@.len(),
        r == -1 || 0 <= r <= old(buf)@.len(),
        exists|o: SyscallOutcome| #[trigger]
            handled(
                old(kernel),
                SYS_GETDENTS,
                fd,
                0,
                old(buf)@.len() as u64,
                Seq::empty(),
                o,
                final(kernel),
            ) && if o.value == FAILURE {
                r == -1 && final(buf)@ == old(buf)@
            } else {
                r == signed(o.value) && final(buf)@ == filled(old(buf)@, o.output@)
            },
{
    let n: usize = buf.len();
    let o = syscall_handler(kernel, SYS_GETDENTS, fd, 0, n as u64, &[]);
    assert(handled(
        old(kernel),
        SYS_GETDENTS,
        fd,
        0,
        old(buf)@.len() as u64,
        Seq::empty(),
        o,
        kernel,
    ));
    if o.value == FAILURE {
        return -1;
    }
    let copied = copy_front(buf, &o.output);
    assert(o.output@.subrange(0, copied as int) =~= o.output@);
    to_signed(copied as u64)
}

} // verus!
