//! What runs of system calls give: on an in-memory filesystem, what was
//! written through one descriptor is read through the next, and a
//! directory cannot be removed before the directory made in it; and the
//! task filesystem lists each task once.

use vstd::prelude::*;
use crate::cpu::syscall::{
    clamped, count_value, done_value, handled, lemma_task_names_differ, shows, Kernel,
    SyscallOutcome, FAILURE, MAX_READ,
};
use crate::text::segments;
use crate::user::syscalls::{SYS_CLOSE, SYS_MKDIR, SYS_OPEN, SYS_READ, SYS_RMDIR, SYS_WRITE};
use crate::vfs::block::BlockDevice;
use crate::vfs::fd::{first_free, lemma_first_free, FdKind};
use crate::vfs::mount::{FileKind, OpenFile, Vfs};
use crate::vfs::tasksfs::live_listing;
use crate::vfs::tmpfs::{lemma_written_file_reads_back, TmpFileHandle, TmpFs};
use crate::vfs::types::{
    read_window, Filesystem, OpenFlags, VfsError, VfsResult, MAX_FDS, O_APPEND, O_DIRECTORY,
    O_TRUNC,
};

verus! {

impl<D: BlockDevice> Kernel<D> {
    /// Position in the mount table of the mount that holds what `input`
    /// names for the task that runs.
    pub open spec fn mount_of(&self, input: Seq<u8>) -> int {
        self.vfs.holder(self.path_of(input))
    }

    /// Whether the mount at position `i` is an in-memory filesystem.
    pub open spec fn memory_at(&self, i: int) -> bool {
        0 <= i < self.vfs.mounts@.len() && self.vfs.mounts@[i].fs is Tmp
    }

    /// The in-memory filesystem mounted at position `i`.
    pub open spec fn memory(&self, i: int) -> TmpFs {
        self.vfs.mounts@[i].fs->Tmp_0
    }

    /// Whether descriptor `fd` of the task that runs stands for the open
    /// file `h` of the in-memory filesystem mounted at position `i`.
    pub open spec fn holds_file(&self, fd: int, i: int, h: TmpFileHandle) -> bool {
        &&& self.sched.tasks@.len() > 0
        &&& 3 <= fd < MAX_FDS
        &&& self.memory_at(i)
        &&& self.table()[fd] matches Some(FdKind::File(f)) && f.kind == FileKind::Tmp(h) && f.mount@
            == self.vfs.points()[i]
    }

    /// What opening a file of an in-memory filesystem does: the
    /// filesystem decides, and where it opens the file and a descriptor is
    /// free, the lowest free descriptor stands for the file. The result
    /// is what the filesystem gave.
    pub proof fn lemma_opened_in_memory(
        &self,
        input: Seq<u8>,
        flags: u32,
        o: SyscallOutcome,
        after: &Self,
    ) -> (r: VfsResult<TmpFileHandle>)
        requires
            self.wf(),
            vstd::utf8::valid_utf8(input),
            !OpenFlags(flags).contains_spec(OpenFlags(O_DIRECTORY)),
            self.memory_at(self.mount_of(input)),
            self.opened(input, flags, o, after),
        ensures
            ({
                let i = self.mount_of(input);
                let fd = first_free(self.table());
                &&& after.memory_at(i)
                &&& after.vfs.points() == self.vfs.points()
                &&& after.working_dir() == self.working_dir()
                &&& after.sched.tasks@.len() == self.sched.tasks@.len()
                &&& self.memory(i).opens(
                    self.vfs.relative(self.path_of(input)),
                    OpenFlags(flags),
                    r,
                    &after.memory(i),
                )
                &&& match r {
                    Ok(h) => if self.sched.tasks@.len() > 0 && fd < MAX_FDS {
                        &&& o.value == fd
                        &&& after.holds_file(fd, i, h)
                        &&& after.table() == self.table().update(fd, after.table()[fd])
                    } else {
                        o.value == FAILURE
                    },
                    Err(_) => o.value == FAILURE,
                }
            }),
    {
        let path = self.path_of(input);
        let i = self.mount_of(input);
        let (mid, res, held) = choose|mid: Self, res: VfsResult<OpenFile>, held: Self|
            #![trigger mid.vfs.opens(self.path_of(input), OpenFlags(flags), res, &held.vfs)]
            {
                &&& self.refreshes(&mid)
                &&& mid.keeps_but_mounts(&held)
                &&& mid.vfs.opens(self.path_of(input), OpenFlags(flags), res, &held.vfs)
                &&& match res {
                    Ok(file) => held.installed(FdKind::File(file), o.value, after),
                    Err(_) => o.value == FAILURE && held.unchanged(after),
                }
            };
        assert(mid.vfs.points() =~= self.vfs.points());
        assert(mid.vfs.mounts@[i].fs == self.vfs.mounts@[i].fs);
        assert(held.vfs.points() == mid.vfs.points());
        assert(after.vfs.mounts@ == held.vfs.mounts@);
        assert(after.vfs.points() =~= held.vfs.points());
        assert(mid.vfs.mounts@[i].fs.opens(
            mid.vfs.relative(path),
            OpenFlags(flags),
            Vfs::<D>::kind_of(res),
            &held.vfs.mounts@[i].fs,
        ));
        if self.sched.tasks@.len() > 0 {
            lemma_first_free(self.table());
        }
        match res {
            Ok(file) => Ok(file.kind->Tmp_0),
            Err(e) => Err(e),
        }
    }

    /// What writing to a file of an in-memory filesystem does: the handle
    /// writes into the filesystem it was opened in, and the descriptor
    /// stands for the handle as the write left it. The result is what
    /// the handle gave and the handle afterwards.
    pub proof fn lemma_written_in_memory(
        &self,
        fd: usize,
        i: int,
        h: TmpFileHandle,
        data: Seq<u8>,
        o: SyscallOutcome,
        after: &Self,
    ) -> (r: (VfsResult<usize>, TmpFileHandle))
        requires
            self.wf(),
            self.holds_file(fd as int, i, h),
            self.written(fd, data, o, after),
        ensures
            after.memory_at(i),
            after.vfs.points() == self.vfs.points(),
            after.working_dir() == self.working_dir(),
            after.sched.tasks@.len() == self.sched.tasks@.len(),
            h.writes(&self.memory(i), data, r.0, &r.1, &after.memory(i)),
            o.value == count_value(r.0),
            after.holds_file(fd as int, i, r.1),
            after.table() == self.table().update(fd as int, after.table()[fd as int]),
    {
        let f = self.table()[fd as int]->0->File_0;
        let g = after.table()[fd as int]->0->File_0;
        let res = choose|res: VfsResult<usize>| #[trigger]
            self.vfs.writes(f, data, res, g, &after.vfs) && o.value == count_value(res);
        assert(self.vfs.first_at(f.mount@, i)) by {
            assert forall|k: int| 0 <= k < i implies (#[trigger] self.vfs.mounts@[k]).path@
                != f.mount@ by {
                assert(self.vfs.points()[k] == self.vfs.mounts@[k].path@);
                assert(self.vfs.points()[i] == self.vfs.mounts@[i].path@);
            }
            assert(self.vfs.points()[i] == self.vfs.mounts@[i].path@);
        }
        assert(after.vfs.points() =~= self.vfs.points());
        (res, g.kind->Tmp_0)
    }

    /// What closing a file of an in-memory filesystem does: the
    /// descriptor becomes free and the mounts stay as they are.
    pub proof fn lemma_closed_in_memory(
        &self,
        fd: usize,
        i: int,
        h: TmpFileHandle,
        o: SyscallOutcome,
        after: &Self,
    )
        requires
            self.wf(),
            self.holds_file(fd as int, i, h),
            self.closed(fd, o, after),
        ensures
            o.value == 0,
            after.vfs.mounts@ == self.vfs.mounts@,
            after.table() == self.table().update(fd as int, None),
            after.working_dir() == self.working_dir(),
            after.sched.tasks@.len() == self.sched.tasks@.len(),
    {
    }

    /// What reading from a file of an in-memory filesystem does: the
    /// handle reads into a buffer of at most `MAX_READ` bytes, and the
    /// call gives what the handle gave. The result is what the handle
    /// gave, the handle afterwards and the buffer.
    pub proof fn lemma_read_in_memory(
        &self,
        fd: usize,
        i: int,
        h: TmpFileHandle,
        len: usize,
        o: SyscallOutcome,
        after: &Self,
    ) -> (r: (VfsResult<usize>, TmpFileHandle, Seq<u8>))
        requires
            self.holds_file(fd as int, i, h),
            self.was_read(fd, len, o, after),
        ensures
            h.reads(
                Self::blank(
                    if len < MAX_READ {
                        len as int
                    } else {
                        MAX_READ as int
                    },
                ),
                r.0,
                &r.1,
                r.2,
            ),
            match r.0 {
                Ok(n) => o.value == n && o.output@ == r.2.subrange(0, n as int),
                Err(_) => o.value == FAILURE && o.output@.len() == 0,
            },
    {
        let size = if len < MAX_READ {
            len as int
        } else {
            MAX_READ as int
        };
        let f = self.table()[fd as int]->0->File_0;
        let g = after.table()[fd as int]->0->File_0;
        let (res, out) = choose|res: VfsResult<usize>, out: Seq<u8>| #[trigger]
            self.vfs.reads(f, Self::blank(size), res, g, out) && match res {
                Ok(n) => o.value == n && o.output@ == out.subrange(0, n as int),
                Err(_) => o.value == FAILURE && o.output@.len() == 0,
            };
        (res, g.kind->Tmp_0, out)
    }

    /// What is written to a file of an in-memory filesystem through one
    /// descriptor is read through the next.
    ///
    /// A task opens a file of an in-memory filesystem for writing, one
    /// that is not there yet or any file with `O_TRUNC`. It writes `data`, closes the descriptor, opens the
    /// same path for reading, without `O_TRUNC` and `O_APPEND`, and reads
    /// at least as many bytes as it wrote. Then every call succeeds: the
    /// write gives the number of bytes of `data`, the close gives zero,
    /// the second open gives the descriptor that the first one gave, and
    /// the read gives exactly `data`.
    pub proof fn lemma_written_file_is_read_back(
        &self,
        input: Seq<u8>,
        first: u32,
        opened: SyscallOutcome,
        k1: &Self,
        data: Seq<u8>,
        wrote: SyscallOutcome,
        k2: &Self,
        closed: SyscallOutcome,
        k3: &Self,
        second: u32,
        again: SyscallOutcome,
        k4: &Self,
        len: usize,
        read: SyscallOutcome,
        k5: &Self,
    )
        requires
            self.wf(),
            k1.wf(),
            k2.wf(),
            k3.wf(),
            vstd::utf8::valid_utf8(input),
            self.memory_at(self.mount_of(input)),
            !OpenFlags(first).contains_spec(OpenFlags(O_DIRECTORY)),
            OpenFlags(first).writable(),
            self.opened(input, first, opened, k1),
            opened.value != FAILURE,
            OpenFlags(first).contains_spec(OpenFlags(O_TRUNC)) || self.memory(
                self.mount_of(input),
            ).root.view().find(segments(self.vfs.relative(self.path_of(input)), '/')) is Err,
            data.len() <= len,
            data.len() <= MAX_READ,
            k1.written(opened.value as usize, data, wrote, k2),
            k2.closed(opened.value as usize, closed, k3),
            !OpenFlags(second).contains_spec(OpenFlags(O_DIRECTORY)),
            OpenFlags(second).readable(),
            !OpenFlags(second).contains_spec(OpenFlags(O_TRUNC)),
            !OpenFlags(second).contains_spec(OpenFlags(O_APPEND)),
            k3.opened(input, second, again, k4),
            k4.was_read(again.value as usize, len, read, k5),
        ensures
            3 <= opened.value < MAX_FDS,
            wrote.value == data.len(),
            closed.value == 0,
            again.value == opened.value,
            read.value == data.len(),
            read.output@ == data,
    {
        let i = self.mount_of(input);
        let path = self.vfs.relative(self.path_of(input));
        let r1 = self.lemma_opened_in_memory(input, first, opened, k1);
        let fd = first_free(self.table());
        assert(r1 is Ok && fd < MAX_FDS);
        let h = r1->Ok_0;
        assert(k1.holds_file(fd, i, h));
        let f = k1.table()[fd]->0->File_0;
        assert(k1.table()[fd] == Some(FdKind::File(f)) && f.kind == FileKind::Tmp(h));
        let (w, g) = k1.lemma_written_in_memory(fd as usize, i, h, data, wrote, k2);
        k2.lemma_closed_in_memory(fd as usize, i, g, closed, k3);
        assert(k3.vfs.points() =~= self.vfs.points());
        assert(k3.path_of(input) == self.path_of(input));
        assert(k3.mount_of(input) == i);
        assert(k3.vfs.relative(k3.path_of(input)) == path);
        let r4 = k3.lemma_opened_in_memory(input, second, again, k4);
        lemma_written_file_reads_back(
            &self.memory(i),
            &k1.memory(i),
            path,
            OpenFlags(first),
            h,
            data,
            w,
            g,
            &k2.memory(i),
            OpenFlags(second),
            r4,
            &k4.memory(i),
        );
        lemma_first_free(self.table());
        lemma_first_free(k3.table());
        let next = first_free(k3.table());
        assert(k3.table()[fd] is None);
        if next < fd {
            assert(k3.table()[next] == k2.table()[next]);
            assert(k2.table()[next] == k1.table()[next]);
            assert(k1.table()[next] == self.table()[next]);
            assert(self.table()[next] is Some);
        }
        assert(next == fd);
        let h2 = r4->Ok_0;
        assert(k4.holds_file(fd, i, h2));
        let (res, after, out) = k4.lemma_read_in_memory(fd as usize, i, h2, len, read, k5);
        assert(read_window(data, 0, data.len() as int) =~= data);
    }
}

/// By system calls, what is written to a file of an in-memory filesystem
/// is read back.
///
/// A task makes five calls, each with the kernel as the call before left
/// it: it opens the path `path`, which an in-memory filesystem holds, for
/// writing, a file that is not there yet or any file with `O_TRUNC`; it
/// writes `data` to the descriptor it got; it closes that descriptor; it opens the same path
/// for reading, without `O_TRUNC` and `O_APPEND`; and it reads `len`
/// bytes, at least as many as it wrote, from the descriptor it got then.
/// Then the first open gives a descriptor above the standard streams,
/// the write gives the number of bytes of `data`, the close gives zero,
/// the second open gives the same descriptor again, and the read gives
/// exactly `data`. The arguments that a call does not use are arbitrary.
pub proof fn lemma_calls_write_then_read<D: BlockDevice>(
    k0: &Kernel<D>,
    path: Seq<u8>,
    first: u64,
    opened: SyscallOutcome,
    k1: &Kernel<D>,
    data: Seq<u8>,
    wrote: SyscallOutcome,
    k2: &Kernel<D>,
    closed: SyscallOutcome,
    k3: &Kernel<D>,
    second: u64,
    again: SyscallOutcome,
    k4: &Kernel<D>,
    len: u64,
    read: SyscallOutcome,
    k5: &Kernel<D>,
    unused: Seq<u64>,
    nothing: Seq<u8>,
)
    requires
        unused.len() == 9,
        k0.wf(),
        k1.wf(),
        k2.wf(),
        k3.wf(),
        vstd::utf8::valid_utf8(path),
        k0.memory_at(k0.mount_of(path)),
        !OpenFlags((first % 0x1_0000_0000) as u32).contains_spec(OpenFlags(O_DIRECTORY)),
        OpenFlags((first % 0x1_0000_0000) as u32).writable(),
        handled(k0, SYS_OPEN, unused[0], unused[1], first, path, opened, k1),
        opened.value != FAILURE,
        OpenFlags((first % 0x1_0000_0000) as u32).contains_spec(OpenFlags(O_TRUNC)) || k0.memory(
            k0.mount_of(path),
        ).root.view().find(segments(k0.vfs.relative(k0.path_of(path)), '/')) is Err,
        data.len() <= len,
        data.len() <= MAX_READ,
        handled(k1, SYS_WRITE, opened.value, unused[2], unused[3], data, wrote, k2),
        handled(k2, SYS_CLOSE, opened.value, unused[4], unused[5], nothing, closed, k3),
        !OpenFlags((second % 0x1_0000_0000) as u32).contains_spec(OpenFlags(O_DIRECTORY)),
        OpenFlags((second % 0x1_0000_0000) as u32).readable(),
        !OpenFlags((second % 0x1_0000_0000) as u32).contains_spec(OpenFlags(O_TRUNC)),
        !OpenFlags((second % 0x1_0000_0000) as u32).contains_spec(OpenFlags(O_APPEND)),
        handled(k3, SYS_OPEN, unused[6], unused[7], second, path, again, k4),
        handled(k4, SYS_READ, again.value, unused[8], len, nothing, read, k5),
    ensures
        3 <= opened.value < MAX_FDS,
        wrote.value == data.len(),
        closed.value == 0,
        again.value == opened.value,
        read.value == data.len(),
        read.output@ == data,
{
    let f1 = (first % 0x1_0000_0000) as u32;
    let f2 = (second % 0x1_0000_0000) as u32;
    let r1 = k0.lemma_opened_in_memory(path, f1, opened, k1);
    let fd = first_free(k0.table());
    assert(r1 is Ok && fd < MAX_FDS);
    assert(clamped(opened.value) == opened.value as usize);
    let h = r1->Ok_0;
    let i = k0.mount_of(path);
    assert(k1.holds_file(fd, i, h));
    let (w, g) = k1.lemma_written_in_memory(fd as usize, i, h, data, wrote, k2);
    k2.lemma_closed_in_memory(fd as usize, i, g, closed, k3);
    assert(k3.vfs.points() =~= k0.vfs.points());
    assert(k3.path_of(path) == k0.path_of(path));
    let r4 = k3.lemma_opened_in_memory(path, f2, again, k4);
    lemma_written_file_reads_back(
        &k0.memory(i),
        &k1.memory(i),
        k0.vfs.relative(k0.path_of(path)),
        OpenFlags(f1),
        h,
        data,
        w,
        g,
        &k2.memory(i),
        OpenFlags(f2),
        r4,
        &k4.memory(i),
    );
    lemma_first_free(k0.table());
    lemma_first_free(k3.table());
    let next = first_free(k3.table());
    assert(k3.table()[fd] is None);
    if next < fd {
        assert(k3.table()[next] == k2.table()[next]);
        assert(k2.table()[next] == k1.table()[next]);
        assert(k1.table()[next] == k0.table()[next]);
        assert(k0.table()[next] is Some);
    }
    assert(again.value == opened.value);
    assert(clamped(again.value) == again.value as usize);
    k0.lemma_written_file_is_read_back(
        path,
        f1,
        opened,
        k1,
        data,
        wrote,
        k2,
        closed,
        k3,
        f2,
        again,
        k4,
        clamped(len),
        read,
        k5,
    );
}

impl<D: BlockDevice> Kernel<D> {
    /// What making a directory in an in-memory filesystem does: the
    /// filesystem decides, and the value is zero when it agrees. The
    /// result is what the filesystem gave.
    pub proof fn lemma_made_dir_in_memory(
        &self,
        input: Seq<u8>,
        o: SyscallOutcome,
        after: &Self,
    ) -> (r: VfsResult<()>)
        requires
            vstd::utf8::valid_utf8(input),
            self.memory_at(self.mount_of(input)),
            self.made_dir(input, o, after),
        ensures
            after.memory_at(self.mount_of(input)),
            after.vfs.points() == self.vfs.points(),
            after.sched == self.sched,
            self.memory(self.mount_of(input)).makes_dir(
                self.vfs.relative(self.path_of(input)),
                r,
                &after.memory(self.mount_of(input)),
            ),
            o.value == done_value(r),
    {
        choose|res: VfsResult<()>| #[trigger]
            self.vfs.makes_dir(self.path_of(input), res, &after.vfs) && o.value == done_value(res)
    }

    /// What removing a directory of an in-memory filesystem does: the
    /// filesystem decides, and the value is zero when it agrees. The
    /// result is what the filesystem gave.
    pub proof fn lemma_removed_dir_in_memory(
        &self,
        input: Seq<u8>,
        o: SyscallOutcome,
        after: &Self,
    ) -> (r: VfsResult<()>)
        requires
            vstd::utf8::valid_utf8(input),
            self.memory_at(self.mount_of(input)),
            self.removed_dir(input, o, after),
        ensures
            after.memory_at(self.mount_of(input)),
            after.vfs.points() == self.vfs.points(),
            after.sched == self.sched,
            self.memory(self.mount_of(input)).removes_dir(
                self.vfs.relative(self.path_of(input)),
                r,
                &after.memory(self.mount_of(input)),
            ),
            o.value == done_value(r),
    {
        choose|res: VfsResult<()>| #[trigger]
            self.vfs.removes_dir(self.path_of(input), res, &after.vfs) && o.value == done_value(
                res,
            )
    }

    /// A directory in which another was made is not removed before the
    /// other is.
    ///
    /// A task makes the directory that `outer` names and then the one
    /// that `inner` names, both in the same in-memory filesystem, the
    /// second with the names of the first and one more below the mount
    /// point. Then removing the first is refused, and the filesystem
    /// stays as it is; removing the second succeeds; and after that
    /// removing the first succeeds.
    pub proof fn lemma_nested_directories(
        &self,
        outer: Seq<u8>,
        inner: Seq<u8>,
        made: SyscallOutcome,
        k1: &Self,
        nested: SyscallOutcome,
        k2: &Self,
        refused: SyscallOutcome,
        k3: &Self,
        emptied: SyscallOutcome,
        k4: &Self,
        removed: SyscallOutcome,
        k5: &Self,
    )
        requires
            vstd::utf8::valid_utf8(outer),
            vstd::utf8::valid_utf8(inner),
            self.memory_at(self.mount_of(outer)),
            self.mount_of(inner) == self.mount_of(outer),
            segments(self.vfs.relative(self.path_of(outer)), '/').len() > 0,
            segments(self.vfs.relative(self.path_of(inner)), '/').len() > 0,
            segments(self.vfs.relative(self.path_of(inner)), '/').drop_last() == segments(
                self.vfs.relative(self.path_of(outer)),
                '/',
            ),
            self.made_dir(outer, made, k1),
            made.value == 0,
            k1.made_dir(inner, nested, k2),
            nested.value == 0,
            k2.removed_dir(outer, refused, k3),
            k3.removed_dir(inner, emptied, k4),
            k4.removed_dir(outer, removed, k5),
        ensures
            refused.value == FAILURE,
            k3.memory(self.mount_of(outer)).root.view() == k2.memory(
                self.mount_of(outer),
            ).root.view(),
            emptied.value == 0,
            removed.value == 0,
    {
        let i = self.mount_of(outer);
        let a = self.vfs.relative(self.path_of(outer));
        let b = self.vfs.relative(self.path_of(inner));
        let r1 = self.lemma_made_dir_in_memory(outer, made, k1);
        assert(k1.path_of(inner) == self.path_of(inner));
        assert(k1.mount_of(inner) == i);
        let r2 = k1.lemma_made_dir_in_memory(inner, nested, k2);
        assert(k2.path_of(outer) == self.path_of(outer));
        assert(k2.mount_of(outer) == i);
        let r3 = k2.lemma_removed_dir_in_memory(outer, refused, k3);
        assert(k3.path_of(inner) == self.path_of(inner));
        assert(k3.mount_of(inner) == i);
        let r4 = k3.lemma_removed_dir_in_memory(inner, emptied, k4);
        assert(k4.path_of(outer) == self.path_of(outer));
        assert(k4.mount_of(outer) == i);
        let r5 = k4.lemma_removed_dir_in_memory(outer, removed, k5);
        crate::vfs::nested::lemma_nested_directories(self.memory(i).root.view(), a, b);
    }
}

/// By system calls, a directory in which another was made is not removed
/// before the other is.
///
/// A task makes five calls, each with the kernel as the call before left
/// it: it makes the directory that `outer` names and then the one that
/// `inner` names, both in the same in-memory filesystem, the second with
/// the names of the first and one more below the mount point, and both
/// calls give zero; it then asks to remove the first, the second, and
/// the first again. Then the first removal fails and leaves the
/// filesystem as it is, and the other two give zero. The arguments that
/// a call does not use are arbitrary.
pub proof fn lemma_calls_nested_directories<D: BlockDevice>(
    k0: &Kernel<D>,
    outer: Seq<u8>,
    inner: Seq<u8>,
    made: SyscallOutcome,
    k1: &Kernel<D>,
    nested: SyscallOutcome,
    k2: &Kernel<D>,
    refused: SyscallOutcome,
    k3: &Kernel<D>,
    emptied: SyscallOutcome,
    k4: &Kernel<D>,
    removed: SyscallOutcome,
    k5: &Kernel<D>,
    unused: Seq<u64>,
)
    requires
        unused.len() == 15,
        vstd::utf8::valid_utf8(outer),
        vstd::utf8::valid_utf8(inner),
        k0.memory_at(k0.mount_of(outer)),
        k0.mount_of(inner) == k0.mount_of(outer),
        segments(k0.vfs.relative(k0.path_of(outer)), '/').len() > 0,
        segments(k0.vfs.relative(k0.path_of(inner)), '/').len() > 0,
        segments(k0.vfs.relative(k0.path_of(inner)), '/').drop_last() == segments(
            k0.vfs.relative(k0.path_of(outer)),
            '/',
        ),
        handled(k0, SYS_MKDIR, unused[0], unused[1], unused[2], outer, made, k1),
        made.value == 0,
        handled(k1, SYS_MKDIR, unused[3], unused[4], unused[5], inner, nested, k2),
        nested.value == 0,
        handled(k2, SYS_RMDIR, unused[6], unused[7], unused[8], outer, refused, k3),
        handled(k3, SYS_RMDIR, unused[9], unused[10], unused[11], inner, emptied, k4),
        handled(k4, SYS_RMDIR, unused[12], unused[13], unused[14], outer, removed, k5),
    ensures
        refused.value == FAILURE,
        k3.memory(k0.mount_of(outer)).root.view() == k2.memory(k0.mount_of(outer)).root.view(),
        emptied.value == 0,
        removed.value == 0,
{
    k0.lemma_nested_directories(
        outer,
        inner,
        made,
        k1,
        nested,
        k2,
        refused,
        k3,
        emptied,
        k4,
        removed,
        k5,
    );
}

impl<D: BlockDevice> Kernel<D> {
    /// A task filesystem that was brought up to date lists the tasks of
    /// the kernel that are not dead, each once: the names in its root
    /// directory differ from one another.
    pub proof fn lemma_listed_tasks_differ(&self, now: &Self, i: int)
        requires
            self.wf(),
            self.refreshes(now),
            0 <= i < now.vfs.mounts@.len(),
            self.vfs.mounts@[i].fs is Tasks,
        ensures
            now.vfs.mounts@[i].fs is Tasks,
            shows((now.vfs.mounts@[i].fs->Tasks_0).tasks@, self.sched.tasks@),
            forall|a: int, b: int|
                0 <= a < b < live_listing((now.vfs.mounts@[i].fs->Tasks_0).tasks@).len() ==> (
                #[trigger] live_listing((now.vfs.mounts@[i].fs->Tasks_0).tasks@)[a]).name != (
                #[trigger] live_listing((now.vfs.mounts@[i].fs->Tasks_0).tasks@)[b]).name,
    {
        assert(self.refreshed(self.vfs.mounts@[i].fs, now.vfs.mounts@[i].fs));
        lemma_task_names_differ(
            (now.vfs.mounts@[i].fs->Tasks_0).tasks@,
            self.sched.tasks@,
            self.sched.next_id,
        );
    }
}

} // verus!
