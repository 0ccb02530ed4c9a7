//! The system calls: what each does to the kernel's state, what it gives
//! back, and what it asks of the code around it.
//!
//! The entry path copies the bytes that a call reads from user memory
//! into `input`, and copies `output` back to user memory afterwards.

use vstd::prelude::*;
use vstd::string::*;
use crate::drivers::keyboard::{line_of, Keyboard};
use crate::mem::pmm::BitmapAllocator;
use crate::sched::task::{Task, TaskInfo, TaskState};
use crate::sched::{decided, Scheduler, SwitchInfo};
use crate::text::{decode_text, string_of};
use crate::user::syscalls::{
    wire_bytes, WireEntry, DT_DEVICE, DT_DIR, DT_FILE, SYS_CHDIR, SYS_CLOSE, SYS_EXIT,
    SYS_GETCWD, SYS_GETDENTS, SYS_MKDIR, SYS_OPEN, SYS_READ, SYS_RMDIR, SYS_UNLINK, SYS_WRITE,
};
use crate::vfs::block::BlockDevice;
use crate::vfs::fd::{first_free, FdKind, FdTable};
use crate::vfs::mount::{FsKind, OpenFile, Vfs};
use crate::vfs::path::{resolve_path, resolved_path};
use crate::vfs::types::{
    DirEntry, DirEntryModel, FileType, Metadata, OpenFlags, VfsError, VfsResult, MAX_FDS,
    O_DIRECTORY,
    listing_view,
};

verus! {

/// The value a failed call gives back.
pub const FAILURE: u64 = u64::MAX;

/// The largest number of bytes a single read hands to a user program.
pub const MAX_READ: usize = 0x10_0000;

/// The kernel's state.
pub struct Kernel<D: BlockDevice> {
    pub sched: Scheduler,
    pub vfs: Vfs<D>,
    pub keyboard: Keyboard,
    pub pmm: Option<BitmapAllocator>,
    /// Number of timer ticks since boot.
    pub ticks: u64,
    /// What was written to the terminal and not shown yet.
    pub console: Vec<u8>,
}

/// What a system call gives back and asks for.
pub struct SyscallOutcome {
    /// The value for the caller.
    pub value: u64,
    /// The bytes for the caller's buffer.
    pub output: Vec<u8>,
    /// The context switch to make before returning, if any.
    pub switch: Option<SwitchInfo>,
    /// The call found no keyboard input: nothing was done, and the call
    /// is to be made again once the keyboard has given a character.
    pub wait_for_input: bool,
}

/// Whether `infos` shows the tasks `tasks`, one entry for each in their
/// order.
pub open spec fn shows(infos: Seq<TaskInfo>, tasks: Seq<Task>) -> bool {
    &&& infos.len() == tasks.len()
    &&& forall|i: int|
        0 <= i < infos.len() ==> (#[trigger] infos[i]).id == tasks[i].id && infos[i].state
            == tasks[i].state && infos[i].mode == tasks[i].mode && infos[i].name@
            == tasks[i].name@
}

/// The task filesystem, when it shows the tasks of a scheduler, lists
/// the tasks that are not dead under names that differ from one another:
/// the tasks of a scheduler have numbers of their own.
pub proof fn lemma_task_names_differ(infos: Seq<TaskInfo>, tasks: Seq<Task>, next_id: u64)
    requires
        shows(infos, tasks),
        crate::sched::numbered(tasks, next_id),
    ensures
        forall|a: int, b: int|
            0 <= a < b < crate::vfs::tasksfs::live_listing(infos).len() ==> (
            #[trigger] crate::vfs::tasksfs::live_listing(infos)[a]).name != (
            #[trigger] crate::vfs::tasksfs::live_listing(infos)[b]).name,
{
    assert forall|i: int, j: int| 0 <= i < j < infos.len() implies (#[trigger] infos[i]).id != (
    #[trigger] infos[j]).id by {
        assert(tasks[i].id != tasks[j].id);
    }
    crate::vfs::tasksfs::lemma_live_names_differ(infos);
}

/// The value a call gives for a count, or for its failure.
pub open spec fn count_value(res: VfsResult<usize>) -> u64 {
    match res {
        Ok(n) => n as u64,
        Err(_) => FAILURE,
    }
}

/// The value a call gives when it is done, or for its failure.
pub open spec fn done_value(res: VfsResult<()>) -> u64 {
    match res {
        Ok(_) => 0,
        Err(_) => FAILURE,
    }
}

/// The type byte of an entry on the wire.
pub open spec fn type_byte(t: FileType) -> u8 {
    match t {
        FileType::File => DT_FILE,
        FileType::Directory => DT_DIR,
        FileType::Device => DT_DEVICE,
    }
}

/// A listing entry as it goes on the wire.
pub open spec fn wire_of(e: DirEntryModel) -> WireEntry {
    WireEntry { file_type: type_byte(e.file_type), name: vstd::utf8::encode_utf8(e.name) }
}

/// The bytes written for the entries from `position` on into `room`
/// bytes, and the position of the first entry that did not fit.
pub open spec fn dirents(entries: Seq<DirEntryModel>, position: int, room: int) -> (Seq<u8>, int)
    decreases entries.len() - position,
{
    if position < 0 || position >= entries.len() {
        (Seq::empty(), position)
    } else {
        let bytes = wire_bytes(wire_of(entries[position]));
        if bytes.len() > room {
            (Seq::empty(), position)
        } else {
            let rest = dirents(entries, position + 1, room - bytes.len());
            (bytes.add(rest.0), rest.1)
        }
    }
}

/// Writes the entries from `position` on for a buffer of `buf_len` bytes.
pub fn encode_dirents(entries: &Vec<DirEntry>, position: usize, buf_len: usize) -> (r: (
    Vec<u8>,
    usize,
))
    ensures
        r.0@ == dirents(listing_view(entries@), position as int, buf_len as int).0,
        r.1 as int == dirents(listing_view(entries@), position as int, buf_len as int).1,
        r.0@.len() <= buf_len,
        position <= r.1,
        r.1 <= entries@.len() || r.1 == position,
{
    let mut out: Vec<u8> = Vec::new();
    let mut pos: usize = position;
    let n: usize = entries.len();
    let ghost all = listing_view(entries@);
    proof {
        assert(out@.add(dirents(all, pos as int, buf_len as int).0) =~= dirents(
            all,
            pos as int,
            buf_len as int,
        ).0);
    }
    while pos < n
        invariant
            position <= pos,
            pos <= n || pos == position,
            n == entries@.len(),
            all == listing_view(entries@),
            out@.len() <= buf_len,
            out@.add(dirents(all, pos as int, buf_len - out@.len()).0) == dirents(
                all,
                position as int,
                buf_len as int,
            ).0,
            dirents(all, pos as int, buf_len - out@.len()).1 == dirents(
                all,
                position as int,
                buf_len as int,
            ).1,
        decreases n - pos,
    {
        let entry = &entries[pos];
        let name: &[u8] = entry.name.as_str().as_bytes();
        let name_len: usize = name.len();
        let room: usize = buf_len - out.len();
        assert(all[pos as int] == entry@);
        let ghost bytes = wire_bytes(wire_of(all[pos as int]));
        if room < 3 || room - 3 < name_len {
            return (out, pos);
        }
        let file_type: u8 = match entry.file_type {
            FileType::File => DT_FILE,
            FileType::Directory => DT_DIR,
            FileType::Device => DT_DEVICE,
        };
        let ghost before = out@;
        out.push(file_type);
        out.push((name_len % 256) as u8);
        out.push(((name_len / 256) % 256) as u8);
        out.extend_from_slice(name);
        proof {
            assert(out@ =~= before.add(bytes));
            let rest = dirents(all, pos + 1, room - bytes.len());
            assert(before.add(bytes).add(rest.0) =~= before.add(bytes.add(rest.0)));
        }
        pos += 1;
    }
    proof {
        assert(out@.add(Seq::<u8>::empty()) =~= out@);
    }
    (out, pos)
}

impl SyscallOutcome {
    /// An outcome with a value and nothing else.
    pub fn value(value: u64) -> (r: Self)
        ensures
            r.value == value,
            r.output@.len() == 0,
            r.switch is None,
            !r.wait_for_input,
    {
        Self { value, output: Vec::new(), switch: None, wait_for_input: false }
    }

    /// The outcome of a call that failed.
    pub fn failure() -> (r: Self)
        ensures
            r.value == FAILURE,
            r.output@.len() == 0,
            r.switch is None,
            !r.wait_for_input,
    {
        Self::value(FAILURE)
    }
}

impl<D: BlockDevice> Kernel<D> {
    /// Every part of the kernel is as it needs to be.
    pub open spec fn wf(&self) -> bool {
        &&& self.sched.wf()
        &&& self.vfs.wf()
        &&& self.keyboard.wf()
        &&& self.pmm matches Some(a) ==> a.wf()
    }

    /// A kernel with the first kernel task, no mounts and no memory.
    pub fn new() -> (r: Self)
        ensures
            r.wf(),
            r.ticks == 0,
            r.console@.len() == 0,
            r.vfs.mounts@.len() == 0,
            r.pmm is None,
            r.keyboard.pending().len() == 0,
            r.sched.tasks@.len() == 1,
            r.sched.current == 0,
            r.sched.next_id == 1,
            r.sched.tasks@[0].id == 0,
            r.sched.tasks@[0].state == TaskState::Running,
            r.sched.tasks@[0].mode == crate::sched::task::TaskMode::Kernel,
            r.sched.tasks@[0].cwd@ == seq!['/'],
            r.sched.tasks@[0].fds.fresh(),
    {
        Self {
            sched: Scheduler::init(),
            vfs: Vfs::new(),
            keyboard: Keyboard::new(),
            pmm: None,
            ticks: 0,
            console: Vec::new(),
        }
    }

    /// Counts a timer tick and makes the scheduling decision that goes
    /// with it.
    pub fn timer_tick(&mut self) -> (r: Option<SwitchInfo>)
        requires
            old(self).wf(),
        ensures
            final(self).wf(),
            final(self).ticks == if old(self).ticks < u64::MAX {
                (old(self).ticks + 1) as u64
            } else {
                u64::MAX
            },
            r == crate::sched::decided(
                old(self).sched.tasks@,
                old(self).sched.current as int,
                final(self).ticks,
            ).2,
            final(self).sched.tasks@ == crate::sched::decided(
                old(self).sched.tasks@,
                old(self).sched.current as int,
                final(self).ticks,
            ).0,
            final(self).sched.current == crate::sched::decided(
                old(self).sched.tasks@,
                old(self).sched.current as int,
                final(self).ticks,
            ).1,
            final(self).sched.next_id == old(self).sched.next_id,
            final(self).vfs == old(self).vfs,
            final(self).keyboard == old(self).keyboard,
            final(self).pmm == old(self).pmm,
            final(self).console == old(self).console,
    {
        if self.ticks < u64::MAX {
            self.ticks = self.ticks + 1;
        }
        self.sched.schedule(self.ticks)
    }

    /// The number of timer ticks since boot.
    pub fn ticks(&self) -> (r: u64)
        ensures
            r == self.ticks,
    {
        self.ticks
    }

    /// The descriptor table of the task that runs.
    pub open spec fn table(&self) -> Seq<Option<FdKind<OpenFile>>> {
        self.sched.tasks@[self.sched.current as int].fds.fds@
    }

    /// The working directory of the task that runs, `/` when there is no
    /// task.
    pub open spec fn working_dir(&self) -> Seq<char> {
        if self.sched.tasks@.len() > 0 {
            self.sched.tasks@[self.sched.current as int].cwd@
        } else {
            seq!['/']
        }
    }

    /// The absolute path that the text of `input` names for the task that
    /// runs.
    pub open spec fn path_of(&self, input: Seq<u8>) -> Seq<char> {
        resolved_path(vstd::utf8::decode_utf8(input), self.working_dir())
    }

    /// Whether descriptor `fd` of the task that runs is one above the
    /// standard streams that stands for something.
    pub open spec fn has_fd(&self, fd: usize) -> bool {
        self.sched.tasks@.len() > 0 && 3 <= fd < MAX_FDS && self.table()[fd as int] is Some
    }

    /// Whether `after` differs from this kernel in nothing but the mounts
    /// and the descriptors of the task that runs.
    pub open spec fn keeps_but_files(&self, after: &Self) -> bool {
        let c = self.sched.current as int;
        &&& after.keyboard == self.keyboard
        &&& after.pmm == self.pmm
        &&& after.ticks == self.ticks
        &&& after.console == self.console
        &&& after.sched.current == self.sched.current
        &&& after.sched.next_id == self.sched.next_id
        &&& after.sched.tasks@ == if self.sched.tasks@.len() > 0 {
            self.sched.tasks@.update(
                c,
                Task { fds: after.sched.tasks@[c].fds, ..self.sched.tasks@[c] },
            )
        } else {
            self.sched.tasks@
        }
    }

    /// Whether `after` holds what this kernel holds.
    pub open spec fn unchanged(&self, after: &Self) -> bool {
        &&& self.keeps_but_files(after)
        &&& after.vfs.mounts@ == self.vfs.mounts@
        &&& self.sched.tasks@.len() > 0 ==> after.table() == self.table()
    }

    /// Whether `after` differs from this kernel in nothing but the mounts.
    pub open spec fn keeps_but_mounts(&self, after: &Self) -> bool {
        &&& after.keyboard == self.keyboard
        &&& after.pmm == self.pmm
        &&& after.ticks == self.ticks
        &&& after.console == self.console
        &&& after.sched == self.sched
    }

    /// Whether a filesystem that was `before` shows, as `now`, the state of
    /// this kernel: the task filesystem its tasks, the memory filesystem
    /// the figures of its page allocator; any other is as it was.
    pub open spec fn refreshed(&self, before: FsKind<D>, now: FsKind<D>) -> bool {
        match (before, now) {
            (FsKind::Tasks(_), FsKind::Tasks(t)) => shows(t.tasks@, self.sched.tasks@),
            (FsKind::Mem(_), FsKind::Mem(m)) => {
                &&& m.total_pages == match self.pmm {
                    Some(a) => a.total_pages,
                    None => 0,
                }
                &&& m.free_pages == match self.pmm {
                    Some(a) => a.free_pages,
                    None => 0,
                }
                &&& m.heap_kb == 1024
            },
            _ => !(before is Tasks) && !(before is Mem) && now == before,
        }
    }

    /// Whether `after` is this kernel with its synthetic filesystems
    /// brought up to date.
    pub open spec fn refreshes(&self, after: &Self) -> bool {
        &&& self.keeps_but_mounts(after)
        &&& after.vfs.mounts@.len() == self.vfs.mounts@.len()
        &&& forall|i: int|
            0 <= i < self.vfs.mounts@.len() ==> (#[trigger] after.vfs.mounts@[i]).path
                == self.vfs.mounts@[i].path && self.refreshed(
                self.vfs.mounts@[i].fs,
                after.vfs.mounts@[i].fs,
            )
    }

    /// Refreshes what the synthetic filesystems show: the tasks of the
    /// scheduler and the figures of the page allocator.
    pub fn refresh_views(&mut self)
        requires
            old(self).wf(),
        ensures
            final(self).wf(),
            old(self).refreshes(final(self)),
            final(self).vfs.points() == old(self).vfs.points(),
    {
        let total: u64 = crate::mem::pmm::total_pages(&self.pmm) as u64;
        let free: u64 = crate::mem::pmm::free_pages(&self.pmm) as u64;
        let heap: u64 = crate::mem::heap::size() as u64;
        let n: usize = self.vfs.mounts.len();
        let ghost points = self.vfs.points();
        let mut i: usize = 0;
        while i < n
            invariant
                i <= n,
                n == self.vfs.mounts@.len(),
                n == old(self).vfs.mounts@.len(),
                self.wf(),
                old(self).keeps_but_mounts(self),
                points == old(self).vfs.points(),
                self.vfs.points() == points,
                total == match self.pmm {
                    Some(a) => a.total_pages,
                    None => 0,
                },
                free == match self.pmm {
                    Some(a) => a.free_pages,
                    None => 0,
                },
                heap == 1024,
                forall|k: int|
                    0 <= k < n ==> (#[trigger] self.vfs.mounts@[k]).path == old(
                        self,
                    ).vfs.mounts@[k].path,
                forall|k: int|
                    0 <= k < i ==> old(self).refreshed(
                        old(self).vfs.mounts@[k].fs,
                        (#[trigger] self.vfs.mounts@[k]).fs,
                    ),
                forall|k: int|
                    i <= k < n ==> (#[trigger] self.vfs.mounts@[k]).fs == old(
                        self,
                    ).vfs.mounts@[k].fs,
            decreases n - i,
        {
            match &mut self.vfs.mounts[i].fs {
                FsKind::Tasks(t) => {
                    t.set_tasks(self.sched.snapshot());
                },
                FsKind::Mem(m) => {
                    m.set_figures(total, free, heap);
                },
                _ => {},
            }
            proof {
                assert(self.vfs.points() =~= points);
            }
            i += 1;
        }
    }

    /// The working directory of the task that runs, `/` when there is no
    /// task.
    pub fn cwd(&self) -> (r: String)
        requires
            self.wf(),
        ensures
            r@ == self.working_dir(),
    {
        match self.sched.get_cwd() {
            Some(c) => c,
            None => {
                let mut root = String::new();
                crate::text::push_char(&mut root, '/');
                assert(root@ =~= seq!['/']);
                root
            },
        }
    }

    /// The absolute path that the bytes `input` name for the task that
    /// runs, when they are text.
    pub fn user_path(&self, input: &[u8]) -> (r: Option<String>)
        requires
            self.wf(),
        ensures
            r is Some <==> vstd::utf8::valid_utf8(input@),
            r is Some ==> r->0@ == self.path_of(input@),
    {
        let path = match decode_text(input) {
            Some(p) => p,
            None => {
                return None;
            },
        };
        let cwd = self.cwd();
        Some(resolve_path(path.as_str(), cwd.as_str()))
    }

    /// Whether ending the task that runs may give `r` and leave the kernel
    /// as `after`: the task is dead, and the scheduler has decided which
    /// task runs next.
    pub open spec fn exited(&self, r: SyscallOutcome, after: &Self) -> bool {
        let ended = if self.sched.tasks@.len() > 0 {
            self.sched.tasks@.update(
                self.sched.current as int,
                Task { state: TaskState::Dead, ..self.sched.tasks@[self.sched.current as int] },
            )
        } else {
            self.sched.tasks@
        };
        let decision = decided(ended, self.sched.current as int, self.ticks);
        &&& r.value == 0
        &&& !r.wait_for_input
        &&& r.output@.len() == 0
        &&& r.switch == decision.2
        &&& after.sched.tasks@ == decision.0
        &&& after.sched.current == decision.1
        &&& after.sched.next_id == self.sched.next_id
        &&& after.vfs == self.vfs
        &&& after.keyboard == self.keyboard
        &&& after.pmm == self.pmm
        &&& after.ticks == self.ticks
        &&& after.console == self.console
    }

    /// Ends the task that runs and decides which task runs next.
    pub fn sys_exit(&mut self, code: u64) -> (r: SyscallOutcome)
        requires
            old(self).wf(),
        ensures
            final(self).wf(),
            old(self).exited(r, final(self)),
    {
        self.sched.exit();
        let switch = self.sched.schedule(self.ticks);
        SyscallOutcome { value: 0, output: Vec::new(), switch, wait_for_input: false }
    }

    /// Nothing is changed in a kernel that nothing was done to.
    pub proof fn lemma_unchanged(&self)
        requires
            self.wf(),
        ensures
            self.unchanged(self),
            self.keeps_but_files(self),
    {
        if self.sched.tasks@.len() > 0 {
            let c = self.sched.current as int;
            assert(self.sched.tasks@ =~= self.sched.tasks@.update(
                c,
                Task { fds: self.sched.tasks@[c].fds, ..self.sched.tasks@[c] },
            ));
        }
    }

    /// A kernel of which only the descriptor table of the task that runs
    /// was touched, and which holds the same descriptors as before, is
    /// unchanged.
    pub proof fn lemma_table_kept(&self, after: &Self)
        requires
            self.sched.tasks@.len() > 0,
            self.sched.current < self.sched.tasks@.len(),
            after.keyboard == self.keyboard,
            after.pmm == self.pmm,
            after.ticks == self.ticks,
            after.console == self.console,
            after.sched.current == self.sched.current,
            after.sched.next_id == self.sched.next_id,
            after.vfs.mounts@ == self.vfs.mounts@,
            after.sched.tasks@.len() == self.sched.tasks@.len(),
            forall|i: int|
                0 <= i < self.sched.tasks@.len() && i != self.sched.current
                    ==> after.sched.tasks@[i] == self.sched.tasks@[i],
            after.sched.tasks@[self.sched.current as int] == (Task {
                fds: after.sched.tasks@[self.sched.current as int].fds,
                ..self.sched.tasks@[self.sched.current as int]
            }),
            after.table() == self.table(),
        ensures
            self.unchanged(after),
    {
        let c = self.sched.current as int;
        assert(after.sched.tasks@ =~= self.sched.tasks@.update(
            c,
            Task { fds: after.sched.tasks@[c].fds, ..self.sched.tasks@[c] },
        ));
    }

    /// A kernel of which only the descriptor table of the task that runs
    /// and the mounts were touched keeps the rest.
    pub proof fn lemma_table_set(&self, after: &Self, fd: int, slot: Option<FdKind<OpenFile>>)
        requires
            self.sched.tasks@.len() > 0,
            self.sched.current < self.sched.tasks@.len(),
            after.keyboard == self.keyboard,
            after.pmm == self.pmm,
            after.ticks == self.ticks,
            after.console == self.console,
            after.sched.current == self.sched.current,
            after.sched.next_id == self.sched.next_id,
            after.sched.tasks@.len() == self.sched.tasks@.len(),
            forall|i: int|
                0 <= i < self.sched.tasks@.len() && i != self.sched.current
                    ==> after.sched.tasks@[i] == self.sched.tasks@[i],
            after.sched.tasks@[self.sched.current as int] == (Task {
                fds: after.sched.tasks@[self.sched.current as int].fds,
                ..self.sched.tasks@[self.sched.current as int]
            }),
            0 <= fd < self.table().len(),
            after.table() == self.table().update(fd, None).update(fd, slot),
        ensures
            self.keeps_but_files(after),
            after.table() == self.table().update(fd, slot),
    {
        let c = self.sched.current as int;
        assert(after.sched.tasks@ =~= self.sched.tasks@.update(
            c,
            Task { fds: after.sched.tasks@[c].fds, ..self.sched.tasks@[c] },
        ));
        assert(self.table().update(fd, None).update(fd, slot) =~= self.table().update(fd, slot));
    }

    /// Whether writing `data` to descriptor `fd` may give `r` and leave the
    /// kernel as `after`. The standard output and error streams take all
    /// of it to the terminal; a file is written through the mounts and
    /// the value is what was written; anything else fails.
    pub open spec fn written(
        &self,
        fd: usize,
        data: Seq<u8>,
        r: SyscallOutcome,
        after: &Self,
    ) -> bool {
        &&& r.switch is None
        &&& !r.wait_for_input
        &&& r.output@.len() == 0
        &&& if fd == 1 || fd == 2 {
            &&& r.value == data.len()
            &&& after.console@ =~= self.console@.add(data)
            &&& after.sched == self.sched
            &&& after.vfs == self.vfs
            &&& after.keyboard == self.keyboard
            &&& after.pmm == self.pmm
            &&& after.ticks == self.ticks
        } else if !self.has_fd(fd) {
            r.value == FAILURE && self.unchanged(after)
        } else {
            match (self.table()[fd as int], after.table()[fd as int]) {
                (Some(FdKind::File(file)), Some(FdKind::File(g))) => {
                    &&& self.keeps_but_files(after)
                    &&& after.table() == self.table().update(fd as int, Some(FdKind::File(g)))
                    &&& exists|res: VfsResult<usize>| #[trigger]
                        self.vfs.writes(file, data, res, g, &after.vfs) && r.value
                            == count_value(res)
                },
                (Some(FdKind::File(_)), _) => false,
                _ => r.value == FAILURE && self.unchanged(after),
            }
        }
    }

    /// Writes `data` to descriptor `fd`. The standard output and error
    /// streams go to the terminal.
    pub fn sys_write(&mut self, fd: usize, data: &[u8]) -> (r: SyscallOutcome)
        requires
            old(self).wf(),
        ensures
            final(self).wf(),
            old(self).written(fd, data@, r, final(self)),
            r.value == FAILURE || r.value <= data@.len(),
    {
        if fd == 1 || fd == 2 {
            self.console.extend_from_slice(data);
            return SyscallOutcome::value(data.len() as u64);
        }
        if self.sched.tasks.len() == 0 || fd < 3 || fd >= MAX_FDS {
            proof {
                self.lemma_unchanged();
            }
            return SyscallOutcome::failure();
        }
        let current: usize = self.sched.current;
        let taken = match self.sched.tasks[current].fds.take(fd) {
            Ok(k) => k,
            Err(_) => {
                proof {
                    old(self).lemma_table_kept(self);
                }
                return SyscallOutcome::failure();
            },
        };
        let (kind, result) = match taken {
            FdKind::File(mut file) => {
                let r = self.vfs.write(&mut file, data);
                (FdKind::File(file), r)
            },
            other => (other, Err(VfsError::PermissionDenied)),
        };
        self.sched.tasks[current].fds.put(fd, kind);
        proof {
            old(self).lemma_table_set(self, fd as int, Some(kind));
            if taken is File {
                assert(old(self).vfs.writes(
                    taken->File_0,
                    data@,
                    result,
                    kind->File_0,
                    &self.vfs,
                ));
            } else {
                assert(self.table() =~= old(self).table());
            }
        }
        match result {
            Ok(n) => SyscallOutcome::value(n as u64),
            Err(_) => SyscallOutcome::failure(),
        }
    }

    /// The bytes of a buffer of `len` zero bytes.
    pub open spec fn blank(len: int) -> Seq<u8> {
        Seq::new(len as nat, |i: int| 0u8)
    }

    /// Whether reading at most `len` bytes from descriptor `fd` may give
    /// `r` and leave the kernel as `after`. The standard input stream
    /// gives the keyboard's characters up to and with a line feed, and
    /// asks for the call to be made again when the keyboard has none; a
    /// file is read through the mounts, at most `MAX_READ` bytes at a
    /// time; anything else fails.
    pub open spec fn was_read(
        &self,
        fd: usize,
        len: usize,
        r: SyscallOutcome,
        after: &Self,
    ) -> bool {
        let size = if len < MAX_READ {
            len as int
        } else {
            MAX_READ as int
        };
        &&& r.switch is None
        &&& r.output@.len() <= len
        &&& !r.wait_for_input ==> r.value == FAILURE || r.value == r.output@.len()
        &&& if fd == 0 {
            &&& after.sched == self.sched
            &&& after.vfs == self.vfs
            &&& after.pmm == self.pmm
            &&& after.ticks == self.ticks
            &&& after.console == self.console
            &&& if self.keyboard.pending().len() == 0 {
                &&& r.wait_for_input
                &&& r.value == 0
                &&& r.output@.len() == 0
                &&& after.keyboard == self.keyboard
            } else {
                &&& !r.wait_for_input
                &&& r.output@ == line_of(self.keyboard.pending(), len as int)
                &&& r.value == r.output@.len()
                &&& after.keyboard.pending() == self.keyboard.pending().subrange(
                    r.output@.len() as int,
                    self.keyboard.pending().len() as int,
                )
                &&& after.keyboard.shift_pressed == self.keyboard.shift_pressed
                &&& after.keyboard.caps_lock == self.keyboard.caps_lock
                &&& after.keyboard.release_next == self.keyboard.release_next
            }
        } else if !self.has_fd(fd) {
            !r.wait_for_input && r.output@.len() == 0 && r.value == FAILURE && self.unchanged(after)
        } else {
            &&& !r.wait_for_input
            &&& match (self.table()[fd as int], after.table()[fd as int]) {
                (Some(FdKind::File(file)), Some(FdKind::File(g))) => {
                    &&& self.keeps_but_files(after)
                    &&& after.vfs == self.vfs
                    &&& after.table() == self.table().update(fd as int, Some(FdKind::File(g)))
                    &&& self.file_read(file, size, r, g)
                },
                (Some(FdKind::File(_)), _) => false,
                _ => r.output@.len() == 0 && r.value == FAILURE && self.unchanged(after),
            }
        }
    }

    /// Whether reading at most `size` bytes from `file` may give `r` and
    /// leave the file as `g`: the value is the number of bytes read and
    /// the output holds them, or the call fails.
    pub open spec fn file_read(
        &self,
        file: OpenFile,
        size: int,
        r: SyscallOutcome,
        g: OpenFile,
    ) -> bool {
        exists|res: VfsResult<usize>, out: Seq<u8>| #[trigger]
            self.vfs.reads(file, Self::blank(size), res, g, out) && match res {
                Ok(n) => r.value == n && r.output@ == out.subrange(0, n as int),
                Err(_) => r.value == FAILURE && r.output@.len() == 0,
            }
    }

    /// Reads at most `len` bytes from descriptor `fd`. The standard input
    /// stream gives the keyboard's characters up to and with a line feed;
    /// when the keyboard has none, the call asks to be made again.
    pub fn sys_read(&mut self, fd: usize, len: usize) -> (r: SyscallOutcome)
        requires
            old(self).wf(),
        ensures
            final(self).wf(),
            old(self).was_read(fd, len, r, final(self)),
    {
        if fd == 0 {
            if !crate::drivers::keyboard::has_input(&self.keyboard) {
                return SyscallOutcome {
                    value: 0,
                    output: Vec::new(),
                    switch: None,
                    wait_for_input: true,
                };
            }
            let line = crate::drivers::keyboard::read_line(&mut self.keyboard, len);
            let count = line.len();
            proof {
                lemma_line_length(old(self).keyboard.pending(), len as int);
            }
            return SyscallOutcome {
                value: count as u64,
                output: line,
                switch: None,
                wait_for_input: false,
            };
        }
        if self.sched.tasks.len() == 0 || fd < 3 || fd >= MAX_FDS {
            proof {
                self.lemma_unchanged();
            }
            return SyscallOutcome::failure();
        }
        let current: usize = self.sched.current;
        let taken = match self.sched.tasks[current].fds.take(fd) {
            Ok(k) => k,
            Err(_) => {
                proof {
                    old(self).lemma_table_kept(self);
                }
                return SyscallOutcome::failure();
            },
        };
        let size: usize = if len < MAX_READ {
            len
        } else {
            MAX_READ
        };
        let mut buf: Vec<u8> = vec![0u8; size];
        assert(buf@ =~= Self::blank(size as int));
        let ghost room = buf@;
        let (kind, result) = match taken {
            FdKind::File(mut file) => {
                let r = self.vfs.read(&mut file, &mut buf);
                (FdKind::File(file), r)
            },
            other => (other, Err(VfsError::PermissionDenied)),
        };
        let ghost out = buf@;
        self.sched.tasks[current].fds.put(fd, kind);
        proof {
            old(self).lemma_table_set(self, fd as int, Some(kind));
            if taken is File {
                assert(old(self).vfs.reads(taken->File_0, room, result, kind->File_0, out));
            } else {
                assert(self.table() =~= old(self).table());
            }
        }
        match result {
            Ok(n) => {
                buf.truncate(n);
                assert(buf@ =~= out.subrange(0, n as int));
                let r = SyscallOutcome {
                    value: n as u64,
                    output: buf,
                    switch: None,
                    wait_for_input: false,
                };
                assert(old(self).file_read(taken->File_0, size as int, r, kind->File_0));
                r
            },
            Err(_) => SyscallOutcome::failure(),
        }
    }

    /// Whether putting `kind` into the descriptor table of the task that
    /// runs may give the value `value` and leave the kernel as `after`:
    /// the value is the lowest free descriptor, which then stands for
    /// `kind`; without a task or a free descriptor the call fails.
    pub open spec fn installed(&self, kind: FdKind<OpenFile>, value: u64, after: &Self) -> bool {
        &&& after.vfs == self.vfs
        &&& if self.sched.tasks@.len() > 0 && first_free(self.table()) < MAX_FDS {
            &&& value == first_free(self.table())
            &&& self.keeps_but_files(after)
            &&& after.table() == self.table().update(first_free(self.table()), Some(kind))
        } else {
            value == FAILURE && self.unchanged(after)
        }
    }

    /// Puts `kind` into the descriptor table of the task that runs.
    fn install(&mut self, kind: FdKind<OpenFile>) -> (r: VfsResult<usize>)
        requires
            old(self).wf(),
        ensures
            final(self).wf(),
            r matches Ok(fd) ==> 3 <= fd < MAX_FDS,
            old(self).installed(
                kind,
                match r {
                    Ok(fd) => fd as u64,
                    Err(_) => FAILURE,
                },
                final(self),
            ),
    {
        if self.sched.tasks.len() == 0 {
            proof {
                self.lemma_unchanged();
            }
            return Err(VfsError::InvalidFd);
        }
        let current: usize = self.sched.current;
        proof {
            crate::vfs::fd::lemma_first_free(self.sched.tasks@[current as int].fds.fds@);
        }
        let r = self.sched.tasks[current].fds.allocate(kind);
        proof {
            let c = current as int;
            assert(self.sched.tasks@ =~= old(self).sched.tasks@.update(
                c,
                Task { fds: self.sched.tasks@[c].fds, ..old(self).sched.tasks@[c] },
            ));
        }
        r
    }

    /// Whether opening what `input` names with the flags `flags` may give
    /// `r` and leave the kernel as `after`. The synthetic filesystems are
    /// brought up to date first. With `O_DIRECTORY` the directory is
    /// listed and the descriptor stands for the listing; else the file is
    /// opened through the mounts. The value is the lowest free descriptor;
    /// the call fails when `input` is no text, when the mounts refuse, or
    /// when no descriptor is free.
    pub open spec fn opened(
        &self,
        input: Seq<u8>,
        flags: u32,
        r: SyscallOutcome,
        after: &Self,
    ) -> bool {
        let path = self.path_of(input);
        &&& r.switch is None
        &&& !r.wait_for_input
        &&& r.output@.len() == 0
        &&& if !vstd::utf8::valid_utf8(input) {
            r.value == FAILURE && self.unchanged(after)
        } else if OpenFlags(flags).contains_spec(OpenFlags(O_DIRECTORY)) {
            exists|mid: Self, res: VfsResult<Vec<DirEntry>>, name: String|
                #![trigger mid.vfs.lists(self.path_of(input), res), name@]
                {
                    &&& self.refreshes(&mid)
                    &&& mid.vfs.lists(self.path_of(input), res)
                    &&& name@ == path
                    &&& match res {
                        Ok(entries) => mid.installed(
                            FdKind::Directory { path: name, entries, position: 0 },
                            r.value,
                            after,
                        ),
                        Err(_) => r.value == FAILURE && mid.unchanged(after),
                    }
                }
        } else {
            exists|mid: Self, res: VfsResult<OpenFile>, held: Self|
                #![trigger mid.vfs.opens(self.path_of(input), OpenFlags(flags), res, &held.vfs)]
                {
                    &&& self.refreshes(&mid)
                    &&& mid.keeps_but_mounts(&held)
                    &&& mid.vfs.opens(self.path_of(input), OpenFlags(flags), res, &held.vfs)
                    &&& match res {
                        Ok(file) => held.installed(FdKind::File(file), r.value, after),
                        Err(_) => r.value == FAILURE && held.unchanged(after),
                    }
                }
        }
    }

    /// Opens the file, or with `O_DIRECTORY` the directory, that `input`
    /// names, and gives its descriptor.
    pub fn sys_open(&mut self, input: &[u8], flags: u32) -> (r: SyscallOutcome)
        requires
            old(self).wf(),
        ensures
            final(self).wf(),
            old(self).opened(input@, flags, r, final(self)),
            r.value == FAILURE || 3 <= r.value < MAX_FDS,
    {
        let path = match self.user_path(input) {
            Some(p) => p,
            None => {
                proof {
                    self.lemma_unchanged();
                }
                return SyscallOutcome::failure();
            },
        };
        self.refresh_views();
        let ghost mid = *self;
        let open_flags = OpenFlags::from_bits(flags);
        if open_flags.has(O_DIRECTORY) {
            let listing = self.vfs.readdir(path.as_str());
            let ghost res = listing;
            match listing {
                Ok(entries) => {
                    let ghost kind = FdKind::<OpenFile>::Directory { path, entries, position: 0 };
                    let r = match self.install(FdKind::Directory { path, entries, position: 0 }) {
                        Ok(fd) => SyscallOutcome::value(fd as u64),
                        Err(_) => SyscallOutcome::failure(),
                    };
                    proof {
                        assert(mid.vfs.lists(old(self).path_of(input@), res));
                        assert(mid.installed(kind, r.value, self));
                    }
                    r
                },
                Err(_) => {
                    proof {
                        mid.lemma_unchanged();
                        assert(mid.vfs.lists(old(self).path_of(input@), res));
                    }
                    SyscallOutcome::failure()
                },
            }
        } else {
            let opened = self.vfs.open(path.as_str(), open_flags);
            let ghost res = opened;
            let ghost held = *self;
            proof {
                assert(open_flags == OpenFlags(flags));
                assert(mid.vfs.opens(old(self).path_of(input@), OpenFlags(flags), res, &held.vfs));
            }
            match opened {
                Ok(file) => {
                    let r = match self.install(FdKind::File(file)) {
                        Ok(fd) => SyscallOutcome::value(fd as u64),
                        Err(_) => SyscallOutcome::failure(),
                    };
                    proof {
                        assert(held.installed(FdKind::File(file), r.value, self));
                    }
                    r
                },
                Err(_) => {
                    proof {
                        held.lemma_unchanged();
                    }
                    SyscallOutcome::failure()
                },
            }
        }
    }

    /// Whether closing descriptor `fd` may give `r` and leave the kernel as
    /// `after`. A descriptor above the standard streams that stands for
    /// something becomes free, and a file is closed through the mounts,
    /// whatever they answer; anything else fails.
    pub open spec fn closed(&self, fd: usize, r: SyscallOutcome, after: &Self) -> bool {
        &&& r.switch is None
        &&& !r.wait_for_input
        &&& r.output@.len() == 0
        &&& if !self.has_fd(fd) {
            r.value == FAILURE && self.unchanged(after)
        } else {
            &&& r.value == 0
            &&& self.keeps_but_files(after)
            &&& after.table() == self.table().update(fd as int, None)
            &&& match self.table()[fd as int] {
                Some(FdKind::File(file)) => exists|res: VfsResult<()>| #[trigger]
                    self.vfs.closes(file, res, &after.vfs),
                _ => after.vfs == self.vfs,
            }
        }
    }

    /// Closes descriptor `fd`. A file is closed in its filesystem, which
    /// writes it back where that is due.
    pub fn sys_close(&mut self, fd: usize) -> (r: SyscallOutcome)
        requires
            old(self).wf(),
        ensures
            final(self).wf(),
            old(self).closed(fd, r, final(self)),
    {
        if self.sched.tasks.len() == 0 {
            proof {
                self.lemma_unchanged();
            }
            return SyscallOutcome::failure();
        }
        let current: usize = self.sched.current;
        match self.sched.tasks[current].fds.take(fd) {
            Ok(kind) => {
                proof {
                    let c = current as int;
                    assert(self.sched.tasks@ =~= old(self).sched.tasks@.update(
                        c,
                        Task { fds: self.sched.tasks@[c].fds, ..old(self).sched.tasks@[c] },
                    ));
                }
                match kind {
                    FdKind::File(file) => {
                        let res = self.vfs.close(file);
                        assert(old(self).vfs.closes(file, res, &self.vfs));
                    },
                    _ => {},
                }
                SyscallOutcome::value(0)
            },
            Err(_) => {
                proof {
                    old(self).lemma_table_kept(self);
                }
                SyscallOutcome::failure()
            },
        }
    }

    /// Whether writing the next entries of the directory at descriptor
    /// `fd` for a buffer of `buf_len` bytes may give `r` and leave the
    /// kernel as `after`: the output holds the entries that fit, the value
    /// is its length, and the descriptor moves on past them. A descriptor
    /// that stands for no directory fails.
    pub open spec fn listed(
        &self,
        fd: usize,
        buf_len: usize,
        r: SyscallOutcome,
        after: &Self,
    ) -> bool {
        &&& r.switch is None
        &&& !r.wait_for_input
        &&& r.output@.len() <= buf_len
        &&& after.vfs == self.vfs
        &&& if !self.has_fd(fd) {
            r.output@.len() == 0 && r.value == FAILURE && self.unchanged(after)
        } else {
            match (self.table()[fd as int], after.table()[fd as int]) {
                (
                    Some(FdKind::Directory { path, entries, position }),
                    Some(FdKind::Directory { path: p, entries: e, position: q }),
                ) => {
                    let written = dirents(listing_view(entries@), position as int, buf_len as int);
                    &&& r.output@ == written.0
                    &&& r.value == r.output@.len()
                    &&& p == path
                    &&& e == entries
                    &&& q == written.1
                    &&& self.keeps_but_files(after)
                    &&& after.table() == self.table().update(
                        fd as int,
                        Some(FdKind::Directory { path: p, entries: e, position: q }),
                    )
                },
                (Some(FdKind::Directory { .. }), _) => false,
                _ => r.output@.len() == 0 && r.value == FAILURE && self.unchanged(after),
            }
        }
    }

    /// Writes the next entries of the directory at descriptor `fd` for a
    /// buffer of `buf_len` bytes.
    pub fn sys_getdents(&mut self, fd: usize, buf_len: usize) -> (r: SyscallOutcome)
        requires
            old(self).wf(),
        ensures
            final(self).wf(),
            old(self).listed(fd, buf_len, r, final(self)),
    {
        if self.sched.tasks.len() == 0 || fd < 3 || fd >= MAX_FDS {
            proof {
                self.lemma_unchanged();
            }
            return SyscallOutcome::failure();
        }
        let current: usize = self.sched.current;
        let taken = match self.sched.tasks[current].fds.take(fd) {
            Ok(k) => k,
            Err(_) => {
                proof {
                    old(self).lemma_table_kept(self);
                }
                return SyscallOutcome::failure();
            },
        };
        let (kind, result) = match taken {
            FdKind::Directory { path, entries, position } => {
                let (bytes, next) = encode_dirents(&entries, position, buf_len);
                (FdKind::Directory { path, entries, position: next }, Some(bytes))
            },
            other => (other, None),
        };
        self.sched.tasks[current].fds.put(fd, kind);
        proof {
            old(self).lemma_table_set(self, fd as int, Some(kind));
            if !(taken is Directory) {
                assert(self.table() =~= old(self).table());
            }
        }
        match result {
            Some(bytes) => {
                let n = bytes.len();
                SyscallOutcome { value: n as u64, output: bytes, switch: None, wait_for_input: false }
            },
            None => SyscallOutcome::failure(),
        }
    }

    /// Whether creating the directory that `input` names may give `r` and leave
    /// the kernel as `after`: the mounts decide, and the value is zero
    /// when they agree. The call fails when `input` is no text.
    pub open spec fn made_dir(&self, input: Seq<u8>, r: SyscallOutcome, after: &Self) -> bool {
        &&& r.switch is None
        &&& !r.wait_for_input
        &&& r.output@.len() == 0
        &&& self.keeps_but_mounts(after)
        &&& if !vstd::utf8::valid_utf8(input) {
            r.value == FAILURE && after.vfs == self.vfs
        } else {
            exists|res: VfsResult<()>| #[trigger]
                self.vfs.makes_dir(self.path_of(input), res, &after.vfs) && r.value == done_value(res)
        }
    }

    /// Creates the directory that `input` names.
    pub fn sys_mkdir(&mut self, input: &[u8]) -> (r: SyscallOutcome)
        requires
            old(self).wf(),
        ensures
            final(self).wf(),
            old(self).made_dir(input@, r, final(self)),
    {
        let path = match self.user_path(input) {
            Some(p) => p,
            None => {
                return SyscallOutcome::failure();
            },
        };
        let res = self.vfs.mkdir(path.as_str());
        assert(old(self).vfs.makes_dir(old(self).path_of(input@), res, &self.vfs));
        match res {
            Ok(()) => SyscallOutcome::value(0),
            Err(_) => SyscallOutcome::failure(),
        }
    }

    /// Whether removing the file that `input` names may give `r` and leave
    /// the kernel as `after`: the mounts decide, and the value is zero
    /// when they agree. The call fails when `input` is no text.
    pub open spec fn unlinked(&self, input: Seq<u8>, r: SyscallOutcome, after: &Self) -> bool {
        &&& r.switch is None
        &&& !r.wait_for_input
        &&& r.output@.len() == 0
        &&& self.keeps_but_mounts(after)
        &&& if !vstd::utf8::valid_utf8(input) {
            r.value == FAILURE && after.vfs == self.vfs
        } else {
            exists|res: VfsResult<()>| #[trigger]
                self.vfs.removes(self.path_of(input), res, &after.vfs) && r.value == done_value(res)
        }
    }

    /// Removes the file that `input` names.
    pub fn sys_unlink(&mut self, input: &[u8]) -> (r: SyscallOutcome)
        requires
            old(self).wf(),
        ensures
            final(self).wf(),
            old(self).unlinked(input@, r, final(self)),
    {
        let path = match self.user_path(input) {
            Some(p) => p,
            None => {
                return SyscallOutcome::failure();
            },
        };
        let res = self.vfs.remove(path.as_str());
        assert(old(self).vfs.removes(old(self).path_of(input@), res, &self.vfs));
        match res {
            Ok(()) => SyscallOutcome::value(0),
            Err(_) => SyscallOutcome::failure(),
        }
    }

    /// Whether removing the directory that `input` names may give `r` and leave
    /// the kernel as `after`: the mounts decide, and the value is zero
    /// when they agree. The call fails when `input` is no text.
    pub open spec fn removed_dir(&self, input: Seq<u8>, r: SyscallOutcome, after: &Self) -> bool {
        &&& r.switch is None
        &&& !r.wait_for_input
        &&& r.output@.len() == 0
        &&& self.keeps_but_mounts(after)
        &&& if !vstd::utf8::valid_utf8(input) {
            r.value == FAILURE && after.vfs == self.vfs
        } else {
            exists|res: VfsResult<()>| #[trigger]
                self.vfs.removes_dir(self.path_of(input), res, &after.vfs) && r.value == done_value(res)
        }
    }

    /// Removes the directory that `input` names.
    pub fn sys_rmdir(&mut self, input: &[u8]) -> (r: SyscallOutcome)
        requires
            old(self).wf(),
        ensures
            final(self).wf(),
            old(self).removed_dir(input@, r, final(self)),
    {
        let path = match self.user_path(input) {
            Some(p) => p,
            None => {
                return SyscallOutcome::failure();
            },
        };
        let res = self.vfs.rmdir(path.as_str());
        assert(old(self).vfs.removes_dir(old(self).path_of(input@), res, &self.vfs));
        match res {
            Ok(()) => SyscallOutcome::value(0),
            Err(_) => SyscallOutcome::failure(),
        }
    }

    /// Whether making the directory that `input` names the working
    /// directory of the task that runs may give `r` and leave the kernel
    /// as `after`. The synthetic filesystems are brought up to date
    /// first. The call fails when `input` is no text, when the mounts
    /// know no directory at the path, or when there is no task.
    pub open spec fn changed_dir(&self, input: Seq<u8>, r: SyscallOutcome, after: &Self) -> bool {
        let c = self.sched.current as int;
        &&& r.switch is None
        &&& !r.wait_for_input
        &&& r.output@.len() == 0
        &&& if !vstd::utf8::valid_utf8(input) {
            r.value == FAILURE && self.unchanged(after)
        } else {
            exists|mid: Self, res: VfsResult<Metadata>|
                #![trigger mid.vfs.describes(self.path_of(input), res)]
                {
                    &&& self.refreshes(&mid)
                    &&& mid.vfs.describes(self.path_of(input), res)
                    &&& after.vfs == mid.vfs
                    &&& after.keyboard == self.keyboard
                    &&& after.pmm == self.pmm
                    &&& after.ticks == self.ticks
                    &&& after.console == self.console
                    &&& after.sched.current == self.sched.current
                    &&& after.sched.next_id == self.sched.next_id
                    &&& if (res matches Ok(m) && m.file_type == FileType::Directory)
                        && self.sched.tasks@.len() > 0 {
                        &&& r.value == 0
                        &&& after.sched.tasks@ == self.sched.tasks@.update(
                            c,
                            Task { cwd: after.sched.tasks@[c].cwd, ..self.sched.tasks@[c] },
                        )
                        &&& after.sched.tasks@[c].cwd@ == self.path_of(input)
                    } else {
                        r.value == FAILURE && after.sched.tasks@ == self.sched.tasks@
                    }
                }
        }
    }

    /// Makes the directory that `input` names the working directory of
    /// the task that runs.
    pub fn sys_chdir(&mut self, input: &[u8]) -> (r: SyscallOutcome)
        requires
            old(self).wf(),
        ensures
            final(self).wf(),
            old(self).changed_dir(input@, r, final(self)),
    {
        let path = match self.user_path(input) {
            Some(p) => p,
            None => {
                proof {
                    self.lemma_unchanged();
                }
                return SyscallOutcome::failure();
            },
        };
        self.refresh_views();
        let ghost mid = *self;
        let res = self.vfs.metadata(path.as_str());
        assert(mid.vfs.describes(old(self).path_of(input@), res));
        let is_dir = match res {
            Ok(meta) => meta.file_type == FileType::Directory,
            Err(_) => false,
        };
        if !is_dir {
            return SyscallOutcome::failure();
        }
        match self.sched.set_cwd(path) {
            Ok(()) => SyscallOutcome::value(0),
            Err(_) => SyscallOutcome::failure(),
        }
    }

    /// Whether asking for the working directory of the task that runs
    /// with a buffer of `buf_len` bytes may give `r`: the output holds the
    /// bytes of the path, cut to the buffer, and the value is its length.
    /// Without a task the call fails.
    pub open spec fn dir_given(&self, buf_len: usize, r: SyscallOutcome) -> bool {
        &&& r.switch is None
        &&& !r.wait_for_input
        &&& if self.sched.tasks@.len() == 0 {
            r.value == FAILURE && r.output@.len() == 0
        } else {
            let bytes = vstd::utf8::encode_utf8(self.sched.tasks@[self.sched.current as int].cwd@);
            &&& r.value == r.output@.len()
            &&& r.output@ == if bytes.len() <= buf_len {
                bytes
            } else {
                bytes.subrange(0, buf_len as int)
            }
        }
    }

    /// Gives the working directory of the task that runs, cut to
    /// `buf_len` bytes.
    pub fn sys_getcwd(&self, buf_len: usize) -> (r: SyscallOutcome)
        requires
            self.wf(),
        ensures
            self.dir_given(buf_len, r),
    {
        match self.sched.get_cwd() {
            Some(cwd) => {
                let mut bytes = cwd.as_str().as_bytes_vec();
                if bytes.len() > buf_len {
                    bytes.truncate(buf_len);
                }
                let n = bytes.len();
                SyscallOutcome { value: n as u64, output: bytes, switch: None, wait_for_input: false }
            },
            None => SyscallOutcome::failure(),
        }
    }
}

/// A line read from the keyboard is no longer than asked for.
pub proof fn lemma_line_length(pending: Seq<u8>, len: int)
    ensures
        line_of(pending, len).len() <= (if len > 0 {
            len
        } else {
            0
        }),
        line_of(pending, len).len() <= pending.len(),
    decreases pending.len(),
{
    if len > 0 && pending.len() > 0 && pending[0] != 10 {
        lemma_line_length(pending.drop_first(), len - 1);
    }
}

/// An argument of a call as a count or a descriptor: itself, or the
/// largest number the machine has when it is larger.
pub open spec fn clamped(arg: u64) -> usize {
    if arg > usize::MAX {
        usize::MAX
    } else {
        arg as usize
    }
}

/// Whether system call number `num` with the arguments `arg1`, `arg2`
/// and `arg3`, and with `input` read from user memory, may give `r` and
/// leave the kernel `before` as `after`: what the call of that number is
/// said to do. A number that names no call fails and changes nothing.
pub open spec fn handled<D: BlockDevice>(
    before: &Kernel<D>,
    num: u64,
    arg1: u64,
    arg2: u64,
    arg3: u64,
    input: Seq<u8>,
    r: SyscallOutcome,
    after: &Kernel<D>,
) -> bool {
    if num == SYS_EXIT {
        before.exited(r, after)
    } else if num == SYS_WRITE {
        before.written(clamped(arg1), input, r, after)
    } else if num == SYS_READ {
        before.was_read(clamped(arg1), clamped(arg3), r, after)
    } else if num == SYS_OPEN {
        before.opened(input, (arg3 % 0x1_0000_0000) as u32, r, after)
    } else if num == SYS_CLOSE {
        before.closed(clamped(arg1), r, after)
    } else if num == SYS_GETDENTS {
        before.listed(clamped(arg1), clamped(arg3), r, after)
    } else if num == SYS_MKDIR {
        before.made_dir(input, r, after)
    } else if num == SYS_UNLINK {
        before.unlinked(input, r, after)
    } else if num == SYS_RMDIR {
        before.removed_dir(input, r, after)
    } else if num == SYS_CHDIR {
        before.changed_dir(input, r, after)
    } else if num == SYS_GETCWD {
        before.dir_given(clamped(arg2), r) && before.unchanged(after)
    } else {
        &&& r.value == FAILURE
        &&& r.switch is None
        &&& !r.wait_for_input
        &&& r.output@.len() == 0
        &&& before.unchanged(after)
    }
}

/// Where a call reads user memory: the address and the number of bytes.
/// A write reads its data, and a call that takes a path reads the path;
/// the other calls read nothing.
pub open spec fn input_span_spec(num: u64, arg1: u64, arg2: u64, arg3: u64) -> Option<(u64, u64)> {
    if num == SYS_WRITE {
        Some((arg2, arg3))
    } else if num == SYS_OPEN || num == SYS_MKDIR || num == SYS_UNLINK || num == SYS_RMDIR || num
        == SYS_CHDIR {
        Some((arg1, arg2))
    } else {
        None
    }
}

/// Where a call reads user memory: the address and the number of bytes.
pub fn input_span(num: u64, arg1: u64, arg2: u64, arg3: u64) -> (r: Option<(u64, u64)>)
    ensures
        r == input_span_spec(num, arg1, arg2, arg3),
{
    if num == SYS_WRITE {
        Some((arg2, arg3))
    } else if num == SYS_OPEN || num == SYS_MKDIR || num == SYS_UNLINK || num == SYS_RMDIR || num
        == SYS_CHDIR {
        Some((arg1, arg2))
    } else {
        None
    }
}

/// Where a call writes its output to user memory: a read and a listing
/// write to the buffer of their second argument, the working directory
/// to that of the first; the other calls write nothing.
pub open spec fn output_address_spec(num: u64, arg1: u64, arg2: u64) -> Option<u64> {
    if num == SYS_READ || num == SYS_GETDENTS {
        Some(arg2)
    } else if num == SYS_GETCWD {
        Some(arg1)
    } else {
        None
    }
}

/// Where a call writes its output to user memory.
pub fn output_address(num: u64, arg1: u64, arg2: u64) -> (r: Option<u64>)
    ensures
        r == output_address_spec(num, arg1, arg2),
{
    if num == SYS_READ || num == SYS_GETDENTS {
        Some(arg2)
    } else if num == SYS_GETCWD {
        Some(arg1)
    } else {
        None
    }
}

/// Carries out system call number `num` for the task that runs.
///
/// The arguments are those of the call; where the call reads user
/// memory, `input` holds the bytes read: the data of a write, and the
/// path of a call that takes one. A number that names no call fails.
pub fn syscall_handler<D: BlockDevice>(
    kernel: &mut Kernel<D>,
    num: u64,
    arg1: u64,
    arg2: u64,
    arg3: u64,
    input: &[u8],
) -> (r: SyscallOutcome)
    requires
        old(kernel).wf(),
    ensures
        final(kernel).wf(),
        handled(old(kernel), num, arg1, arg2, arg3, input@, r, final(kernel)),
{
    let fd: usize = if arg1 > usize::MAX as u64 {
        usize::MAX
    } else {
        arg1 as usize
    };
    if num == SYS_EXIT {
        kernel.sys_exit(arg1)
    } else if num == SYS_WRITE {
        kernel.sys_write(fd, input)
    } else if num == SYS_READ {
        let len: usize = if arg3 > usize::MAX as u64 {
            usize::MAX
        } else {
            arg3 as usize
        };
        kernel.sys_read(fd, len)
    } else if num == SYS_OPEN {
        kernel.sys_open(input, (arg3 % 0x1_0000_0000) as u32)
    } else if num == SYS_CLOSE {
        kernel.sys_close(fd)
    } else if num == SYS_GETDENTS {
        let len: usize = if arg3 > usize::MAX as u64 {
            usize::MAX
        } else {
            arg3 as usize
        };
        kernel.sys_getdents(fd, len)
    } else if num == SYS_MKDIR {
        kernel.sys_mkdir(input)
    } else if num == SYS_UNLINK {
        kernel.sys_unlink(input)
    } else if num == SYS_RMDIR {
        kernel.sys_rmdir(input)
    } else if num == SYS_CHDIR {
        kernel.sys_chdir(input)
    } else if num == SYS_GETCWD {
        let len: usize = if arg2 > usize::MAX as u64 {
            usize::MAX
        } else {
            arg2 as usize
        };
        proof {
            kernel.lemma_unchanged();
        }
        kernel.sys_getcwd(len)
    } else {
        proof {
            kernel.lemma_unchanged();
        }
        SyscallOutcome::failure()
    }
}

} // verus!
