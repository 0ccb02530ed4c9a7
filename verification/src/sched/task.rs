//! Tasks: what the scheduler keeps of each thread of execution.

use vstd::prelude::*;
use crate::bytes::{le64_at, lemma_put_le64_read, put_le64, write_le64};
use crate::mem::vmm::AddressSpace;
use crate::vfs::fd::FdTable;
use crate::vfs::mount::OpenFile;

verus! {

/// Where a task stands in its life.
#[derive(Debug, Clone, Copy, PartialEq, Eq, Structural)]
pub enum TaskState {
    Ready,
    Running,
    Sleeping,
    Dead,
}

/// The privilege level a task runs at.
#[derive(Debug, Clone, Copy, PartialEq, Eq, Structural)]
pub enum TaskMode {
    Kernel,
    User,
}

/// What the synthetic filesystems show of a task.
pub struct TaskInfo {
    pub id: u64,
    pub state: TaskState,
    pub mode: TaskMode,
    pub name: String,
}

/// Size of the kernel stack of a task in bytes.
pub const STACK_SIZE: usize = 4096 * 4;

/// Number of bytes of the frame that the first switch to a task pops:
/// six saved registers and a return address.
pub const FRAME_SIZE: usize = 56;

/// A task.
pub struct Task {
    /// Number of the task; no two tasks have the same.
    pub id: u64,
    pub state: TaskState,
    pub mode: TaskMode,
    /// The stack pointer saved when the task was switched away from; it
    /// is stale while the task runs.
    pub stack_ptr: u64,
    /// The tick at which a sleeping task becomes ready.
    pub wake_at: Option<u64>,
    /// Where a user task begins to run.
    pub user_entry: u64,
    /// The stack pointer a user task begins with.
    pub user_stack: u64,
    /// The kernel stack of the task.
    pub stack: Vec<u8>,
    /// The address space of the task; the first kernel task has none.
    pub address_space: Option<AddressSpace>,
    /// Working directory, an absolute path.
    pub cwd: String,
    /// The descriptors of the task.
    pub fds: FdTable<OpenFile>,
    /// Name shown for the task.
    pub name: String,
}

/// The stack pointer a new task is switched to for the first time, given
/// the address of its stack: the top of the stack, aligned down to 16
/// bytes, less the frame.
pub open spec fn initial_sp(stack_base: u64) -> int {
    (stack_base as int + 16384) - (stack_base as int + 16384) % 16 - 56
}

/// Whether `stack`, at the offset that belongs to `initial_sp`, holds the
/// frame that the first switch to a task pops: the registers r15, r14,
/// r13, r12, rbx and rbp, in that order, and the return address. r15
/// holds `first`, r14 holds `second`, the others hold zero, and the
/// return address is `trampoline`.
pub open spec fn holds_frame(
    stack: Seq<u8>,
    stack_base: u64,
    first: u64,
    second: u64,
    trampoline: u64,
) -> bool {
    let at = initial_sp(stack_base) - stack_base as int;
    &&& 0 <= at && at + 56 <= stack.len()
    &&& le64_at(stack, at) == first
    &&& le64_at(stack, at + 8) == second
    &&& le64_at(stack, at + 16) == 0
    &&& le64_at(stack, at + 24) == 0
    &&& le64_at(stack, at + 32) == 0
    &&& le64_at(stack, at + 40) == 0
    &&& le64_at(stack, at + 48) == trampoline
}

/// Writes the first frame of a task into its stack and gives the stack
/// pointer that belongs to it.
pub fn write_frame(
    stack: &mut Vec<u8>,
    stack_base: u64,
    first: u64,
    second: u64,
    trampoline: u64,
) -> (sp: u64)
    requires
        old(stack)@.len() == STACK_SIZE,
        stack_base + STACK_SIZE <= u64::MAX,
    ensures
        final(stack)@.len() == STACK_SIZE,
        sp as int == initial_sp(stack_base),
        holds_frame(final(stack)@, stack_base, first, second, trampoline),
{
    let top: u64 = stack_base + STACK_SIZE as u64;
    let aligned: u64 = top - top % 16;
    let sp: u64 = aligned - FRAME_SIZE as u64;
    let at: usize = (sp - stack_base) as usize;
    let ghost s0 = stack@;
    write_le64(stack, at, first);
    let ghost s1 = stack@;
    write_le64(stack, at + 8, second);
    let ghost s2 = stack@;
    write_le64(stack, at + 16, 0);
    let ghost s3 = stack@;
    write_le64(stack, at + 24, 0);
    let ghost s4 = stack@;
    write_le64(stack, at + 32, 0);
    let ghost s5 = stack@;
    write_le64(stack, at + 40, 0);
    let ghost s6 = stack@;
    write_le64(stack, at + 48, trampoline);
    proof {
        lemma_put_le64_read(s0, at as int, first);
        lemma_put_le64_read(s1, at + 8, second);
        lemma_put_le64_read(s2, at + 16, 0);
        lemma_put_le64_read(s3, at + 24, 0);
        lemma_put_le64_read(s4, at + 32, 0);
        lemma_put_le64_read(s5, at + 40, 0);
        lemma_put_le64_read(s6, at + 48, trampoline);
    }
    sp
}

impl Task {
    /// Whether the task is a new kernel task with the number `id` that
    /// will begin at `entry`: it is ready, it has no wake tick and no
    /// address space of its own, its working directory is `/`, its
    /// descriptors are the standard streams alone, it has no name yet, and
    /// its stack at `stack_base` holds the frame that makes the first
    /// switch to it return into `trampoline`.
    pub open spec fn is_new_kernel(&self, id: u64, entry: u64, trampoline: u64, stack_base: u64) -> bool {
        &&& self.id == id
        &&& self.state == TaskState::Ready
        &&& self.mode == TaskMode::Kernel
        &&& self.stack_ptr as int == initial_sp(stack_base)
        &&& holds_frame(self.stack@, stack_base, entry, 0, trampoline)
        &&& self.wake_at is None
        &&& self.user_entry == 0
        &&& self.user_stack == 0
        &&& self.address_space is None
        &&& self.cwd@ == seq!['/']
        &&& self.fds.fresh()
        &&& self.name@.len() == 0
    }

    /// Whether the task is a new user task with the number `id` that
    /// will begin at `user_entry` with the stack pointer `user_stack` in
    /// the address space `address_space`: it is ready, it has no wake
    /// tick, its working directory is `/`, its descriptors are the
    /// standard streams alone, it has no name yet, and its kernel stack at
    /// `stack_base` holds the frame that makes the first switch to it
    /// return into `trampoline`.
    pub open spec fn is_new_user(
        &self,
        id: u64,
        user_entry: u64,
        user_stack: u64,
        trampoline: u64,
        stack_base: u64,
        address_space: Option<AddressSpace>,
    ) -> bool {
        &&& self.id == id
        &&& self.state == TaskState::Ready
        &&& self.mode == TaskMode::User
        &&& self.stack_ptr as int == initial_sp(stack_base)
        &&& holds_frame(self.stack@, stack_base, user_entry, user_stack, trampoline)
        &&& self.wake_at is None
        &&& self.user_entry == user_entry
        &&& self.user_stack == user_stack
        &&& self.address_space == address_space
        &&& self.cwd@ == seq!['/']
        &&& self.fds.fresh()
        &&& self.name@.len() == 0
    }

    /// A kernel task that will begin at `entry`. Its stack holds the frame
    /// that makes the first switch to it return into `trampoline` with
    /// `entry` in r15.
    pub fn new(id: u64, entry: u64, trampoline: u64, stack: Vec<u8>, stack_base: u64) -> (r: Self)
        requires
            stack@.len() == STACK_SIZE,
            stack_base + STACK_SIZE <= u64::MAX,
        ensures
            r.is_new_kernel(id, entry, trampoline, stack_base),
    {
        let mut stack = stack;
        let sp = write_frame(&mut stack, stack_base, entry, 0, trampoline);
        let mut cwd = String::new();
        crate::text::push_char(&mut cwd, '/');
        assert(cwd@ =~= seq!['/']);
        Self {
            id,
            state: TaskState::Ready,
            mode: TaskMode::Kernel,
            stack_ptr: sp,
            wake_at: None,
            user_entry: 0,
            user_stack: 0,
            stack,
            address_space: None,
            cwd,
            fds: FdTable::new(),
            name: String::new(),
        }
    }

    /// A user task that will begin at `user_entry` with the stack pointer
    /// `user_stack`. Its kernel stack holds the frame that makes the first
    /// switch to it return into `trampoline` with the entry in r15 and the
    /// user stack pointer in r14.
    pub fn new_user(
        id: u64,
        user_entry: u64,
        user_stack: u64,
        trampoline: u64,
        stack: Vec<u8>,
        stack_base: u64,
        address_space: Option<AddressSpace>,
    ) -> (r: Self)
        requires
            stack@.len() == STACK_SIZE,
            stack_base + STACK_SIZE <= u64::MAX,
        ensures
            r.is_new_user(id, user_entry, user_stack, trampoline, stack_base, address_space),
    {
        let mut stack = stack;
        let sp = write_frame(&mut stack, stack_base, user_entry, user_stack, trampoline);
        let mut cwd = String::new();
        crate::text::push_char(&mut cwd, '/');
        assert(cwd@ =~= seq!['/']);
        Self {
            id,
            state: TaskState::Ready,
            mode: TaskMode::User,
            stack_ptr: sp,
            wake_at: None,
            user_entry,
            user_stack,
            stack,
            address_space,
            cwd,
            fds: FdTable::new(),
            name: String::new(),
        }
    }

    /// The task that stands for the code that runs when the scheduler is
    /// set up: it is running, and it has no stack of its own.
    pub fn kernel_task(id: u64) -> (r: Self)
        ensures
            r.id == id,
            r.state == TaskState::Running,
            r.mode == TaskMode::Kernel,
            r.stack_ptr == 0,
            r.wake_at is None,
            r.address_space is None,
            r.stack@.len() == 0,
            r.user_entry == 0,
            r.user_stack == 0,
            r.cwd@ == seq!['/'],
            r.fds.fresh(),
            r.name@.len() == 0,
    {
        let mut cwd = String::new();
        crate::text::push_char(&mut cwd, '/');
        assert(cwd@ =~= seq!['/']);
        Self {
            id,
            state: TaskState::Running,
            mode: TaskMode::Kernel,
            stack_ptr: 0,
            wake_at: None,
            user_entry: 0,
            user_stack: 0,
            stack: Vec::new(),
            address_space: None,
            cwd,
            fds: FdTable::new(),
            name: String::new(),
        }
    }

    /// What the synthetic filesystems show of the task.
    pub fn info(&self) -> (r: TaskInfo)
        ensures
            r.id == self.id,
            r.state == self.state,
            r.mode == self.mode,
            r.name@ == self.name@,
    {
        TaskInfo { id: self.id, state: self.state, mode: self.mode, name: self.name.clone() }
    }
}

} // verus!
