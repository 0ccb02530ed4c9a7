//! Tasks and the decisions of the scheduler: which task runs next, which
//! tasks are reaped, and which sleepers wake.

pub mod task;

use vstd::prelude::*;
use crate::sched::task::{Task, TaskInfo, TaskMode, TaskState};
use crate::vfs::fd::FdTable;
use crate::vfs::mount::OpenFile;

verus! {

/// The run queue: every task, and the position of the one that runs.
pub struct Scheduler {
    pub tasks: Vec<Task>,
    pub current: usize,
    /// The number the next task gets.
    pub next_id: u64,
}

/// What a context switch needs.
#[derive(Debug, Clone, Copy, PartialEq, Eq, Structural)]
pub struct SwitchInfo {
    /// Position of the task that is switched away from; its stack pointer
    /// is saved there.
    pub old_index: usize,
    /// Position of the task that is switched to.
    pub new_index: usize,
    /// The saved stack pointer of the task that is switched to.
    pub new_sp: u64,
    /// The top-level page table to switch to, or 0 to keep the present one.
    pub new_cr3: u64,
}

/// The first `upto` of `tasks` without the dead ones; the task at
/// `current` is kept even when it is dead.
pub open spec fn survivors(tasks: Seq<Task>, current: int, upto: int) -> Seq<Task>
    decreases upto,
{
    if upto <= 0 {
        Seq::empty()
    } else {
        let before = survivors(tasks, current, upto - 1);
        if tasks[upto - 1].state == TaskState::Dead && upto - 1 != current {
            before
        } else {
            before.push(tasks[upto - 1])
        }
    }
}

/// A task at tick `now`: a sleeper whose wake tick has come is ready and
/// has no wake tick any more; any other task is as it was.
pub open spec fn woken(t: Task, now: u64) -> Task {
    if t.state == TaskState::Sleeping && t.wake_at is Some && now >= t.wake_at->0 {
        Task { state: TaskState::Ready, wake_at: None, ..t }
    } else {
        t
    }
}

/// The tasks at tick `now`.
pub open spec fn all_woken(tasks: Seq<Task>, now: u64) -> Seq<Task> {
    Seq::new(tasks.len(), |i: int| woken(tasks[i], now))
}

/// The first ready task met when going round the queue from the task
/// after `current`, beginning `k` steps from `current` and ending at
/// `current` itself.
pub open spec fn next_ready_from(tasks: Seq<Task>, current: int, k: int) -> Option<int>
    decreases tasks.len() - k + 1,
{
    if k < 1 || k > tasks.len() {
        None
    } else if tasks[(current + k) % (tasks.len() as int)].state == TaskState::Ready {
        Some((current + k) % (tasks.len() as int))
    } else {
        next_ready_from(tasks, current, k + 1)
    }
}

/// The tasks after the one at `next` was chosen to run: the task at
/// `current` is ready if it was running, and the task at `next` runs.
pub open spec fn switched(tasks: Seq<Task>, current: int, next: int) -> Seq<Task> {
    let first = if tasks[current].state == TaskState::Running {
        tasks.update(current, Task { state: TaskState::Ready, ..tasks[current] })
    } else {
        tasks
    };
    first.update(next, Task { state: TaskState::Running, ..first[next] })
}

/// The top-level page table of a task, or 0 when it has no address space
/// of its own.
pub open spec fn cr3_of(t: Task) -> u64 {
    match t.address_space {
        Some(a) => a.pml4_phys,
        None => 0,
    }
}

/// Number of running tasks among `tasks`.
pub open spec fn running_count(tasks: Seq<Task>) -> nat
    decreases tasks.len(),
{
    if tasks.len() == 0 {
        0
    } else {
        running_count(tasks.drop_last()) + if tasks.last().state == TaskState::Running {
            1nat
        } else {
            0nat
        }
    }
}

/// When no task but the one at `current` runs, the number of running
/// tasks is one if that task runs and zero if it does not.
pub proof fn lemma_running_count(tasks: Seq<Task>, current: int)
    requires
        forall|i: int| 0 <= i < tasks.len() && i != current ==> (#[trigger] tasks[i]).state
            != TaskState::Running,
    ensures
        running_count(tasks) == if 0 <= current < tasks.len() && tasks[current].state
            == TaskState::Running {
            1nat
        } else {
            0nat
        },
    decreases tasks.len(),
{
    if tasks.len() > 0 {
        let head = tasks.drop_last();
        assert forall|i: int| 0 <= i < head.len() && i != current implies (#[trigger] head[i]).state
            != TaskState::Running by {
            assert(head[i] == tasks[i]);
        }
        lemma_running_count(head, current);
        if current < head.len() && 0 <= current {
            assert(head[current] == tasks[current]);
        }
    }
}

/// Whether the tasks have numbers below `next_id`, no two of them the
/// same.
pub open spec fn numbered(tasks: Seq<Task>, next_id: u64) -> bool {
    &&& forall|i: int| 0 <= i < tasks.len() ==> (#[trigger] tasks[i]).id < next_id
    &&& forall|i: int, j: int|
        0 <= i < j < tasks.len() ==> (#[trigger] tasks[i]).id != (#[trigger] tasks[j]).id
}

impl Scheduler {
    /// The task that runs is in the queue, no other task is running, the
    /// descriptor table of every task is as it needs to be, and the tasks
    /// have numbers of their own below the next number to hand out.
    pub open spec fn wf(&self) -> bool {
        &&& self.tasks@.len() == 0 ==> self.current == 0
        &&& self.tasks@.len() > 0 ==> self.current < self.tasks@.len()
        &&& forall|i: int|
            0 <= i < self.tasks@.len() && i != self.current ==> (#[trigger] self.tasks@[i]).state
                != TaskState::Running
        &&& forall|i: int| 0 <= i < self.tasks@.len() ==> (#[trigger] self.tasks@[i]).fds.wf()
        &&& numbered(self.tasks@, self.next_id)
    }

    /// A scheduler without tasks.
    pub fn new() -> (r: Self)
        ensures
            r.wf(),
            r.tasks@.len() == 0,
            r.current == 0,
            r.next_id == 0,
    {
        Self { tasks: Vec::new(), current: 0, next_id: 0 }
    }

    /// The number for a new task; numbers are handed out in ascending order.
    pub fn take_id(&mut self) -> (r: u64)
        requires
            old(self).next_id < u64::MAX,
        ensures
            r == old(self).next_id,
            final(self).next_id == old(self).next_id + 1,
            final(self).tasks == old(self).tasks,
            final(self).current == old(self).current,
    {
        let id = self.next_id;
        self.next_id = self.next_id + 1;
        id
    }

    /// Adds a task at the end of the queue. A running task can only be
    /// added to an empty queue.
    pub fn add_task(&mut self, task: Task)
        requires
            old(self).wf(),
            task.fds.wf(),
            task.state == TaskState::Running ==> old(self).tasks@.len() == 0,
            task.id < old(self).next_id,
            forall|i: int| 0 <= i < old(self).tasks@.len() ==> old(self).tasks@[i].id != task.id,
        ensures
            final(self).wf(),
            final(self).tasks@ == old(self).tasks@.push(task),
            final(self).current == old(self).current,
            final(self).next_id == old(self).next_id,
    {
        self.tasks.push(task);
    }

    /// A scheduler whose only task is the kernel task, which runs.
    pub fn init() -> (r: Self)
        ensures
            r.wf(),
            r.tasks@.len() == 1,
            r.current == 0,
            r.tasks@[0].state == TaskState::Running,
            r.tasks@[0].mode == TaskMode::Kernel,
            r.tasks@[0].id == 0,
            r.tasks@[0].wake_at is None,
            r.tasks@[0].address_space is None,
            r.tasks@[0].cwd@ == seq!['/'],
            r.tasks@[0].fds.fresh(),
            r.tasks@[0].name@.len() == 0,
            r.next_id == 1,
    {
        let mut sched = Self::new();
        let id = sched.take_id();
        sched.add_task(Task::kernel_task(id));
        sched
    }

    /// The first ready task after the one that runs, going round the queue.
    pub fn next_ready(&self) -> (r: Option<usize>)
        requires
            self.wf(),
        ensures
            match next_ready_from(self.tasks@, self.current as int, 1) {
                Some(i) => r == Some(i as usize) && 0 <= i < self.tasks@.len() && self.tasks@[i].state
                    == TaskState::Ready,
                None => r is None,
            },
    {
        let len: usize = self.tasks.len();
        let mut step: usize = 0;
        while step < len
            invariant
                step <= len,
                len == self.tasks@.len(),
                self.wf(),
                next_ready_from(self.tasks@, self.current as int, 1) == next_ready_from(
                    self.tasks@,
                    self.current as int,
                    step + 1,
                ),
            decreases len - step,
        {
            let idx: usize = ((self.current as u128 + step as u128 + 1) % (len as u128)) as usize;
            assert(idx as int == (self.current as int + step + 1) % (len as int));
            if self.tasks[idx].state == TaskState::Ready {
                return Some(idx);
            }
            step += 1;
        }
        None
    }

    /// Removes every dead task but the one that runs.
    pub fn reap_dead(&mut self)
        requires
            old(self).wf(),
        ensures
            final(self).wf(),
            final(self).tasks@ == survivors(
                old(self).tasks@,
                old(self).current as int,
                old(self).tasks@.len() as int,
            ),
            final(self).current == survivors(
                old(self).tasks@,
                old(self).current as int,
                old(self).current as int,
            ).len(),
            final(self).next_id == old(self).next_id,
            old(self).tasks@.len() > 0 ==> final(self).tasks@.len() > 0
                && final(self).tasks@[final(self).current as int] == old(self).tasks@[old(self).current as int],
    {
        let ghost all = self.tasks@;
        let ghost cur = self.current as int;
        let total: usize = self.tasks.len();
        let mut done: usize = 0;
        let mut i: usize = 0;
        proof {
            assert(all.subrange(0, total as int) =~= all);
            assert(survivors(all, cur, 0).add(all) =~= all);
        }
        while done < total
            invariant
                done <= total,
                total == all.len(),
                all == old(self).tasks@,
                cur == old(self).current,
                total > 0 ==> cur < total,
                self.next_id == old(self).next_id,
                i == survivors(all, cur, done as int).len(),
                i <= done,
                self.tasks@ == survivors(all, cur, done as int).add(
                    all.subrange(done as int, total as int),
                ),
                self.current == (if done <= cur {
                    i + (cur - done)
                } else {
                    survivors(all, cur, cur).len() as int
                }),
                total > 0 ==> self.current < self.tasks@.len() && self.tasks@[self.current as int]
                    == all[cur],
                done > cur ==> self.current < i,
                forall|k: int| 0 <= k < self.tasks@.len() ==> (#[trigger] self.tasks@[k]).fds.wf(),
                forall|k: int|
                    0 <= k < self.tasks@.len() && k != self.current ==> (
                    #[trigger] self.tasks@[k]).state != TaskState::Running,
                numbered(self.tasks@, self.next_id),
            decreases total - done,
        {
            let ghost kept = survivors(all, cur, done as int);
            let ghost rest = all.subrange(done as int, total as int);
            proof {
                assert(self.tasks@[i as int] == rest[0]);
                assert(rest[0] == all[done as int]);
                assert(rest.drop_first() =~= all.subrange(done + 1, total as int));
            }
            proof {
                assert((i == self.current) == (done as int == cur));
                assert(survivors(all, cur, done + 1) == if all[done as int].state
                    == TaskState::Dead && done as int != cur {
                    kept
                } else {
                    kept.push(all[done as int])
                });
            }
            if i != self.current && self.tasks[i].state == TaskState::Dead {
                let ghost before = self.tasks@;
                self.tasks.remove(i);
                if i < self.current {
                    self.current = self.current - 1;
                }
                proof {
                    assert(self.tasks@ =~= kept.add(rest.drop_first()));
                    assert(done != cur);
                    lemma_numbered_without(before, self.next_id, i as int);
                }
            } else {
                proof {
                    assert(kept.push(all[done as int]).add(rest.drop_first()) =~= kept.add(rest));
                    lemma_survivors_len(all, cur, done as int);
                    if done as int == cur {
                        assert(survivors(all, cur, cur) == kept);
                    }
                }
                i += 1;
            }
            done += 1;
        }
        proof {
            assert(all.subrange(total as int, total as int) =~= Seq::<Task>::empty());
            assert(self.tasks@ =~= survivors(all, cur, total as int));
        }
    }
}

/// What a scheduling decision at tick `now` leaves of the queue `tasks`
/// with the task at `current` running: the queue, the position of the
/// task that runs, and the switch to make, if any. The dead are reaped
/// and the sleepers woken; then the next ready task, if there is one,
/// runs, and the task that ran is ready again if it was still running.
pub open spec fn decided(tasks: Seq<Task>, current: int, now: u64) -> (
    Seq<Task>,
    int,
    Option<SwitchInfo>,
) {
    let alive = survivors(tasks, current, tasks.len() as int);
    let at = survivors(tasks, current, current).len() as int;
    let awake = all_woken(alive, now);
    match next_ready_from(awake, at, 1) {
        None => (awake, at, None),
        Some(next) => (
            switched(awake, at, next),
            next,
            Some(
                SwitchInfo {
                    old_index: at as usize,
                    new_index: next as usize,
                    new_sp: awake[next].stack_ptr,
                    new_cr3: cr3_of(awake[next]),
                },
            ),
        ),
    }
}

impl Scheduler {
    /// Makes ready every sleeper whose wake tick has come.
    pub fn wake(&mut self, now: u64)
        requires
            old(self).wf(),
        ensures
            final(self).wf(),
            final(self).tasks@ == all_woken(old(self).tasks@, now),
            final(self).current == old(self).current,
            final(self).next_id == old(self).next_id,
    {
        let n: usize = self.tasks.len();
        let mut i: usize = 0;
        while i < n
            invariant
                i <= n,
                n == self.tasks@.len(),
                n == old(self).tasks@.len(),
                old(self).wf(),
                self.current == old(self).current,
                self.next_id == old(self).next_id,
                forall|k: int| 0 <= k < i ==> #[trigger] self.tasks@[k] == woken(old(self).tasks@[k], now),
                forall|k: int| i <= k < n ==> #[trigger] self.tasks@[k] == old(self).tasks@[k],
            decreases n - i,
        {
            let wake_now = match (self.tasks[i].state, self.tasks[i].wake_at) {
                (TaskState::Sleeping, Some(w)) => now >= w,
                _ => false,
            };
            if wake_now {
                self.tasks[i].state = TaskState::Ready;
                self.tasks[i].wake_at = None;
            }
            i += 1;
        }
        assert(self.tasks@ =~= all_woken(old(self).tasks@, now));
    }

    /// Decides which task runs from tick `now` on, and says which switch
    /// to make, if any.
    pub fn schedule(&mut self, now: u64) -> (r: Option<SwitchInfo>)
        requires
            old(self).wf(),
        ensures
            final(self).wf(),
            final(self).next_id == old(self).next_id,
            final(self).tasks@ == decided(old(self).tasks@, old(self).current as int, now).0,
            final(self).current == decided(old(self).tasks@, old(self).current as int, now).1,
            r == decided(old(self).tasks@, old(self).current as int, now).2,
            r is Some ==> final(self).tasks@[final(self).current as int].state == TaskState::Running
                && running_count(final(self).tasks@) == 1,
    {
        self.reap_dead();
        let ghost alive = self.tasks@;
        self.wake(now);
        let current: usize = self.current;
        let ghost awake = self.tasks@;
        proof {
            assert(alive == survivors(
                old(self).tasks@,
                old(self).current as int,
                old(self).tasks@.len() as int,
            ));
            assert(awake == all_woken(alive, now));
            assert(current as int == survivors(
                old(self).tasks@,
                old(self).current as int,
                old(self).current as int,
            ).len());
        }
        let count: usize = self.tasks.len();
        let found = self.next_ready();
        let ghost pick = next_ready_from(awake, current as int, 1);
        proof {
            if pick is Some {
                assert(found is Some);
                assert(0 <= pick->0 < awake.len());
                assert(found->0 as int == pick->0);
            } else {
                assert(found is None);
            }
        }
        let result = match found {
            Some(next) => {
                if self.tasks[current].state == TaskState::Running {
                    self.tasks[current].state = TaskState::Ready;
                }
                self.tasks[next].state = TaskState::Running;
                self.current = next;
                let new_cr3: u64 = match self.tasks[next].address_space {
                    Some(a) => a.cr3_value(),
                    None => 0,
                };
                proof {
                    assert(self.tasks@ =~= switched(awake, current as int, next as int));
                    assert(self.tasks@[next as int].stack_ptr == awake[next as int].stack_ptr);
                    assert(new_cr3 == cr3_of(awake[next as int]));
                }
                Some(
                    SwitchInfo {
                        old_index: current,
                        new_index: next,
                        new_sp: self.tasks[next].stack_ptr,
                        new_cr3,
                    },
                )
            },
            None => None,
        };
        proof {
            if result is Some {
                lemma_running_count(self.tasks@, self.current as int);
            }
            let want = decided(old(self).tasks@, old(self).current as int, now);
            let at = current as int;
            assert(want == match next_ready_from(awake, at, 1) {
                None => (awake, at, None::<SwitchInfo>),
                Some(next) => (
                    switched(awake, at, next),
                    next,
                    Some(
                        SwitchInfo {
                            old_index: at as usize,
                            new_index: next as usize,
                            new_sp: awake[next].stack_ptr,
                            new_cr3: cr3_of(awake[next]),
                        },
                    ),
                ),
            });
            if found is None {
                assert(self.tasks@ == awake);
                assert(want.0 == awake);
            } else {
                let next = found->0 as int;
                assert(pick == Some(next));
                assert(next_ready_from(awake, at, 1) == Some(next));
                assert(self.tasks@ == switched(awake, at, next));
                assert(want.0 == switched(awake, at, next));
            }
        }
        result
    }

    /// Gives the processor up: the same decision as at a timer tick.
    pub fn yield_now(&mut self, now: u64) -> (r: Option<SwitchInfo>)
        requires
            old(self).wf(),
        ensures
            final(self).wf(),
            final(self).tasks@ == decided(old(self).tasks@, old(self).current as int, now).0,
            final(self).current == decided(old(self).tasks@, old(self).current as int, now).1,
            r == decided(old(self).tasks@, old(self).current as int, now).2,
    {
        self.schedule(now)
    }

    /// The tick at which a sleep of `ticks` ticks that begins at `now`
    /// ends; the last tick there is when that lies beyond it.
    pub open spec fn wake_tick(now: u64, ticks: u64) -> u64 {
        if now + ticks > u64::MAX {
            u64::MAX
        } else {
            (now + ticks) as u64
        }
    }

    /// Puts the task that runs to sleep for `ticks` ticks from `now` on.
    /// The scheduling decision that follows is left to the caller.
    pub fn sleep(&mut self, ticks: u64, now: u64)
        requires
            old(self).wf(),
        ensures
            final(self).wf(),
            final(self).current == old(self).current,
            final(self).next_id == old(self).next_id,
            old(self).tasks@.len() == 0 ==> final(self).tasks@ == old(self).tasks@,
            old(self).tasks@.len() > 0 ==> final(self).tasks@ == old(self).tasks@.update(
                old(self).current as int,
                Task {
                    state: TaskState::Sleeping,
                    wake_at: Some(Self::wake_tick(now, ticks)),
                    ..old(self).tasks@[old(self).current as int]
                },
            ),
    {
        if self.tasks.len() == 0 {
            return ;
        }
        let wake_at: u64 = if ticks > u64::MAX - now {
            u64::MAX
        } else {
            now + ticks
        };
        let current = self.current;
        self.tasks[current].wake_at = Some(wake_at);
        self.tasks[current].state = TaskState::Sleeping;
        assert(self.tasks@ =~= old(self).tasks@.update(
            old(self).current as int,
            Task {
                state: TaskState::Sleeping,
                wake_at: Some(Self::wake_tick(now, ticks)),
                ..old(self).tasks@[old(self).current as int]
            },
        ));
    }

    /// Ends the task that runs: it is dead from now on, and is reaped once
    /// another task runs. The scheduling decision that follows is left to
    /// the caller.
    pub fn exit(&mut self)
        requires
            old(self).wf(),
        ensures
            final(self).wf(),
            final(self).current == old(self).current,
            final(self).next_id == old(self).next_id,
            old(self).tasks@.len() == 0 ==> final(self).tasks@ == old(self).tasks@,
            old(self).tasks@.len() > 0 ==> final(self).tasks@ == old(self).tasks@.update(
                old(self).current as int,
                Task { state: TaskState::Dead, ..old(self).tasks@[old(self).current as int] },
            ),
    {
        if self.tasks.len() == 0 {
            return ;
        }
        let current = self.current;
        self.tasks[current].state = TaskState::Dead;
        assert(self.tasks@ =~= old(self).tasks@.update(
            old(self).current as int,
            Task { state: TaskState::Dead, ..old(self).tasks@[old(self).current as int] },
        ));
    }

    /// Adds a kernel task that begins at `entry`, and gives its number.
    pub fn spawn(&mut self, entry: u64, trampoline: u64, stack: Vec<u8>, stack_base: u64) -> (r: u64)
        requires
            old(self).wf(),
            old(self).next_id < u64::MAX,
            stack@.len() == crate::sched::task::STACK_SIZE,
            stack_base + crate::sched::task::STACK_SIZE <= u64::MAX,
        ensures
            final(self).wf(),
            r == old(self).next_id,
            final(self).current == old(self).current,
            final(self).next_id == old(self).next_id + 1,
            final(self).tasks@.len() == old(self).tasks@.len() + 1,
            final(self).tasks@.subrange(0, old(self).tasks@.len() as int) == old(self).tasks@,
            final(self).tasks@.last().is_new_kernel(r, entry, trampoline, stack_base),
    {
        let id = self.take_id();
        let task = Task::new(id, entry, trampoline, stack, stack_base);
        self.add_task(task);
        assert(self.tasks@.subrange(0, old(self).tasks@.len() as int) =~= old(self).tasks@);
        id
    }

    /// Adds a user task that begins at `user_entry` with the stack pointer
    /// `user_stack` in the address space `address_space`, and gives its
    /// number.
    pub fn spawn_user(
        &mut self,
        user_entry: u64,
        user_stack: u64,
        trampoline: u64,
        stack: Vec<u8>,
        stack_base: u64,
        address_space: Option<crate::mem::vmm::AddressSpace>,
    ) -> (r: u64)
        requires
            old(self).wf(),
            old(self).next_id < u64::MAX,
            stack@.len() == crate::sched::task::STACK_SIZE,
            stack_base + crate::sched::task::STACK_SIZE <= u64::MAX,
        ensures
            final(self).wf(),
            r == old(self).next_id,
            final(self).current == old(self).current,
            final(self).next_id == old(self).next_id + 1,
            final(self).tasks@.len() == old(self).tasks@.len() + 1,
            final(self).tasks@.subrange(0, old(self).tasks@.len() as int) == old(self).tasks@,
            final(self).tasks@.last().is_new_user(
                r,
                user_entry,
                user_stack,
                trampoline,
                stack_base,
                address_space,
            ),
    {
        let id = self.take_id();
        let task = Task::new_user(
            id,
            user_entry,
            user_stack,
            trampoline,
            stack,
            stack_base,
            address_space,
        );
        self.add_task(task);
        assert(self.tasks@.subrange(0, old(self).tasks@.len() as int) =~= old(self).tasks@);
        id
    }

    /// The working directory of the task that runs.
    pub fn get_cwd(&self) -> (r: Option<String>)
        requires
            self.wf(),
        ensures
            self.tasks@.len() == 0 ==> r is None,
            self.tasks@.len() > 0 ==> r is Some && r->0@ == self.tasks@[self.current as int].cwd@,
    {
        if self.tasks.len() == 0 {
            None
        } else {
            Some(self.tasks[self.current].cwd.clone())
        }
    }

    /// Makes `path` the working directory of the task that runs.
    pub fn set_cwd(&mut self, path: String) -> (r: Result<(), ()>)
        requires
            old(self).wf(),
        ensures
            final(self).wf(),
            final(self).current == old(self).current,
            final(self).next_id == old(self).next_id,
            old(self).tasks@.len() == 0 ==> r is Err && final(self).tasks@ == old(self).tasks@,
            old(self).tasks@.len() > 0 ==> r is Ok && final(self).tasks@ == old(self).tasks@.update(
                old(self).current as int,
                Task { cwd: path, ..old(self).tasks@[old(self).current as int] },
            ),
    {
        if self.tasks.len() == 0 {
            return Err(());
        }
        let current = self.current;
        self.tasks[current].cwd = path;
        assert(self.tasks@ =~= old(self).tasks@.update(
            old(self).current as int,
            Task { cwd: path, ..old(self).tasks@[old(self).current as int] },
        ));
        Ok(())
    }

    /// What the synthetic filesystems show of every task.
    pub fn snapshot(&self) -> (r: Vec<TaskInfo>)
        ensures
            r@.len() == self.tasks@.len(),
            forall|i: int|
                0 <= i < r@.len() ==> (#[trigger] r@[i]).id == self.tasks@[i].id && r@[i].state
                    == self.tasks@[i].state && r@[i].mode == self.tasks@[i].mode && r@[i].name@
                    == self.tasks@[i].name@,
    {
        let mut out: Vec<TaskInfo> = Vec::new();
        let mut i: usize = 0;
        while i < self.tasks.len()
            invariant
                i <= self.tasks@.len(),
                out@.len() == i,
                forall|k: int|
                    0 <= k < i ==> (#[trigger] out@[k]).id == self.tasks@[k].id && out@[k].state
                        == self.tasks@[k].state && out@[k].mode == self.tasks@[k].mode
                        && out@[k].name@ == self.tasks@[k].name@,
            decreases self.tasks@.len() - i,
        {
            out.push(self.tasks[i].info());
            i += 1;
        }
        out
    }
}

/// There are no more survivors than tasks looked at.
pub proof fn lemma_survivors_len(tasks: Seq<Task>, current: int, upto: int)
    ensures
        survivors(tasks, current, upto).len() <= (if upto > 0 {
            upto
        } else {
            0
        }),
    decreases upto,
{
    if upto > 0 {
        lemma_survivors_len(tasks, current, upto - 1);
    }
}

/// Tasks that are numbered are still numbered when one of them is taken
/// out.
pub proof fn lemma_numbered_without(tasks: Seq<Task>, next_id: u64, at: int)
    requires
        numbered(tasks, next_id),
        0 <= at < tasks.len(),
    ensures
        numbered(tasks.remove(at), next_id),
{
    let rest = tasks.remove(at);
    assert forall|i: int| 0 <= i < rest.len() implies (#[trigger] rest[i]).id < next_id by {
        assert(rest[i] == tasks[if i < at {
            i
        } else {
            i + 1
        }]);
    }
    assert forall|i: int, j: int| 0 <= i < j < rest.len() implies (#[trigger] rest[i]).id != (
    #[trigger] rest[j]).id by {
        let a = if i < at {
            i
        } else {
            i + 1
        };
        let b = if j < at {
            j
        } else {
            j + 1
        };
        assert(rest[i] == tasks[a] && rest[j] == tasks[b]);
    }
}

/// Every survivor is one of the tasks looked at.
pub proof fn lemma_survivors_are_tasks(tasks: Seq<Task>, current: int, upto: int, j: int)
    requires
        0 <= upto <= tasks.len(),
        0 <= j < survivors(tasks, current, upto).len(),
    ensures
        exists|i: int| 0 <= i < upto && survivors(tasks, current, upto)[j] == #[trigger] tasks[i],
    decreases upto,
{
    let before = survivors(tasks, current, upto - 1);
    if j < before.len() {
        lemma_survivors_are_tasks(tasks, current, upto - 1, j);
        let i = choose|i: int| 0 <= i < upto - 1 && before[j] == #[trigger] tasks[i];
        assert(survivors(tasks, current, upto)[j] == tasks[i]);
    } else {
        assert(survivors(tasks, current, upto)[j] == tasks[upto - 1]);
    }
}

/// The next ready task, when there is one, is a task of the queue that
/// is ready.
pub proof fn lemma_next_ready_is_ready(tasks: Seq<Task>, current: int, k: int)
    requires
        0 <= current < tasks.len(),
        k >= 1,
    ensures
        next_ready_from(tasks, current, k) matches Some(i) ==> 0 <= i < tasks.len()
            && tasks[i].state == TaskState::Ready,
    decreases tasks.len() - k + 1,
{
    if k <= tasks.len() {
        let at = (current + k) % (tasks.len() as int);
        if tasks[at].state != TaskState::Ready {
            lemma_next_ready_is_ready(tasks, current, k + 1);
        }
    }
}

/// Whether `after` is the task `before` but for its state and its wake
/// tick.
pub open spec fn same_task(before: Task, after: Task) -> bool {
    after == (Task { state: after.state, wake_at: after.wake_at, ..before })
}

/// Whether a task may run at tick `now`: it runs or is ready, or it
/// sleeps and its wake tick has come.
pub open spec fn due(t: Task, now: u64) -> bool {
    t.state == TaskState::Running || t.state == TaskState::Ready || (t.state
        == TaskState::Sleeping && t.wake_at is Some && t.wake_at->0 <= now)
}

/// No sleeper runs before its wake tick: a task that runs after the
/// scheduling decision at tick `now` is a task of the queue that ran or
/// was ready before it, or a sleeper whose wake tick was at most `now`.
/// With the wake tick that `sleep` sets, the tick of the call plus the
/// ticks asked for, a task that sleeps runs again no sooner than asked.
pub proof fn lemma_only_the_due_run(tasks: Seq<Task>, current: int, now: u64, j: int)
    requires
        0 <= current < tasks.len(),
        0 <= j < decided(tasks, current, now).0.len(),
        decided(tasks, current, now).0[j].state == TaskState::Running,
    ensures
        exists|i: int|
            0 <= i < tasks.len() && same_task(#[trigger] tasks[i], decided(tasks, current, now).0[j])
                && due(tasks[i], now),
{
    let alive = survivors(tasks, current, tasks.len() as int);
    let at = survivors(tasks, current, current).len() as int;
    let awake = all_woken(alive, now);
    let after = decided(tasks, current, now).0;
    assert(alive.len() > at) by {
        lemma_survivors_len(tasks, current, current);
        assert(survivors(tasks, current, current + 1) == survivors(tasks, current, current).push(
            tasks[current],
        ));
        lemma_survivors_grow(tasks, current, current + 1, tasks.len() as int);
    }
    lemma_next_ready_is_ready(awake, at, 1);
    assert(after.len() == alive.len());
    lemma_survivors_are_tasks(tasks, current, tasks.len() as int, j);
    let i = choose|i: int| 0 <= i < tasks.len() && alive[j] == #[trigger] tasks[i];
    assert(awake[j] == woken(alive[j], now));
    match next_ready_from(awake, at, 1) {
        None => {
            assert(after[j] == awake[j]);
        },
        Some(next) => {
            if j == next {
                assert(awake[next].state == TaskState::Ready);
            }
        },
    }
    assert(same_task(tasks[i], after[j]) && due(tasks[i], now));
}

/// The survivors among more tasks are at least as many.
pub proof fn lemma_survivors_grow(tasks: Seq<Task>, current: int, from: int, upto: int)
    requires
        from <= upto,
    ensures
        survivors(tasks, current, from).len() <= survivors(tasks, current, upto).len(),
    decreases upto - from,
{
    if from < upto {
        lemma_survivors_grow(tasks, current, from, upto - 1);
    }
}

} // verus!
