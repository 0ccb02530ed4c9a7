//! A read-only filesystem that shows the tasks of the scheduler: one
//! directory per task, named by the task's number, with the files
//! `status` and `name`.

use vstd::prelude::*;
use vstd::string::*;
use crate::sched::task::{TaskInfo, TaskMode, TaskState};
use crate::text::{
    chars_of, decimal, digits_of, lemma_digits_differ, parse_decimal, parse_u64, push_chars,
    push_decimal, push_str,
    segments, split_segments, str_is, string_of, texts,
};
use crate::vfs::handle::StaticFileHandle;
use crate::vfs::types::{
    DirEntry, DirEntryModel, FileType, Filesystem, Metadata, OpenFlags, VfsError, VfsResult,
    listing_view,
};

verus! {

/// The filesystem: the tasks as they were when it was last refreshed.
pub struct TasksFs {
    pub tasks: Vec<TaskInfo>,
}

/// The word shown for a state.
pub open spec fn state_word(state: TaskState) -> Seq<char> {
    match state {
        TaskState::Ready => "ready"@,
        TaskState::Running => "running"@,
        TaskState::Sleeping => "sleeping"@,
        TaskState::Dead => "dead"@,
    }
}

/// The word shown for a mode.
pub open spec fn mode_word(mode: TaskMode) -> Seq<char> {
    match mode {
        TaskMode::Kernel => "kernel"@,
        TaskMode::User => "user"@,
    }
}

/// The three lines of a task's `status` file.
pub open spec fn status_text(id: u64, state: TaskState, mode: TaskMode) -> Seq<char> {
    "pid: "@.add(digits_of(id as nat)).add("\nstate: "@).add(state_word(state)).add(
        "\nmode: "@,
    ).add(mode_word(mode))
}

/// The characters of `text` as bytes, one byte per character.
pub open spec fn narrow(text: Seq<char>) -> Seq<u8> {
    Seq::new(text.len(), |i: int| (text[i] as u32 % 256) as u8)
}

/// Turns characters into bytes, one byte per character.
pub fn narrow_chars(text: &[char]) -> (r: Vec<u8>)
    ensures
        r@ == narrow(text@),
{
    let mut out: Vec<u8> = Vec::new();
    let mut i: usize = 0;
    while i < text.len()
        invariant
            i <= text@.len(),
            out@.len() == i,
            forall|k: int| 0 <= k < i ==> out@[k] == (text@[k] as u32 % 256) as u8,
        decreases text@.len() - i,
    {
        out.push(((text[i] as u32) % 256) as u8);
        i += 1;
    }
    assert(out@ =~= narrow(text@));
    out
}

/// Position of the first task numbered `pid`, or the number of tasks.
pub open spec fn task_index(tasks: Seq<TaskInfo>, pid: u64) -> int
    decreases tasks.len(),
{
    if tasks.len() == 0 {
        0
    } else if tasks[0].id == pid {
        0
    } else {
        1 + task_index(tasks.drop_first(), pid)
    }
}

/// The listing of the root: a directory for every task that is not dead.
pub open spec fn live_listing(tasks: Seq<TaskInfo>) -> Seq<DirEntryModel>
    decreases tasks.len(),
{
    if tasks.len() == 0 {
        Seq::empty()
    } else {
        let rest = live_listing(tasks.drop_last());
        if tasks.last().state == TaskState::Dead {
            rest
        } else {
            rest.push(
                DirEntryModel {
                    name: digits_of(tasks.last().id as nat),
                    file_type: FileType::Directory,
                },
            )
        }
    }
}

/// The listing of a task's directory.
pub open spec fn task_listing() -> Seq<DirEntryModel> {
    seq![
        DirEntryModel { name: "status"@, file_type: FileType::File },
        DirEntryModel { name: "name"@, file_type: FileType::File },
    ]
}

/// The bytes of the file `file` of the task `task`, if there is such a file.
pub open spec fn task_file(task: TaskInfo, file: Seq<char>) -> Option<Seq<u8>> {
    if file == "status"@ {
        Some(narrow(status_text(task.id, task.state, task.mode)))
    } else if file == "name"@ {
        Some(vstd::utf8::encode_utf8(task.name@))
    } else {
        None
    }
}

impl TasksFs {
    /// A filesystem that shows no task yet.
    pub fn new() -> (r: Self)
        ensures
            r.tasks@.len() == 0,
    {
        Self { tasks: Vec::new() }
    }

    /// Replaces the tasks shown.
    pub fn set_tasks(&mut self, tasks: Vec<TaskInfo>)
        ensures
            final(self).tasks == tasks,
    {
        self.tasks = tasks;
    }

    /// Splits `path` into its names.
    pub fn path_parts(path: &str) -> (r: Vec<Vec<char>>)
        ensures
            texts(r@) == segments(path@, '/'),
    {
        let chars = chars_of(path);
        split_segments(chars.as_slice(), '/')
    }

    /// Finds the first task numbered `pid`.
    pub fn find_task(&self, pid: u64) -> (r: Option<usize>)
        ensures
            match r {
                Some(i) => i < self.tasks@.len() && i == task_index(self.tasks@, pid),
                None => task_index(self.tasks@, pid) >= self.tasks@.len(),
            },
    {
        let n: usize = self.tasks.len();
        let mut i: usize = 0;
        proof {
            assert(self.tasks@.subrange(0, n as int) =~= self.tasks@);
        }
        while i < n
            invariant
                i <= n,
                n == self.tasks@.len(),
                task_index(self.tasks@, pid) == i + task_index(
                    self.tasks@.subrange(i as int, n as int),
                    pid,
                ),
            decreases n - i,
        {
            proof {
                let rest = self.tasks@.subrange(i as int, n as int);
                assert(rest[0] == self.tasks@[i as int]);
                assert(rest.drop_first() =~= self.tasks@.subrange(i + 1, n as int));
            }
            if self.tasks[i].id == pid {
                return Some(i);
            }
            i += 1;
        }
        proof {
            assert(self.tasks@.subrange(n as int, n as int).len() == 0);
        }
        None
    }

    /// The task that the name `name` of a task directory stands for.
    pub open spec fn task_named(&self, name: Seq<char>) -> Option<TaskInfo> {
        match parse_decimal(name) {
            Some(pid) => if task_index(self.tasks@, pid) < self.tasks@.len() {
                Some(self.tasks@[task_index(self.tasks@, pid)])
            } else {
                None
            },
            None => None,
        }
    }

    /// Finds the task that the name `name` of a task directory stands for.
    pub fn lookup(&self, name: &Vec<char>) -> (r: Option<usize>)
        ensures
            match r {
                Some(i) => i < self.tasks@.len() && self.task_named(name@) == Some(self.tasks@[i as int]),
                None => self.task_named(name@) is None,
            },
    {
        match parse_u64(name.as_slice()) {
            Some(pid) => self.find_task(pid),
            None => None,
        }
    }

    /// The bytes of a task's `status` file.
    pub fn status_bytes(task: &TaskInfo) -> (r: Vec<u8>)
        ensures
            r@ == narrow(status_text(task.id, task.state, task.mode)),
    {
        let mut text: Vec<char> = Vec::new();
        push_str(&mut text, "pid: ");
        push_decimal(task.id, &mut text);
        push_str(&mut text, "\nstate: ");
        match task.state {
            TaskState::Ready => push_str(&mut text, "ready"),
            TaskState::Running => push_str(&mut text, "running"),
            TaskState::Sleeping => push_str(&mut text, "sleeping"),
            TaskState::Dead => push_str(&mut text, "dead"),
        }
        push_str(&mut text, "\nmode: ");
        match task.mode {
            TaskMode::Kernel => push_str(&mut text, "kernel"),
            TaskMode::User => push_str(&mut text, "user"),
        }
        assert(text@ =~= status_text(task.id, task.state, task.mode));
        narrow_chars(text.as_slice())
    }
}

impl Filesystem for TasksFs {
    type Handle = StaticFileHandle;

    open spec fn wf(&self) -> bool {
        true
    }

    /// Whether opening `path` with `flags` may give `r` and leave the
    /// filesystem as `after`.
    open spec fn opens(
        &self,
        path: Seq<char>,
        flags: OpenFlags,
        r: VfsResult<StaticFileHandle>,
        after: &Self,
    ) -> bool {
        &&& after.tasks == self.tasks
        &&& ({
            let parts = segments(path, '/');
            if parts.len() != 2 {
                r matches Err(e) && e == VfsError::IsADirectory
            } else {
                match self.task_named(parts[0]) {
                    None => r matches Err(e) && e == VfsError::NotFound,
                    Some(task) => match task_file(task, parts[1]) {
                        None => r matches Err(e) && e == VfsError::NotFound,
                        Some(bytes) => r matches Ok(h) && h.content@ == bytes && h.position
                            == 0,
                    },
                }
            }
        })
    }

    /// Whether creating the directory `path` may give `r` and leave the
    /// filesystem as `after`.
    open spec fn makes_dir(&self, path: Seq<char>, r: VfsResult<()>, after: &Self) -> bool {
        &&& r == Err::<(), VfsError>(VfsError::PermissionDenied)
        &&& after.tasks == self.tasks
    }

    /// Whether removing the file `path` may give `r` and leave the
    /// filesystem as `after`.
    open spec fn removes(&self, path: Seq<char>, r: VfsResult<()>, after: &Self) -> bool {
        &&& r == Err::<(), VfsError>(VfsError::PermissionDenied)
        &&& after.tasks == self.tasks
    }

    /// Whether removing the directory `path` may give `r` and leave the
    /// filesystem as `after`.
    open spec fn removes_dir(&self, path: Seq<char>, r: VfsResult<()>, after: &Self) -> bool {
        &&& r == Err::<(), VfsError>(VfsError::PermissionDenied)
        &&& after.tasks == self.tasks
    }

    /// Whether listing the directory `path` may give `r`.
    open spec fn lists(&self, path: Seq<char>, r: VfsResult<Vec<DirEntry>>) -> bool {
        &&& ({
            let parts = segments(path, '/');
            if parts.len() == 0 {
                r matches Ok(list) && listing_view(list@) == live_listing(self.tasks@)
            } else if parts.len() == 1 {
                match self.task_named(parts[0]) {
                    None => r matches Err(e) && e == VfsError::NotFound,
                    Some(_) => r matches Ok(list) && listing_view(list@) == task_listing(),
                }
            } else {
                r matches Err(e) && e == VfsError::NotADirectory
            }
        })
    }

    /// Whether asking for what is known of `path` may give `r`.
    open spec fn describes(&self, path: Seq<char>, r: VfsResult<Metadata>) -> bool {
        &&& ({
            let parts = segments(path, '/');
            let dir = Ok::<Metadata, VfsError>(
                Metadata { file_type: FileType::Directory, size: 0 },
            );
            let file = Ok::<Metadata, VfsError>(Metadata { file_type: FileType::File, size: 0 });
            let missing = Err::<Metadata, VfsError>(VfsError::NotFound);
            r == if parts.len() == 0 {
                dir
            } else if parts.len() > 2 || self.task_named(parts[0]) is None {
                missing
            } else if parts.len() == 1 {
                dir
            } else if parts[1] == "status"@ || parts[1] == "name"@ {
                file
            } else {
                missing
            }
        })
    }

    /// Opens the file `status` or `name` of a task. A path of any other
    /// length than two names is a directory.
    fn open(&mut self, path: &str, flags: OpenFlags) -> (r: VfsResult<StaticFileHandle>) {
        let parts = Self::path_parts(path);
        if parts.len() != 2 {
            return Err(VfsError::IsADirectory);
        }
        let index = match self.lookup(&parts[0]) {
            Some(i) => i,
            None => {
                return Err(VfsError::NotFound);
            },
        };
        let file = string_of(parts[1].as_slice());
        let task = &self.tasks[index];
        let content: Vec<u8> = if str_is(file.as_str(), "status") {
            Self::status_bytes(task)
        } else if str_is(file.as_str(), "name") {
            task.name.as_str().as_bytes_vec()
        } else {
            return Err(VfsError::NotFound);
        };
        Ok(StaticFileHandle::new(content))
    }

    fn mkdir(&mut self, path: &str) -> (r: VfsResult<()>) {
        Err(VfsError::PermissionDenied)
    }

    fn remove(&mut self, path: &str) -> (r: VfsResult<()>) {
        Err(VfsError::PermissionDenied)
    }

    fn rmdir(&mut self, path: &str) -> (r: VfsResult<()>) {
        Err(VfsError::PermissionDenied)
    }

    /// Lists the root, which holds a directory for every task that is not
    /// dead, or the directory of a task, which holds `status` and `name`.
    fn readdir(&self, path: &str) -> (r: VfsResult<Vec<DirEntry>>) {
        let parts = Self::path_parts(path);
        if parts.len() == 0 {
            let mut list: Vec<DirEntry> = Vec::new();
            let n: usize = self.tasks.len();
            let mut i: usize = 0;
            proof {
                assert(listing_view(list@) =~= live_listing(self.tasks@.subrange(0, 0)));
            }
            while i < n
                invariant
                    i <= n,
                    n == self.tasks@.len(),
                    listing_view(list@) == live_listing(self.tasks@.subrange(0, i as int)),
                decreases n - i,
            {
                let ghost before = listing_view(list@);
                proof {
                    let head = self.tasks@.subrange(0, i + 1);
                    assert(head.drop_last() =~= self.tasks@.subrange(0, i as int));
                    assert(head.last() == self.tasks@[i as int]);
                }
                let t = &self.tasks[i];
                if t.state != TaskState::Dead {
                    let digits = decimal(t.id);
                    let name = string_of(digits.as_slice());
                    list.push(DirEntry { name, file_type: FileType::Directory });
                    assert(listing_view(list@) =~= before.push(
                        DirEntryModel {
                            name: digits_of(t.id as nat),
                            file_type: FileType::Directory,
                        },
                    ));
                }
                i += 1;
            }
            proof {
                assert(self.tasks@.subrange(0, n as int) =~= self.tasks@);
            }
            Ok(list)
        } else if parts.len() == 1 {
            match self.lookup(&parts[0]) {
                None => Err(VfsError::NotFound),
                Some(_) => {
                    let mut list: Vec<DirEntry> = Vec::new();
                    list.push(DirEntry { name: "status".to_owned(), file_type: FileType::File });
                    list.push(DirEntry { name: "name".to_owned(), file_type: FileType::File });
                    assert(listing_view(list@) =~= task_listing());
                    Ok(list)
                },
            }
        } else {
            Err(VfsError::NotADirectory)
        }
    }

    /// What is known of the root, of a task's directory, and of the files
    /// `status` and `name` of a task. Sizes are not known and given as 0.
    fn metadata(&self, path: &str) -> (r: VfsResult<Metadata>) {
        let parts = Self::path_parts(path);
        if parts.len() == 0 {
            return Ok(Metadata { file_type: FileType::Directory, size: 0 });
        }
        if parts.len() > 2 {
            return Err(VfsError::NotFound);
        }
        if self.lookup(&parts[0]).is_none() {
            return Err(VfsError::NotFound);
        }
        if parts.len() == 1 {
            return Ok(Metadata { file_type: FileType::Directory, size: 0 });
        }
        let file = string_of(parts[1].as_slice());
        if str_is(file.as_str(), "status") || str_is(file.as_str(), "name") {
            Ok(Metadata { file_type: FileType::File, size: 0 })
        } else {
            Err(VfsError::NotFound)
        }
    }
}

/// Tasks with different numbers are listed under different names, each
/// the digits of the number of a task that is not dead.
pub proof fn lemma_live_names_differ(tasks: Seq<TaskInfo>)
    requires
        forall|i: int, j: int|
            0 <= i < j < tasks.len() ==> (#[trigger] tasks[i]).id != (#[trigger] tasks[j]).id,
    ensures
        forall|a: int|
            0 <= a < live_listing(tasks).len() ==> exists|i: int|
                0 <= i < tasks.len() && tasks[i].state != TaskState::Dead && (
                #[trigger] live_listing(tasks)[a]).name == digits_of(
                    (#[trigger] tasks[i]).id as nat,
                ),
        forall|a: int, b: int|
            0 <= a < b < live_listing(tasks).len() ==> (#[trigger] live_listing(tasks)[a]).name != (
            #[trigger] live_listing(tasks)[b]).name,
    decreases tasks.len(),
{
    if tasks.len() > 0 {
        let front = tasks.drop_last();
        let rest = live_listing(front);
        let all = live_listing(tasks);
        let n = tasks.len() - 1;
        assert forall|i: int, j: int| 0 <= i < j < front.len() implies (#[trigger] front[i]).id != (
        #[trigger] front[j]).id by {
            assert(front[i] == tasks[i] && front[j] == tasks[j]);
        }
        lemma_live_names_differ(front);
        assert forall|a: int| 0 <= a < all.len() implies exists|i: int|
            0 <= i < tasks.len() && tasks[i].state != TaskState::Dead && (#[trigger] all[a]).name
                == digits_of((#[trigger] tasks[i]).id as nat) by {
            if a < rest.len() {
                let i = choose|i: int|
                    0 <= i < front.len() && front[i].state != TaskState::Dead && (
                    #[trigger] rest[a]).name == digits_of((#[trigger] front[i]).id as nat);
                assert(front[i] == tasks[i]);
                assert(all[a] == rest[a]);
            } else {
                assert(all[a].name == digits_of(tasks[n].id as nat));
            }
        }
        assert forall|a: int, b: int| 0 <= a < b < all.len() implies (#[trigger] all[a]).name != (
        #[trigger] all[b]).name by {
            if b < rest.len() {
                assert(all[a] == rest[a] && all[b] == rest[b]);
            } else {
                let i = choose|i: int|
                    0 <= i < front.len() && front[i].state != TaskState::Dead && (
                    #[trigger] rest[a]).name == digits_of((#[trigger] front[i]).id as nat);
                assert(front[i] == tasks[i]);
                assert(all[a] == rest[a]);
                assert(tasks[i].id != tasks[n].id);
                lemma_digits_differ(tasks[i].id as nat, tasks[n].id as nat);
            }
        }
    }
}

} // verus!
