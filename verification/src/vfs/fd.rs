//! The descriptor table of a task: 64 slots, the first three of which are
//! the standard streams for good.

use vstd::prelude::*;
use crate::vfs::types::{DirEntry, VfsError, VfsResult, MAX_FDS};

verus! {

/// What a descriptor stands for. `H` is the type of open files.
pub enum FdKind<H> {
    /// An open file.
    File(H),
    /// A directory as it was listed when it was opened, and how many of
    /// its entries have been handed out.
    Directory { path: String, entries: Vec<DirEntry>, position: usize },
    Stdin,
    Stdout,
    Stderr,
}

/// The descriptors of a task.
pub struct FdTable<H> {
    pub fds: Vec<Option<FdKind<H>>>,
}

/// What is found at descriptor `fd` of the slots `slots`.
pub open spec fn slot_at<H>(slots: Seq<Option<FdKind<H>>>, fd: int) -> Result<FdKind<H>, VfsError> {
    if 0 <= fd < slots.len() && slots[fd] is Some {
        Ok(slots[fd]->0)
    } else {
        Err(VfsError::InvalidFd)
    }
}

/// The lowest free slot of `slots`, or their number when none is free.
pub open spec fn first_free<H>(slots: Seq<Option<FdKind<H>>>) -> int
    decreases slots.len(),
{
    if slots.len() == 0 {
        0
    } else if slots[0] is None {
        0
    } else {
        1 + first_free(slots.drop_first())
    }
}

/// The lowest free slot is free, and every slot below it is taken.
pub proof fn lemma_first_free<H>(slots: Seq<Option<FdKind<H>>>)
    ensures
        0 <= first_free(slots) <= slots.len(),
        first_free(slots) < slots.len() ==> slots[first_free(slots)] is None,
        forall|i: int| 0 <= i < first_free(slots) ==> (#[trigger] slots[i]) is Some,
    decreases slots.len(),
{
    if slots.len() > 0 && slots[0] is Some {
        let rest = slots.drop_first();
        lemma_first_free(rest);
        assert forall|i: int| 0 <= i < first_free(slots) implies (#[trigger] slots[i]) is Some by {
            if i > 0 {
                assert(rest[i - 1] == slots[i]);
            }
        }
    }
}

impl<H> FdTable<H> {
    /// The table has its 64 slots, and the first three hold the standard
    /// streams.
    pub open spec fn wf(&self) -> bool {
        &&& self.fds@.len() == MAX_FDS
        &&& self.fds@[0] == Some(FdKind::<H>::Stdin)
        &&& self.fds@[1] == Some(FdKind::<H>::Stdout)
        &&& self.fds@[2] == Some(FdKind::<H>::Stderr)
    }

    /// Whether the table holds only the standard streams: every other
    /// descriptor is free.
    pub open spec fn fresh(&self) -> bool {
        &&& self.wf()
        &&& forall|i: int| 3 <= i < MAX_FDS ==> (#[trigger] self.fds@[i]) is None
    }

    /// A table with only the standard streams.
    pub fn new() -> (r: Self)
        ensures
            r.fresh(),
    {
        let mut fds: Vec<Option<FdKind<H>>> = Vec::new();
        fds.push(Some(FdKind::Stdin));
        fds.push(Some(FdKind::Stdout));
        fds.push(Some(FdKind::Stderr));
        let mut i: usize = 3;
        while i < MAX_FDS
            invariant
                3 <= i <= MAX_FDS,
                fds@.len() == i,
                fds@[0] == Some(FdKind::<H>::Stdin),
                fds@[1] == Some(FdKind::<H>::Stdout),
                fds@[2] == Some(FdKind::<H>::Stderr),
                forall|k: int| 3 <= k < i ==> (#[trigger] fds@[k]) is None,
            decreases MAX_FDS - i,
        {
            fds.push(None);
            i += 1;
        }
        Self { fds }
    }

    /// Puts `kind` into the lowest free slot and gives its number. With
    /// no free slot the table is left as it is.
    pub fn allocate(&mut self, kind: FdKind<H>) -> (r: VfsResult<usize>)
        requires
            old(self).wf(),
        ensures
            final(self).wf(),
            first_free(old(self).fds@) < MAX_FDS ==> r == Ok::<usize, VfsError>(
                first_free(old(self).fds@) as usize,
            ) && final(self).fds@ == old(self).fds@.update(
                first_free(old(self).fds@),
                Some(kind),
            ),
            first_free(old(self).fds@) >= MAX_FDS ==> r == Err::<usize, VfsError>(
                VfsError::NoSpace,
            ) && final(self).fds@ == old(self).fds@,
    {
        let mut i: usize = 0;
        proof {
            assert(self.fds@.subrange(0, MAX_FDS as int) =~= self.fds@);
        }
        while i < MAX_FDS
            invariant
                i <= MAX_FDS,
                self.wf(),
                self.fds@ == old(self).fds@,
                first_free(self.fds@) == i + first_free(self.fds@.subrange(i as int, MAX_FDS as int)),
            decreases MAX_FDS - i,
        {
            proof {
                let rest = self.fds@.subrange(i as int, MAX_FDS as int);
                assert(rest[0] == self.fds@[i as int]);
                assert(rest.drop_first() =~= self.fds@.subrange(i + 1, MAX_FDS as int));
            }
            if self.fds[i].is_none() {
                self.fds[i] = Some(kind);
                return Ok(i);
            }
            i += 1;
        }
        Err(VfsError::NoSpace)
    }

    /// What descriptor `fd` stands for.
    pub fn get(&self, fd: usize) -> (r: VfsResult<&FdKind<H>>)
        requires
            self.wf(),
        ensures
            match slot_at(self.fds@, fd as int) {
                Ok(k) => r matches Ok(found) && *found == k,
                Err(e) => r matches Err(f) && f == e,
            },
    {
        if fd >= MAX_FDS {
            return Err(VfsError::InvalidFd);
        }
        match &self.fds[fd] {
            Some(k) => Ok(k),
            None => Err(VfsError::InvalidFd),
        }
    }

    /// What descriptor `fd` stands for, to be changed in place. The table
    /// afterwards holds in slot `fd` whatever the caller leaves there.
    pub fn get_mut(&mut self, fd: usize) -> (r: VfsResult<&mut FdKind<H>>)
        requires
            old(self).wf(),
        ensures
            slot_at(old(self).fds@, fd as int) is Err ==> r is Err && final(self).fds@ == old(self).fds@,
            slot_at(old(self).fds@, fd as int) is Ok ==> r is Ok,
            r matches Ok(k) ==> *k == old(self).fds@[fd as int]->0
                && final(self).fds@ == old(self).fds@.update(fd as int, Some(*final(k))),
    {
        if fd >= MAX_FDS {
            return Err(VfsError::InvalidFd);
        }
        match &mut self.fds[fd] {
            Some(k) => Ok(k),
            None => Err(VfsError::InvalidFd),
        }
    }

    /// Takes what descriptor `fd` stands for out of the table, leaving the
    /// slot free. The standard streams cannot be taken.
    pub fn take(&mut self, fd: usize) -> (r: VfsResult<FdKind<H>>)
        requires
            old(self).wf(),
        ensures
            final(self).wf(),
            fd >= MAX_FDS ==> r == Err::<FdKind<H>, VfsError>(VfsError::InvalidFd),
            fd < 3 ==> r == Err::<FdKind<H>, VfsError>(VfsError::PermissionDenied),
            3 <= fd < MAX_FDS && old(self).fds@[fd as int] is None ==> r == Err::<
                FdKind<H>,
                VfsError,
            >(VfsError::InvalidFd),
            3 <= fd < MAX_FDS && old(self).fds@[fd as int] is Some ==> r == Ok::<
                FdKind<H>,
                VfsError,
            >(old(self).fds@[fd as int]->0) && final(self).fds@ == old(self).fds@.update(
                fd as int,
                None::<FdKind<H>>,
            ),
            r is Err ==> final(self).fds@ == old(self).fds@,
    {
        if fd >= MAX_FDS {
            return Err(VfsError::InvalidFd);
        }
        if fd < 3 {
            return Err(VfsError::PermissionDenied);
        }
        if self.fds[fd].is_none() {
            return Err(VfsError::InvalidFd);
        }
        let mut slot: Option<FdKind<H>> = None;
        core::mem::swap(&mut self.fds[fd], &mut slot);
        match slot {
            Some(k) => Ok(k),
            None => Err(VfsError::InvalidFd),
        }
    }

    /// Puts `kind` back into the free slot `fd`.
    pub fn put(&mut self, fd: usize, kind: FdKind<H>)
        requires
            old(self).wf(),
            3 <= fd < MAX_FDS,
        ensures
            final(self).wf(),
            final(self).fds@ == old(self).fds@.update(fd as int, Some(kind)),
    {
        self.fds[fd] = Some(kind);
    }

    /// Closes descriptor `fd`: the slot becomes free. The standard streams
    /// cannot be closed.
    pub fn close(&mut self, fd: usize) -> (r: VfsResult<()>)
        requires
            old(self).wf(),
        ensures
            final(self).wf(),
            fd >= MAX_FDS ==> r == Err::<(), VfsError>(VfsError::InvalidFd),
            fd < 3 ==> r == Err::<(), VfsError>(VfsError::PermissionDenied),
            3 <= fd < MAX_FDS && old(self).fds@[fd as int] is None ==> r == Err::<(), VfsError>(
                VfsError::InvalidFd,
            ),
            3 <= fd < MAX_FDS && old(self).fds@[fd as int] is Some ==> r is Ok && final(self).fds@
                == old(self).fds@.update(fd as int, None::<FdKind<H>>),
            r is Err ==> final(self).fds@ == old(self).fds@,
    {
        match self.take(fd) {
            Ok(_) => Ok(()),
            Err(e) => Err(e),
        }
    }

    /// After a descriptor above the standard streams is closed, nothing
    /// is found at it.
    pub proof fn lemma_closed_is_gone(before: Seq<Option<FdKind<H>>>, fd: int)
        requires
            3 <= fd < before.len(),
        ensures
            slot_at(before.update(fd, None::<FdKind<H>>), fd) == Err::<FdKind<H>, VfsError>(
                VfsError::InvalidFd,
            ),
    {
    }

    /// Allocation fails exactly when every slot is taken.
    pub proof fn lemma_full_table(slots: Seq<Option<FdKind<H>>>)
        ensures
            first_free(slots) >= slots.len() <==> forall|i: int|
                0 <= i < slots.len() ==> (#[trigger] slots[i]) is Some,
    {
        lemma_first_free(slots);
    }
}

} // verus!
