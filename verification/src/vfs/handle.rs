//! Open files that hold no reference to the filesystem they came from.

use vstd::prelude::*;
use crate::vfs::types::{
    read_at, read_window, seek_allowed, seek_goal, seek_position, FileHandle, FileType, Metadata,
    SeekFrom, VfsError, VfsResult,
};

verus! {

/// A read-only file whose bytes were fixed when it was opened.
pub struct StaticFileHandle {
    pub content: Vec<u8>,
    pub position: usize,
}

impl StaticFileHandle {
    /// A handle at the start of `content`.
    pub fn new(content: Vec<u8>) -> (r: Self)
        ensures
            r.content == content,
            r.position == 0,
    {
        Self { content, position: 0 }
    }
}

impl FileHandle for StaticFileHandle {
    /// Whether reading into a buffer that holds `room` may give `r`, leave
    /// the handle as `after` and the buffer holding `out`.
    open spec fn reads(
        &self,
        room: Seq<u8>,
        r: VfsResult<usize>,
        after: &Self,
        out: Seq<u8>,
    ) -> bool {
        &&& r == Ok::<usize, VfsError>(
            read_window(self.content@, self.position as int, room.len() as int).len() as usize,
        )
        &&& out.subrange(0, r->Ok_0 as int) == read_window(
            self.content@,
            self.position as int,
            room.len() as int,
        )
        &&& after.position == self.position + r->Ok_0
        &&& after.content == self.content
    }

    fn read(&mut self, buf: &mut Vec<u8>) -> (r: VfsResult<usize>) {
        let len: usize = self.content.len();
        let n = read_at(&self.content, self.position, buf);
        self.position = self.position + n;
        Ok(n)
    }

    /// Whether writing `bytes` may give `r` and leave the handle as `after`.
    open spec fn writes(&self, bytes: Seq<u8>, r: VfsResult<usize>, after: &Self) -> bool {
        &&& r == Err::<usize, VfsError>(VfsError::PermissionDenied)
        &&& *after == *self
    }

    fn write(&mut self, buf: &[u8]) -> (r: VfsResult<usize>) {
        Err(VfsError::PermissionDenied)
    }

    /// Whether moving the position by `pos` may give `r` and leave the
    /// handle as `after`.
    open spec fn seeks(&self, pos: SeekFrom, r: VfsResult<usize>, after: &Self) -> bool {
        &&& r == if seek_allowed(
            seek_goal(pos, self.position, self.content@.len() as usize),
        ) {
            Ok::<usize, VfsError>(
                seek_goal(pos, self.position, self.content@.len() as usize) as usize,
            )
        } else {
            Err::<usize, VfsError>(VfsError::InvalidPath)
        }
        &&& r matches Ok(p) ==> after.position == p
        &&& r is Err ==> after.position == self.position
        &&& after.content == self.content
    }

    fn seek(&mut self, pos: SeekFrom) -> (r: VfsResult<usize>) {
        match seek_position(pos, self.position, self.content.len()) {
            Ok(p) => {
                self.position = p;
                Ok(p)
            },
            Err(e) => Err(e),
        }
    }

    /// Whether asking for what is known of the file may give `r`.
    open spec fn describes(&self, r: VfsResult<Metadata>) -> bool {
        &&& r == Ok::<Metadata, VfsError>(
            Metadata { file_type: FileType::File, size: self.content@.len() as usize },
        )
    }

    fn metadata(&self) -> (r: VfsResult<Metadata>) {
        Ok(Metadata { file_type: FileType::File, size: self.content.len() })
    }
}

} // verus!
