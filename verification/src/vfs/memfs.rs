//! A read-only filesystem with one file, its root, that reports how much
//! memory is in use.

use vstd::prelude::*;
use crate::text::{chars_of, digits_of, push_decimal, push_str, segments, split_segments};
use crate::vfs::handle::StaticFileHandle;
use crate::vfs::tasksfs::{narrow, narrow_chars};
use crate::vfs::types::{
    DirEntry, FileType, Filesystem, Metadata, OpenFlags, VfsError, VfsResult,
};

verus! {

/// The filesystem: the figures as they were when it was last refreshed.
pub struct MemFs {
    /// Number of page frames of the machine.
    pub total_pages: u64,
    /// Number of page frames that are free.
    pub free_pages: u64,
    /// Size of the kernel heap in KiB.
    pub heap_kb: u64,
}

/// The number of MiB that `pages` frames of 4 KiB make, rounded down.
pub open spec fn pages_mb(pages: u64) -> u64 {
    (pages / 256) as u64
}

/// The report: total, free and used memory in MiB, the heap in KiB, and
/// the free and total page counts.
pub open spec fn report_text(total_pages: u64, free_pages: u64, heap_kb: u64) -> Seq<char> {
    let total_mb = pages_mb(total_pages);
    let free_mb = pages_mb(free_pages);
    let used_mb = if total_mb >= free_mb {
        (total_mb - free_mb) as nat
    } else {
        0nat
    };
    "total:  "@.add(digits_of(total_mb as nat)).add(" MB\nfree:   "@).add(
        digits_of(free_mb as nat),
    ).add(" MB\nused:   "@).add(digits_of(used_mb)).add(" MB\nheap:   "@).add(
        digits_of(heap_kb as nat),
    ).add(" KB\npages:  "@).add(digits_of(free_pages as nat)).add(" free / "@).add(
        digits_of(total_pages as nat),
    ).add(" total\n"@)
}

impl MemFs {
    /// A filesystem that reports no memory yet.
    pub fn new() -> (r: Self)
        ensures
            r.total_pages == 0,
            r.free_pages == 0,
            r.heap_kb == 0,
    {
        Self { total_pages: 0, free_pages: 0, heap_kb: 0 }
    }

    /// Replaces the figures reported.
    pub fn set_figures(&mut self, total_pages: u64, free_pages: u64, heap_kb: u64)
        ensures
            final(self).total_pages == total_pages,
            final(self).free_pages == free_pages,
            final(self).heap_kb == heap_kb,
    {
        self.total_pages = total_pages;
        self.free_pages = free_pages;
        self.heap_kb = heap_kb;
    }

    /// Whether `path` has no name, which makes it the root.
    pub fn is_root(path: &str) -> (r: bool)
        ensures
            r == (segments(path@, '/').len() == 0),
    {
        let chars = chars_of(path);
        let parts = split_segments(chars.as_slice(), '/');
        assert(crate::text::texts(parts@).len() == parts@.len());
        parts.len() == 0
    }
}

impl Filesystem for MemFs {
    type Handle = StaticFileHandle;

    open spec fn wf(&self) -> bool {
        true
    }

    /// Whether opening `path` with `flags` may give `r` and leave the
    /// filesystem as `after`.
    open spec fn opens(
        &self,
        path: Seq<char>,
        flags: OpenFlags,
        r: VfsResult<StaticFileHandle>,
        after: &Self,
    ) -> bool {
        &&& *after == *self
        &&& segments(path, '/').len() > 0 ==> (r matches Err(e) && e == VfsError::NotFound)
        &&& segments(path, '/').len() == 0 ==> (r matches Ok(h) && h.position == 0 && h.content@
            == narrow(report_text(self.total_pages, self.free_pages, self.heap_kb)))
    }

    /// Whether creating the directory `path` may give `r` and leave the
    /// filesystem as `after`.
    open spec fn makes_dir(&self, path: Seq<char>, r: VfsResult<()>, after: &Self) -> bool {
        &&& r == Err::<(), VfsError>(VfsError::PermissionDenied)
        &&& *after == *self
    }

    /// Whether removing the file `path` may give `r` and leave the
    /// filesystem as `after`.
    open spec fn removes(&self, path: Seq<char>, r: VfsResult<()>, after: &Self) -> bool {
        &&& r == Err::<(), VfsError>(VfsError::PermissionDenied)
        &&& *after == *self
    }

    /// Whether removing the directory `path` may give `r` and leave the
    /// filesystem as `after`.
    open spec fn removes_dir(&self, path: Seq<char>, r: VfsResult<()>, after: &Self) -> bool {
        &&& r == Err::<(), VfsError>(VfsError::PermissionDenied)
        &&& *after == *self
    }

    /// Whether listing the directory `path` may give `r`.
    open spec fn lists(&self, path: Seq<char>, r: VfsResult<Vec<DirEntry>>) -> bool {
        &&& r matches Err(e) && e == (if segments(path, '/').len() == 0 {
            VfsError::NotADirectory
        } else {
            VfsError::NotFound
        })
    }

    /// Whether asking for what is known of `path` may give `r`.
    open spec fn describes(&self, path: Seq<char>, r: VfsResult<Metadata>) -> bool {
        &&& r == if segments(path, '/').len() == 0 {
            Ok::<Metadata, VfsError>(Metadata { file_type: FileType::File, size: 0 })
        } else {
            Err::<Metadata, VfsError>(VfsError::NotFound)
        }
    }

    /// Opens the report, which is the root; nothing else is found.
    fn open(&mut self, path: &str, flags: OpenFlags) -> (r: VfsResult<StaticFileHandle>) {
        if !Self::is_root(path) {
            return Err(VfsError::NotFound);
        }
        let total_mb: u64 = self.total_pages / 256;
        let free_mb: u64 = self.free_pages / 256;
        let used_mb: u64 = if total_mb >= free_mb {
            total_mb - free_mb
        } else {
            0
        };
        let mut text: Vec<char> = Vec::new();
        push_str(&mut text, "total:  ");
        push_decimal(total_mb, &mut text);
        push_str(&mut text, " MB\nfree:   ");
        push_decimal(free_mb, &mut text);
        push_str(&mut text, " MB\nused:   ");
        push_decimal(used_mb, &mut text);
        push_str(&mut text, " MB\nheap:   ");
        push_decimal(self.heap_kb, &mut text);
        push_str(&mut text, " KB\npages:  ");
        push_decimal(self.free_pages, &mut text);
        push_str(&mut text, " free / ");
        push_decimal(self.total_pages, &mut text);
        push_str(&mut text, " total\n");
        assert(text@ =~= report_text(self.total_pages, self.free_pages, self.heap_kb));
        Ok(StaticFileHandle::new(narrow_chars(text.as_slice())))
    }

    fn mkdir(&mut self, path: &str) -> (r: VfsResult<()>) {
        Err(VfsError::PermissionDenied)
    }

    fn remove(&mut self, path: &str) -> (r: VfsResult<()>) {
        Err(VfsError::PermissionDenied)
    }

    fn rmdir(&mut self, path: &str) -> (r: VfsResult<()>) {
        Err(VfsError::PermissionDenied)
    }

    /// Nothing can be listed: the root is a file, and nothing else exists.
    fn readdir(&self, path: &str) -> (r: VfsResult<Vec<DirEntry>>) {
        if Self::is_root(path) {
            Err(VfsError::NotADirectory)
        } else {
            Err(VfsError::NotFound)
        }
    }

    /// The root is a file of unknown size, given as 0.
    fn metadata(&self, path: &str) -> (r: VfsResult<Metadata>) {
        if Self::is_root(path) {
            Ok(Metadata { file_type: FileType::File, size: 0 })
        } else {
            Err(VfsError::NotFound)
        }
    }
}

} // verus!
