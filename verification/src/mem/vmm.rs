//! Virtual memory: address arithmetic and the flags of page-table
//! entries. Walking and changing page tables is left to the kernel's
//! hardware layer.

use vstd::prelude::*;
use crate::mem::pmm::{bit_set, BitmapAllocator};

verus! {

/// Whether a virtual address is canonical: bits 47 to 63 are all equal.
pub open spec fn is_canonical(addr: u64) -> bool {
    addr < 0x0000_8000_0000_0000 || addr >= 0xFFFF_8000_0000_0000
}

/// Whether a physical address is one the page tables can hold: below 2^52.
pub open spec fn is_physical(addr: u64) -> bool {
    addr < 0x10_0000_0000_0000
}

/// Calls `x86_64::VirtAddr::try_new`, which accepts exactly the addresses
/// whose bits 48 to 63 repeat bit 47.
#[verifier::external_body]
pub(crate) fn canonical(addr: u64) -> (r: bool)
    ensures
        r == is_canonical(addr),
{
    x86_64::VirtAddr::try_new(addr).is_ok()
}

/// Calls `x86_64::PhysAddr::try_new`, which accepts exactly the addresses
/// whose bits 52 to 63 are zero.
#[verifier::external_body]
pub(crate) fn physical(addr: u64) -> (r: bool)
    ensures
        r == is_physical(addr),
{
    x86_64::PhysAddr::try_new(addr).is_ok()
}

/// The bits of `x86_64`'s `PageTableFlags::PRESENT`: bit 0.
#[verifier::external_body]
pub(crate) fn present_bits() -> (r: u64)
    ensures
        r == 1,
{
    x86_64::structures::paging::PageTableFlags::PRESENT.bits()
}

/// The bits of `x86_64`'s `PageTableFlags::WRITABLE`: bit 1.
#[verifier::external_body]
pub(crate) fn writable_bits() -> (r: u64)
    ensures
        r == 2,
{
    x86_64::structures::paging::PageTableFlags::WRITABLE.bits()
}

/// The bits of `x86_64`'s `PageTableFlags::USER_ACCESSIBLE`: bit 2.
#[verifier::external_body]
pub(crate) fn user_bits() -> (r: u64)
    ensures
        r == 4,
{
    x86_64::structures::paging::PageTableFlags::USER_ACCESSIBLE.bits()
}

/// The bits of `x86_64`'s `PageTableFlags::NO_EXECUTE`: bit 63.
#[verifier::external_body]
pub(crate) fn no_execute_bits() -> (r: u64)
    ensures
        r == 0x8000_0000_0000_0000,
{
    x86_64::structures::paging::PageTableFlags::NO_EXECUTE.bits()
}

/// The flags of a page of a user program: present, writable and open to
/// user mode, and not executable unless the page holds code.
pub open spec fn user_flags(executable: bool) -> u64 {
    if executable {
        7
    } else {
        0x8000_0000_0000_0007
    }
}

/// The flags of a page of a user program.
pub fn user_page_flags(executable: bool) -> (r: u64)
    ensures
        r == user_flags(executable),
{
    let base: u64 = present_bits() + writable_bits() + user_bits();
    if executable {
        base
    } else {
        base + no_execute_bits()
    }
}

/// The flags of a page of the kernel heap: present, writable, not executable.
pub fn heap_page_flags() -> (r: u64)
    ensures
        r == 0x8000_0000_0000_0003,
{
    present_bits() + writable_bits() + no_execute_bits()
}

/// The virtual address at which the physical address `phys` is seen
/// through the direct map that begins at `hhdm`, when that address exists
/// and is canonical.
pub fn phys_to_virt(phys: u64, hhdm: u64) -> (r: Option<u64>)
    ensures
        r == if phys + hhdm <= u64::MAX && is_canonical((phys + hhdm) as u64) {
            Some((phys + hhdm) as u64)
        } else {
            None
        },
{
    match phys.checked_add(hhdm) {
        Some(v) => if canonical(v) {
            Some(v)
        } else {
            None
        },
        None => None,
    }
}

/// The physical address behind a virtual address of the direct map. An
/// address below the direct map has none that can be computed.
pub fn direct_phys(virt: u64, hhdm: u64) -> (r: Option<u64>)
    ensures
        r == if virt >= hhdm {
            Some((virt - hhdm) as u64)
        } else {
            None
        },
{
    if virt >= hhdm {
        Some(virt - hhdm)
    } else {
        None
    }
}

/// A piece of a range of virtual memory that lies inside one page.
#[derive(Debug, Clone, Copy, PartialEq, Eq, Structural)]
pub struct Chunk {
    /// Virtual address of the first byte of the piece.
    pub virt: u64,
    /// Offset of that byte in its page.
    pub page_offset: usize,
    /// Number of bytes of the piece.
    pub len: usize,
}

/// The piece that begins `offset` bytes into a range of `len` bytes at
/// `virt`: it ends where its page or the range ends.
pub open spec fn chunk_spec(virt: u64, offset: usize, len: usize) -> Chunk {
    let at = (virt + offset) as u64;
    let page_offset = (at % 4096) as usize;
    Chunk {
        virt: at,
        page_offset,
        len: if 4096 - page_offset < len - offset {
            (4096 - page_offset) as usize
        } else {
            (len - offset) as usize
        },
    }
}

/// Computes the piece that begins `offset` bytes into a range of `len`
/// bytes at `virt`. There is none when its address does not exist or is
/// not canonical.
pub fn chunk_at(virt: u64, offset: usize, len: usize) -> (r: Option<Chunk>)
    requires
        offset < len,
    ensures
        r == if virt + offset <= u64::MAX && is_canonical((virt + offset) as u64) {
            Some(chunk_spec(virt, offset, len))
        } else {
            None
        },
        r matches Some(c) ==> 0 < c.len <= len - offset && c.page_offset + c.len <= 4096,
{
    if offset as u64 > u64::MAX - virt {
        return None;
    }
    let at: u64 = virt + offset as u64;
    if !canonical(at) {
        return None;
    }
    let page_offset: usize = (at % 4096) as usize;
    let room: usize = 4096 - page_offset;
    let left: usize = len - offset;
    Some(Chunk { virt: at, page_offset, len: if room < left {
        room
    } else {
        left
    } })
}

/// Hands out page frames of the physical allocator to the page tables.
pub struct PmmFrameAllocator;

/// Whether `page` is the free frame with the lowest number among the
/// first `total` frames of `bitmap`.
pub open spec fn lowest_free(bitmap: Seq<u8>, total: int, page: int) -> bool {
    &&& 0 <= page < total
    &&& !bit_set(bitmap, page)
    &&& forall|j: int| 0 <= j < page ==> bit_set(bitmap, j)
}

/// Whether taking a frame for a page table from the allocator `before`
/// may give `r` and leave the allocator as `after`. The free frame with
/// the lowest number is taken; when the page tables cannot hold its
/// address it is given back, and then, as when no frame is free, there
/// is none.
pub open spec fn frame_taken(before: BitmapAllocator, r: Option<u64>, after: BitmapAllocator) -> bool {
    let total = before.total_pages as int;
    &&& after.total_pages == before.total_pages
    &&& if forall|j: int| 0 <= j < total ==> bit_set(before.bitmap@, j) {
        &&& r is None
        &&& after.free_pages == before.free_pages
        &&& forall|j: int| 0 <= j < total ==> bit_set(after.bitmap@, j)
    } else {
        exists|page: int| #[trigger]
            lowest_free(before.bitmap@, total, page) && if page * 4096 < 0x10_0000_0000_0000 {
                &&& r == Some((page * 4096) as u64)
                &&& after.free_pages == before.free_pages - 1
                &&& forall|j: int|
                    0 <= j < total ==> bit_set(after.bitmap@, j) == (j == page || bit_set(
                        before.bitmap@,
                        j,
                    ))
            } else {
                &&& r is None
                &&& after.free_pages == before.free_pages
                &&& forall|j: int|
                    0 <= j < total ==> bit_set(after.bitmap@, j) == bit_set(before.bitmap@, j)
            }
    }
}

impl PmmFrameAllocator {
    /// Takes a frame for a page table. A frame whose address the page
    /// tables cannot hold is given back, and then there is none.
    pub fn allocate_frame(&mut self, pmm: &mut Option<BitmapAllocator>) -> (r: Option<u64>)
        requires
            (*old(pmm)) matches Some(a) ==> a.wf(),
        ensures
            (*final(pmm)) matches Some(a) ==> a.wf(),
            r matches Some(addr) ==> addr as int % 4096 == 0 && is_physical(addr),
            match *old(pmm) {
                None => r is None && (*final(pmm)) is None,
                Some(before) => (*final(pmm)) matches Some(after) && frame_taken(before, r, after),
            },
    {
        let allocator = match pmm {
            Some(a) => a,
            None => {
                return None;
            },
        };
        let ghost before = *allocator;
        let addr = match allocator.alloc_page() {
            Some(a) => a,
            None => {
                return None;
            },
        };
        let ghost page = addr as int / 4096;
        let ghost taken = *allocator;
        proof {
            assert(lowest_free(before.bitmap@, before.total_pages as int, page));
            assert(page * 4096 == addr);
        }
        if physical(addr) {
            Some(addr)
        } else {
            allocator.free_page(addr);
            proof {
                assert(bit_set(taken.bitmap@, page));
            }
            None
        }
    }
}

/// An address space: the physical address of its top-level page table.
#[derive(Debug, Clone, Copy, PartialEq, Eq, Structural)]
pub struct AddressSpace {
    pub pml4_phys: u64,
}

/// First entry of a top-level table that belongs to the kernel; the
/// entries from here to the end are shared by every address space.
pub const KERNEL_HALF_START: usize = 256;

/// Number of entries of a page table.
pub const TABLE_ENTRIES: usize = 512;

impl AddressSpace {
    /// The address space whose top-level table lies in the frame at
    /// `pml4_phys`.
    pub fn new(pml4_phys: u64) -> (r: Self)
        ensures
            r.pml4_phys == pml4_phys,
    {
        Self { pml4_phys }
    }

    /// The value to load into CR3 to switch to the address space.
    pub fn cr3_value(&self) -> (r: u64)
        ensures
            r == self.pml4_phys,
    {
        self.pml4_phys
    }

    /// Whether entry `index` of a top-level table is shared with the kernel.
    pub fn is_shared_entry(index: usize) -> (r: bool)
        ensures
            r == (256 <= index < 512),
    {
        index >= KERNEL_HALF_START && index < TABLE_ENTRIES
    }
}

} // verus!
