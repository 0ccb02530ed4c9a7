//! The kernel heap: a fixed window of virtual memory.

use vstd::prelude::*;

verus! {

/// First address of the heap window.
pub const HEAP_START: u64 = 0xFFFF_8080_0000_0000;

/// Size of the heap window in bytes.
pub const HEAP_SIZE: usize = 1024 * 1024;

/// Size of the heap in KiB.
pub fn size() -> (r: usize)
    ensures
        r == 1024,
{
    HEAP_SIZE / 1024
}

/// Number of pages of the heap window.
pub fn page_count() -> (r: usize)
    ensures
        r == 256,
{
    (HEAP_SIZE + 4095) / 4096
}

/// The address of page number `index` of the heap window.
pub fn page_address(index: usize) -> (r: u64)
    requires
        index < 256,
    ensures
        r == HEAP_START + index * 4096,
{
    HEAP_START + (index as u64) * 4096
}

} // verus!
