//! Memory management: page frames, address spaces and the kernel heap.

pub mod pmm;
pub mod vmm;
pub mod heap;
