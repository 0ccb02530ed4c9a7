//! The processor-facing parts of the kernel, as far as they decide.

pub mod syscall;
pub mod files;

use vstd::prelude::*;
use crate::cpu::syscall::Kernel;
use crate::vfs::block::BlockDevice;

verus! {

/// Vector of the timer interrupt.
pub const TIMER_VECTOR: u8 = 32;

/// Vector of the keyboard interrupt.
pub const KEYBOARD_VECTOR: u8 = 33;

/// Vector of spurious interrupts.
pub const SPURIOUS_VECTOR: u8 = 255;

/// The number of timer ticks since boot.
pub fn ticks<D: BlockDevice>(kernel: &Kernel<D>) -> (r: u64)
    ensures
        r == kernel.ticks,
{
    kernel.ticks()
}

} // verus!
