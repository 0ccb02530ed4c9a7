//! The side of the system-call interface that user programs see.

pub mod syscalls;
pub mod input;
