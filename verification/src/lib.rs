//! Core logic of a small x86-64 kernel: physical memory bookkeeping, task
//! scheduling decisions, system-call dispatch, a virtual filesystem with
//! several drivers, a FAT32 implementation over a sector device, and a
//! terminal on a framebuffer.
//!
//! Global state is modelled as explicit values that callers own and pass in.

pub mod bytes;
pub mod cpu;
pub mod drivers;
pub mod elf;
pub mod fb;
pub mod mem;
pub mod sched;
pub mod text;
pub mod user;
pub mod vfs;
