//! Device drivers, as far as they decide and compute.

pub mod keyboard;
pub mod ata;
