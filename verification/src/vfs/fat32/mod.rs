//! FAT32 on a sector device: boot sector, allocation table, cluster chains,
//! directories with short and long names, and the file operations on top.

pub mod bpb;
pub mod name;
pub mod entry;
pub mod lfn;
pub mod table;
pub mod cluster;
pub mod chain;
pub mod write;
pub mod dir;
pub mod listing;
pub mod added;
pub mod ops;
pub mod fs;
