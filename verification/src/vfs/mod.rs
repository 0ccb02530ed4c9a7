//! Virtual filesystem layer and the drivers mounted into it.

pub mod block;
pub mod types;
pub mod path;
pub mod fd;
pub mod tmpfs;
pub mod nested;
pub mod handle;
pub mod tasksfs;
pub mod memfs;
pub mod mount;
pub mod fat32;
