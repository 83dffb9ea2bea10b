//! A function-result cache with an in-process backend and a cross-process
//! backend that shares one memory-mapped region between processes.

pub mod codec;
pub mod entry;
pub mod key;
pub mod shared_store;
pub mod shm;
pub mod store;
pub mod strategies;
pub mod text;
