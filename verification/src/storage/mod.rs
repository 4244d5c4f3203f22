//! Storage backends: in memory, append-only file and disk.

pub mod memory;
pub mod aof;
pub mod disk;
pub mod backend;
pub mod key_sort;
