//! An LSM key-value engine: write-ahead log, memtables, sorted tables on disk,
//! and multi-version transactions.
//!
//! Everything that decides or computes is here; reading and writing files,
//! locking and scheduling belong to the program around the library.

pub mod common;
pub mod memtable;
pub mod sstable;
pub mod wal;
pub mod storage;
pub mod transaction;
pub mod engine;
pub mod collection;
