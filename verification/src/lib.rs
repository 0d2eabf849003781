//! A log-structured merge-tree storage engine.
//!
//! Writes go to a log and to a sorted buffer in memory; full buffers become immutable table
//! files; tables are merged in the background. This crate holds everything that the engine
//! decides and computes. Reading and writing files is up to its caller.
pub mod codec;
pub mod compaction;
pub mod crc;
pub mod engine;
pub mod entry;
pub mod error;
pub mod filter;
pub mod guarantees;
pub mod heap;
pub mod history;
pub mod iterator;
pub mod key;
pub mod memtable;
pub mod naming;
pub mod sstable;
pub mod text;
pub mod wal;
pub mod weight;

pub use engine::{LsmEngine, DEFAULT_BLOCK_CACHE_CAPACITY, DEFAULT_MAX_MEMTABLE_SIZE};
pub use iterator::MergeIterator;
