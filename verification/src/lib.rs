//! The core of a storage engine built on a log-structured merge tree.
//!
//! The crate holds the engine's logic: the sorted in-memory table, the
//! write-ahead log format, the on-disk table format with its Bloom filter,
//! the leveled compaction policy and merge, and the engine that ties them
//! together. It performs no I/O itself: every function works on byte strings
//! and plain values, and the caller moves those bytes to and from files.
use vstd::prelude::*;

pub mod bloom;
pub mod bytes;
pub mod entries;
pub mod error;
pub mod memtable;
pub mod naming;
pub mod sstable;
pub mod storage;
pub mod wal;

verus! {

/// A key: an opaque byte string, ordered lexicographically by unsigned bytes.
pub type Key = Vec<u8>;

/// A value: an opaque byte string.
pub type Value = Vec<u8>;

} // verus!
