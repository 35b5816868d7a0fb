//! A log-structured key-value storage engine: an append-only log of
//! length-prefixed records paired with an in-memory index from each live key
//! to the location of its most recent value. The index is always the result
//! of a full forward replay of the log, deletion is a tombstone record,
//! and compaction rewrites only the live records. A `bubble_sort` utility
//! kept from the surrounding collection lives in its own module.

pub mod engine;
pub mod errors;
pub mod format;
pub mod keydir;
pub mod laws;
pub mod log;
pub mod sort;
