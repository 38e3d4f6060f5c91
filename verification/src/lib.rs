//! A minimal log-structured key-value store.
//!
//! Values are appended to a single log file; an in-memory index maps each
//! key to the byte range of its most recent value. When the log grows past
//! a configured threshold, compaction rewrites only the live values into a
//! fresh log file and rebuilds the index against it.

pub mod db;
pub mod fs;
pub mod index;
