//! A log-structured key-value store: append-only segments of tagged
//! records, an in-memory index from key to record location, and
//! threshold-triggered compaction that rewrites only live records.

pub mod command;
pub mod laws;
pub mod model;
pub mod paths;
pub mod store;
