//! A log-structured key-value store: records are appended to numbered log files, an
//! in-memory sharded index that grows itself maps each key to its latest record, and
//! compaction re-publishes the live records of old files before they are removed.
//! Side-car index files let the index be rebuilt at start-up.
pub mod error;
pub mod config;
pub mod http_param;
pub mod index;
pub mod store;
