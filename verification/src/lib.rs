//! An embedded, single-writer key-value store organised as a log-structured
//! merge tree: records, an ordered in-memory table, a write-ahead log, sorted
//! string tables and the engine that ties them together.

pub mod cli;
pub mod db;
pub mod storage;
pub mod store;
