//! The storage layer: record encoding, the in-memory table, the write-ahead
//! log format and the sorted string table file format.

pub mod block;
pub mod clock;
pub mod index;
pub mod memtable;
pub mod names;
pub mod order;
pub mod record;
pub mod run;
pub mod sstable;
pub mod wal;
