//! The log-structured store: write-ahead log, memory tables, sorted tables on disk.
pub mod bloom_filter;
pub mod cache;
pub mod compaction;
pub mod documents;
pub mod engine;
pub mod history;
pub mod iterator;
pub mod laws;
pub mod levels;
pub mod memtable;
pub mod order;
pub mod restart;
pub mod sstable;
pub mod upkeep;
pub mod wal;
