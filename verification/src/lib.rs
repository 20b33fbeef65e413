//! FluxDB: a key-value store for player records.
pub mod index;
pub mod proto;
pub mod server;
pub mod storage;
pub mod table;
pub mod text;
pub mod tools;
pub mod types;
pub mod wire;
