//! A small LSM-style key-value store: an ordered write buffer, a
//! write-ahead log, immutable sorted tables with a manifest, and a
//! RESP-like wire codec.

pub mod client;
pub mod database;
pub mod database_log;
pub mod error;
pub mod merge;
pub mod message;
pub mod manifest_manager;
pub mod mem_database;
pub mod reply;
pub mod request;
pub mod server;
pub mod skipmap;
pub mod sstable;
pub mod slice;

pub use slice::Slice;
