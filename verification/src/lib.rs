//! A teaching-sized "log is the database" storage engine.
//!
//! The write-ahead log is the authoritative state: pages are never stored,
//! they are computed on demand by replaying the redo records that target
//! them.  The library holds the log as bytes in memory and is verified;
//! reading and writing those bytes on disk is the host's concern.

pub mod buffer_pool;
pub mod codec;
pub mod common;
pub mod compute;
pub mod config;
pub mod crc;
pub mod engine;
pub mod materialize;
pub mod metrics;
pub mod page_cache;
pub mod reader;
pub mod recovery;
pub mod scenario;
pub mod segment;
pub mod transaction;
pub mod writer;
