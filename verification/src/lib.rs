//! An append-only record log with length-prefixed frame ingestion and an
//! incremental, corruption-tolerant stream decoder.
//!
//! Messages enter as frames (a 4-byte little-endian length prefix followed by
//! the payload). Each message is persisted as one self-delimiting binary
//! record, appended to a log file with no separators. A reader tracks a
//! cursor into the growing log, pulls newly appended bytes into a buffer,
//! and drains as many complete records as are available, skipping forward
//! one byte at a time to resynchronize after corruption.

pub mod codec;
pub mod decode;
pub mod encode;
pub mod frame;
pub mod ingest;
pub mod roundtrip;
pub mod stream;
pub mod value;
