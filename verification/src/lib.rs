//! A single-node key-value storage engine on the log-structured merge
//! pattern, with its behaviour stated in contracts and proved.
//!
//! Keys and values are opaque byte strings. A write is appended to a
//! write-ahead log and set in an ordered in-memory table; when that table
//! grows past a threshold it is flushed into an immutable sorted table with
//! a Bloom filter beside it, and the log is truncated. A read consults the
//! in-memory table and then the tables, newest first, skipping those whose
//! filter rules the key out. Opening a data directory replays the log and
//! loads or rebuilds the filters, so that whatever was written is found
//! again after a stop.
//!
//! The library works on byte images of the files and does no input or
//! output itself: a host reads the data directory into values for
//! [`engine::LSMTree::new`] and writes back what the engine produces.
//!
//! - [`bytes`]: little-endian fields, copying, and the order of keys.
//! - [`record`]: the length-prefixed framing of keys and values.
//! - [`bloom_filter`]: the Bloom filter and its serialized form.
//! - [`wal`]: the format of the log, appending and recovery.
//! - [`sstable`]: the format of the sorted tables, writing and reading.
//! - [`memtable`]: the ordered in-memory table with its byte count.
//! - [`names`]: the names of the files in a data directory.
//! - [`model`]: the state of the engine and its operations, as mathematics.
//! - [`laws`]: what holds of the engine as a whole.
//! - [`engine`]: the engine itself.

pub mod bloom_filter;
pub mod bytes;
pub mod engine;
pub mod laws;
pub mod memtable;
pub mod model;
pub mod names;
pub mod record;
pub mod sstable;
pub mod wal;
