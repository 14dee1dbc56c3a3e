//! A log-structured, embedded key-value store.
//!
//! All mutations are appended to a byte log as self-delimited records; an
//! in-memory index maps each live key to the byte span of its most recent
//! record. The index is rebuilt lazily by replaying the log, and a
//! compaction pass rewrites the log keeping only the latest record per
//! live key. The store itself operates on the log bytes; reading the log
//! from disk and persisting it again is the caller's concern.

pub mod codec;
pub mod error;
pub mod index;
pub mod kv;
pub mod replay;

pub use codec::Record;
pub use error::KvError;
pub use kv::KvStore;
