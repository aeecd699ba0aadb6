//! An embedded, document-oriented database engine.
//!
//! Documents are opaque byte payloads organized into named collections
//! within named databases. Secondary indexes (views) are maintained by
//! map/reduce schemas, mutations are serialized through atomic
//! multi-operation transactions with a monotonically increasing
//! transaction log, and background work (view mapping, integrity
//! scanning, compaction) runs as keyed, coalescing jobs.

pub mod admin;
pub mod compactor;
pub mod connection;
pub mod document;
pub mod error;
pub mod key;
pub mod names;
pub mod schema;
pub mod storage;
pub mod store;
pub mod tasks;
pub mod transaction;
pub mod view;

pub use error::Error;
