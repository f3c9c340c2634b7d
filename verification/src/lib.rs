//! vektordb: a small vector database engine.
//!
//! Vector components and distances are IEEE 754 single-precision values. The
//! engine never does arithmetic on them; it stores, compares and moves them,
//! so every one of them is held as its bit pattern, a `u32`. Whatever has to
//! be computed in floating point (a distance kernel, a cluster mean) is handed
//! in by the caller as a closure.

pub mod bytes;
pub mod checksum;
pub mod db;
pub mod distance;
pub mod doubling;
pub mod error;
pub mod float32;
pub mod frontend;
pub mod hnsw;
pub mod io;
pub mod oracle;
pub mod pq;
pub mod random;
pub mod storage;
pub mod wal;

pub use db::{Db, DbOptions};
pub use error::Error;
