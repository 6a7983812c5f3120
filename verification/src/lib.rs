//! A persistent, log-structured key-value store.
//!
//! Every mutation is appended to a command log as a self-delimiting JSON
//! record; an ordered index maps each live key to the byte offset of its most
//! recent `Set` record, and compaction rewrites the log so that it holds the
//! live records only. The store works on an in-memory image of the log, which
//! the embedding program reads from and writes back to its data file.

pub mod error;
pub mod outside;
pub mod json;
pub mod record;
pub mod order;
pub mod index;
pub mod log;
pub mod replay;
pub mod writer;
pub mod compaction;
pub mod store;
pub mod laws;

pub use error::KvsError;
pub use store::KvStore;
