//! The error type shared by every operation of the store.

use vstd::prelude::*;

verus! {

/// Error type for kvs.
#[derive(Debug)]
pub enum KvsError {
    /// A read, write, seek or create on the data file failed.
    Io(std::io::Error),
    /// A record could not be serialized, or the log holds bytes that are not
    /// a record.
    Serde(serde_json::Error),
    /// The key to remove has no live value.
    KeyNotFound,
    /// The index and the log disagree.
    UnexpectedError(String),
}

} // verus!
