//! The boundary to `serde_json`: JSON string literals are written and read by
//! it, and nothing here is proved of what it computes.
//!
//! The two results are functions of their arguments alone, so each gets a
//! name. No contract says what a name is on given bytes; the record codec
//! checks at run time that what was written reads back.

use vstd::prelude::*;
use crate::error::KvsError;

verus! {

/// The JSON text that `serde_json::to_vec` writes for a string, or `None`
/// where it reports an error.
pub uninterp spec fn json_text(s: Seq<char>) -> Option<Seq<u8>>;

/// The string that `serde_json::from_slice` reads from a JSON text, or `None`
/// where it reports an error.
pub uninterp spec fn json_value(text: Seq<u8>) -> Option<Seq<char>>;

/// Calls `serde_json::to_vec` on a string slice. The contract only names the
/// outcome: the bytes returned are `json_text` of the string, and an error
/// comes exactly where `json_text` is `None`.
#[verifier::external_body]
pub(crate) fn to_json_text(s: &str) -> (r: Result<Vec<u8>, serde_json::Error>)
    ensures
        match r {
            Ok(text) => json_text(s@) == Some(text@),
            Err(_) => json_text(s@) is None,
        },
{
    serde_json::to_vec(s)
}

/// Calls `serde_json::from_slice` to read one JSON string that spans the
/// whole of `text`. The contract only names the outcome: the string returned
/// is `json_value` of the bytes, and an error comes exactly where
/// `json_value` is `None`.
#[verifier::external_body]
pub(crate) fn from_json_text(text: &[u8]) -> (r: Result<String, serde_json::Error>)
    ensures
        match r {
            Ok(s) => json_value(text@) == Some(s@),
            Err(_) => json_value(text@) is None,
        },
{
    serde_json::from_slice::<String>(text)
}

/// Builds a `serde_json::Error` through `serde::de::Error::custom`, for bytes
/// that are not framed as a record. Nothing is claimed of the value.
#[verifier::external_body]
pub(crate) fn framing_error(offset: usize) -> serde_json::Error {
    serde::de::Error::custom(format!("malformed record at offset {}", offset))
}

/// The error for a stretch of the log that is not a record.
pub fn malformed(offset: usize) -> (e: KvsError)
    ensures
        e is Serde,
{
    KvsError::Serde(framing_error(offset))
}

} // verus!
