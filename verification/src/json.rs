//! JSON string literals, written and read by `serde_json`.
//!
//! The two functions of this file are the library's only calls into `serde_json`. Their
//! contracts are believed, not proved. Each says no more than that the outcome depends on the
//! argument alone, and gives that dependence a name. Nothing is assumed of what a JSON string
//! literal looks like: the codec checks every text that comes back before it puts it into a
//! record.

use vstd::prelude::*;

verus! {

/// The error of `serde_json`, which the library never looks into.
#[verifier::external_type_specification]
#[verifier::external_body]
pub struct ExJsonError(serde_json::Error);

/// The JSON text that `serde_json::to_vec` writes for a string, or `None` where it fails.
pub uninterp spec fn json_text(s: Seq<char>) -> Option<Seq<u8>>;

/// The string that `serde_json::from_slice` reads from a JSON text, or `None` where it fails.
pub uninterp spec fn json_string(text: Seq<u8>) -> Option<Seq<char>>;

/// Calls `serde_json::to_vec` on a string slice.
///
/// Believed of it: whether it fails, and the text it returns, depend on the string alone.
#[verifier::external_body]
pub(crate) fn to_json(s: &str) -> (r: Result<Vec<u8>, serde_json::Error>)
    ensures
        match r {
            Ok(text) => json_text(s@) == Some(text@),
            Err(_) => json_text(s@) is None,
        },
{
    serde_json::to_vec(s)
}

/// Calls `serde_json::from_slice` to read a `String`.
///
/// Believed of it: whether it fails, and the string it returns, depend on the bytes alone.
#[verifier::external_body]
pub(crate) fn from_json(text: &[u8]) -> (r: Result<String, serde_json::Error>)
    ensures
        match r {
            Ok(s) => json_string(text@) == Some(s@),
            Err(_) => json_string(text@) is None,
        },
{
    serde_json::from_slice::<String>(text)
}

} // verus!
