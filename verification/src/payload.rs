//! Payloads: opaque structured data, held as canonical JSON text.

use crate::error::Error;
use vstd::prelude::*;

verus! {

/// The canonical text of the JSON value that `text` holds: what
/// `serde_json` writes for the value that it reads from `text`. `None`
/// where `text` is not one JSON value.
pub uninterp spec fn json_canonical(text: Seq<char>) -> Option<Seq<char>>;

/// Calls `serde_json::from_str` for a `serde_json::Value` and writes the
/// value back as text. Trusted: what comes back depends on the text alone.
#[verifier::external_body]
pub(crate) fn canonical_json(text: &str) -> (r: Option<String>)
    ensures
        r matches Some(canonical) ==> json_canonical(text@) == Some(canonical@),
        r is None ==> json_canonical(text@) is None,
{
    match serde_json::from_str::<serde_json::Value>(text) {
        Ok(value) => Some(value.to_string()),
        Err(_) => None,
    }
}

/// Reads the body of a request as a payload. `MalformedInput` where the
/// body is not JSON.
pub fn parse_payload(body: &str) -> (r: Result<String, Error>)
    ensures
        match r {
            Ok(data) => json_canonical(body@) == Some(data@),
            Err(e) => e == Error::MalformedInput && json_canonical(body@) is None,
        },
{
    match canonical_json(body) {
        Some(data) => Ok(data),
        None => Err(Error::MalformedInput),
    }
}

} // verus!
