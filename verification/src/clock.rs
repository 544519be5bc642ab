//! The current time, as the manifest records it.
use vstd::prelude::*;

verus! {

/// Calls `chrono::Utc::now()` and `DateTime::to_rfc3339`: the current UTC
/// time as an RFC 3339 text. Nothing is stated of the result: it depends on
/// the clock.
#[verifier::external_body]
pub(crate) fn now_string() -> (r: String) {
    chrono::Utc::now().to_rfc3339()
}

} // verus!
