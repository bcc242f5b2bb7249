//! Wall-clock timestamps.
use vstd::prelude::*;

verus! {

/// Calls `chrono::Utc::now` and renders it with `to_rfc3339`.  The result
/// depends on the time of the call, so nothing is stated of it.
#[verifier::external_body]
pub(crate) fn now_rfc3339() -> String {
    chrono::Utc::now().to_rfc3339()
}

} // verus!
