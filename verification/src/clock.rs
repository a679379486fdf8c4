//! Wall-clock access for latency bookkeeping.

use vstd::prelude::*;

verus! {

/// Relies on std::time::SystemTime::now and duration_since: milliseconds
/// since the UNIX epoch. The value depends on the wall clock, so nothing is
/// promised of it; callers state what holds whatever value comes back.
#[verifier::external_body]
pub(crate) fn now_millis() -> u64 {
    std::time::SystemTime::now().duration_since(std::time::UNIX_EPOCH).map(
        |d| d.as_millis() as u64,
    ).unwrap_or(0)
}

} // verus!
