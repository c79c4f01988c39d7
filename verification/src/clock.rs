//! The wall clock, provided by the chrono library.

use vstd::prelude::*;

verus! {

/// The current Unix timestamp in seconds.
///
/// Relies on `chrono::Utc::now`: the result depends on the wall clock, so
/// nothing is promised about the value.
#[verifier::external_body]
pub fn now_timestamp() -> i64 {
    chrono::Utc::now().timestamp()
}

} // verus!
