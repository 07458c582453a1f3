//! The one place the library reads the wall clock.

use vstd::prelude::*;

verus! {

/// Relies on `chrono::Utc::now`: the current wall-clock time in
/// milliseconds since the Unix epoch. Nothing is promised of the value;
/// like allocation, the call can fail only environmentally (a system
/// clock set before 1970).
#[verifier::external_body]
pub(crate) fn now_millis() -> i64 {
    chrono::Utc::now().timestamp_millis()
}

} // verus!
