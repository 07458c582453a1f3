//! Failures of the small validated value objects.

use vstd::prelude::*;

verus! {

/// Why a value object could not be constructed.
#[derive(Debug, Clone, PartialEq, Eq)]
pub enum Error {
    /// The identifier was empty; carries the offending value.
    InvalidId(String),
    /// The timestamps were not in order.
    InvalidTimestamps,
    /// The version was below one; carries the offending value.
    InvalidVersion(i64),
}

} // verus!
