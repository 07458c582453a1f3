//! Failures of cache implementations.

use vstd::prelude::*;

verus! {

/// Why a cache operation failed.
#[derive(Debug, Clone, Copy, PartialEq, Eq, Structural)]
pub enum Error {
    Internal,
}

} // verus!
