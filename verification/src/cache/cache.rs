//! A key/value cache abstraction. Implementations decide storage and
//! sharing; the library only fixes the contract's shape.

use vstd::prelude::*;

verus! {

/// Failure of a cache operation.
#[derive(Debug, Clone, Copy, PartialEq, Eq, Structural)]
pub enum CacheError {
    Internal,
}

/// Get, set and delete under caller-chosen key and value types.
pub trait Cache<K, V> {
    fn get(&self, k: &K) -> Result<Option<V>, CacheError>;

    fn set(&mut self, k: K, v: V) -> Result<(), CacheError>;

    fn delete(&mut self, k: &K) -> Result<(), CacheError>;
}

} // verus!
