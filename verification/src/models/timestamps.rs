//! Creation, update and deletion instants of a record, in milliseconds
//! since the Unix epoch, validated to be in order at construction.

use vstd::prelude::*;

use crate::clock::now_millis;
use crate::models::errors::Error;

verus! {

/// When a record was created, last updated, and (if ever) deleted.
#[derive(Debug, Clone, Copy, PartialEq, Eq, Structural)]
pub struct Timestamps {
    created_at: i64,
    updated_at: i64,
    deleted_at: Option<i64>,
}

impl Timestamps {
    pub closed spec fn spec_created_at(&self) -> i64 {
        self.created_at
    }

    pub closed spec fn spec_updated_at(&self) -> i64 {
        self.updated_at
    }

    pub closed spec fn spec_deleted_at(&self) -> Option<i64> {
        self.deleted_at
    }

    /// The instants are ordered: no update before creation, no deletion
    /// before creation or the last update.
    pub open spec fn wf(&self) -> bool {
        self.spec_updated_at() >= self.spec_created_at() && (self.spec_deleted_at() matches Some(d)
            ==> d >= self.spec_created_at() && d >= self.spec_updated_at())
    }

    /// Validates the ordering and wraps the instants; succeeds exactly
    /// when they are in order.
    pub fn new(created_at: i64, updated_at: i64, deleted_at: Option<i64>) -> (r: Result<
        Timestamps,
        Error,
    >)
        ensures
            r is Ok <==> (updated_at >= created_at && (deleted_at matches Some(d) ==> d
                >= created_at && d >= updated_at)),
            r matches Ok(t) ==> t.spec_created_at() == created_at && t.spec_updated_at()
                == updated_at && t.spec_deleted_at() == deleted_at && t.wf(),
            r matches Err(e) ==> e == Error::InvalidTimestamps,
    {
        if updated_at < created_at {
            return Err(Error::InvalidTimestamps);
        }
        if let Some(d) = deleted_at {
            if d < created_at {
                return Err(Error::InvalidTimestamps);
            }
            if d < updated_at {
                return Err(Error::InvalidTimestamps);
            }
        }
        Ok(Timestamps { created_at, updated_at, deleted_at })
    }

    /// Fresh timestamps: created and updated at this very moment, not
    /// deleted.
    pub fn create() -> (r: Timestamps)
        ensures
            r.spec_created_at() == r.spec_updated_at(),
            r.spec_deleted_at() is None,
            r.wf(),
    {
        let now = now_millis();
        Timestamps { created_at: now, updated_at: now, deleted_at: None }
    }

    pub fn created_at(&self) -> (r: i64)
        ensures
            r == self.spec_created_at(),
    {
        self.created_at
    }

    pub fn updated_at(&self) -> (r: i64)
        ensures
            r == self.spec_updated_at(),
    {
        self.updated_at
    }

    /// A copy whose update instant is `at`; creation and deletion keep
    /// their values.
    pub fn with_updated_at(&self, at: i64) -> (r: Timestamps)
        ensures
            r.spec_created_at() == self.spec_created_at(),
            r.spec_updated_at() == at,
            r.spec_deleted_at() == self.spec_deleted_at(),
    {
        Timestamps { created_at: self.created_at, updated_at: at, deleted_at: self.deleted_at }
    }

    /// A copy updated at this very moment; the clock's value is not
    /// otherwise constrained.
    pub fn update(&self) -> (r: Timestamps)
        ensures
            r.spec_created_at() == self.spec_created_at(),
            r.spec_deleted_at() == self.spec_deleted_at(),
    {
        self.with_updated_at(now_millis())
    }

    pub fn deleted_at(&self) -> (r: Option<i64>)
        ensures
            r == self.spec_deleted_at(),
    {
        self.deleted_at
    }

    /// A copy whose deletion instant is `at`; the other instants keep
    /// their values.
    pub fn with_deleted_at(&self, at: i64) -> (r: Timestamps)
        ensures
            r.spec_created_at() == self.spec_created_at(),
            r.spec_updated_at() == self.spec_updated_at(),
            r.spec_deleted_at() == Some(at),
    {
        Timestamps {
            created_at: self.created_at,
            updated_at: self.updated_at,
            deleted_at: Some(at),
        }
    }

    /// A copy deleted at this very moment; the clock's value is not
    /// otherwise constrained.
    pub fn delete(&self) -> (r: Timestamps)
        ensures
            r.spec_created_at() == self.spec_created_at(),
            r.spec_updated_at() == self.spec_updated_at(),
            r.spec_deleted_at() is Some,
    {
        self.with_deleted_at(now_millis())
    }
}

} // verus!
