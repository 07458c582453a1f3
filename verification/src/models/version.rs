use vstd::prelude::*;

verus! {

/// Failure of `Version` construction: the supplied number was below one.
#[derive(Debug, Clone, Copy, PartialEq, Eq, Structural)]
pub enum VersionError {
    Invalid,
}

/// A monotonic version counter. A version is at least one, and carries a
/// flag recording whether it has already been advanced during the current
/// unit of work, so that repeated increments within one update collapse
/// into a single step.
#[derive(Debug, Clone, Copy, PartialEq, Eq, Structural)]
pub struct Version {
    version: i64,
    updated: bool,
}

impl Version {
    /// The counter value; always at least one.
    pub closed spec fn spec_value(self) -> i64 {
        self.version
    }

    /// Whether this version was already advanced in the current unit of work.
    pub closed spec fn spec_updated(self) -> bool {
        self.updated
    }

    /// Every version that can be constructed satisfies this.
    pub closed spec fn wf(self) -> bool {
        self.version >= 1
    }

    /// Validates `version` and wraps it, not yet advanced.
    pub fn new(version: i64) -> (r: Result<Version, VersionError>)
        ensures
            version >= 1 <==> r is Ok,
            r matches Ok(v) ==> v.spec_value() == version && !v.spec_updated() && v.wf(),
            r matches Err(e) ==> e == VersionError::Invalid,
    {
        if version < 1 {
            return Err(VersionError::Invalid);
        }
        Ok(Version { version, updated: false })
    }

    /// The version a freshly created record carries: one, already advanced.
    pub fn init_version() -> (r: Version)
        ensures
            r.spec_value() == 1 && r.spec_updated() && r.wf(),
    {
        Version { version: 1, updated: true }
    }

    pub fn value(&self) -> (r: i64)
        ensures
            r == self.spec_value(),
    {
        self.version
    }

    /// Advances the counter by one, unless it was already advanced in this
    /// unit of work, in which case the version is returned unchanged.
    pub fn incr(&self) -> (r: Version)
        requires
            self.spec_value() < i64::MAX,
        ensures
            self.spec_updated() ==> r == *self,
            !self.spec_updated() ==> r.spec_value() == self.spec_value() + 1 && r.spec_updated(),
            self.wf() ==> r.wf(),
    {
        if self.updated {
            return self.clone();
        }
        Version { version: self.version + 1, updated: true }
    }
}

} // verus!
