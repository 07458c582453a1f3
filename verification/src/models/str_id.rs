//! A non-empty string identifier, generated fresh or derived from text.

use vstd::prelude::*;

use crate::models::errors::Error;

verus! {

/// What `slug::slugify` returns for a given character sequence: a function
/// of the characters alone.
pub uninterp spec fn slug_of(s: Seq<char>) -> Seq<char>;

/// Relies on `slug::slugify`: the slug form of `s`, a function of the
/// characters alone.
#[verifier::external_body]
fn slugify_str(s: &str) -> (r: String)
    ensures
        r@ == slug_of(s@),
{
    slug::slugify(s)
}

/// Relies on `uuid::Uuid::new_v4` and its display form: a fresh random
/// UUID in the 36-character hyphenated form. Like allocation, the call can
/// fail only environmentally (an operating-system source of randomness
/// that cannot be read).
#[verifier::external_body]
pub(crate) fn uuid_v4_string() -> (r: String)
    ensures
        r@.len() == 36,
{
    uuid::Uuid::new_v4().to_string()
}

/// A validated, non-empty string identifier.
#[derive(Debug, Clone, PartialEq)]
pub struct StrId {
    id: String,
}

impl StrId {
    pub closed spec fn spec_value(&self) -> Seq<char> {
        self.id@
    }

    /// Wraps `id`; succeeds exactly when `id` is non-empty, and otherwise
    /// reports the offending value.
    pub fn new(id: String) -> (r: Result<StrId, Error>)
        ensures
            r is Ok <==> id@.len() > 0,
            r matches Ok(s) ==> s.spec_value() == id@,
            r matches Err(e) ==> e matches Error::InvalidId(bad) && bad@ == id@,
    {
        if id.as_str().is_empty() {
            return Err(Error::InvalidId(id));
        }
        Ok(StrId { id })
    }

    /// A fresh random identifier; a UUID is never empty, so this always
    /// succeeds.
    pub fn generate_uuid() -> (r: Result<StrId, Error>)
        ensures
            r is Ok,
            r matches Ok(s) ==> s.spec_value().len() == 36,
    {
        let uuid = uuid_v4_string();
        StrId::new(uuid)
    }

    /// The slug of `str` as an identifier; succeeds exactly when the slug
    /// comes out non-empty.
    pub fn generate_slug(s: String) -> (r: Result<StrId, Error>)
        ensures
            r is Ok <==> slug_of(s@).len() > 0,
            r matches Ok(v) ==> v.spec_value() == slug_of(s@),
    {
        StrId::new(slugify_str(s.as_str()))
    }

    pub fn value(&self) -> (r: &str)
        ensures
            r@ == self.spec_value(),
    {
        self.id.as_str()
    }

    /// The identifier as an owned string.
    pub fn to_string(&self) -> (r: String)
        ensures
            r@ == self.spec_value(),
    {
        self.id.clone()
    }
}

} // verus!
