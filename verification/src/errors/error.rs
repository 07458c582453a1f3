//! A generic error value: a stable machine-readable code, a human message,
//! an optional wrapped cause, and free-form diagnostic metadata.

use vstd::prelude::*;
use vstd::string::StringExecFns;

use crate::collections::metadata::Metadata;

verus! {

/// Supplies the stable code under which an error kind is reported.
pub trait Define {
    fn define(&self) -> &str;
}

/// One failure: its code, message, optional cause and metadata.
#[derive(Debug, PartialEq)]
pub struct Error {
    code: String,
    message: String,
    cause: Option<Box<Error>>,
    metadata: Metadata,
}

impl Clone for Error {
    /// A deep copy; as with any hand-rolled clone, nothing further is
    /// claimed of the copy.
    fn clone(&self) -> (r: Error)
        decreases *self,
    {
        Error {
            code: self.code.clone(),
            message: self.message.clone(),
            cause: match &self.cause {
                None => None,
                Some(b) => Some(Box::new((**b).clone())),
            },
            metadata: self.metadata.clone(),
        }
    }
}

impl Error {
    pub closed spec fn spec_code(&self) -> Seq<char> {
        self.code@
    }

    pub closed spec fn spec_message(&self) -> Seq<char> {
        self.message@
    }

    pub closed spec fn spec_cause(&self) -> Option<Box<Error>> {
        self.cause
    }

    pub closed spec fn spec_metadata(&self) -> Metadata {
        self.metadata
    }

    /// Builds an error from an already-known code string, so that callers
    /// holding the code as a value can state it; without a cause.
    pub(crate) fn with_code(code: String, message: String, metadata: Option<Metadata>) -> (r: Error)
        ensures
            r.spec_code() == code@,
            r.spec_message() == message@,
            r.spec_cause() is None,
            metadata matches Some(m) ==> r.spec_metadata() == m,
            metadata is None ==> r.spec_metadata().spec_values() == Map::<
                String,
                serde_json::Value,
            >::empty(),
    {
        let metadata = match metadata {
            Some(m) => m,
            None => Metadata::new(),
        };
        Error { code, message, cause: None, metadata }
    }

    /// A fresh error without a cause, under the code that `code` defines.
    pub fn new<C: Define>(code: C, message: String, metadata: Option<Metadata>) -> (r: Error)
        ensures
            r.spec_message() == message@,
            r.spec_cause() is None,
            metadata matches Some(m) ==> r.spec_metadata() == m,
            metadata is None ==> r.spec_metadata().spec_values() == Map::<
                String,
                serde_json::Value,
            >::empty(),
    {
        let code_str = String::from_str(code.define());
        Error::with_code(code_str, message, metadata)
    }

    /// A fresh error wrapping `err` as its cause.
    pub fn wrap<C: Define>(code: C, err: Error, message: String, metadata: Option<Metadata>) -> (r:
        Error)
        ensures
            r.spec_message() == message@,
            r.spec_cause() matches Some(b) && *b == err,
            metadata matches Some(m) ==> r.spec_metadata() == m,
            metadata is None ==> r.spec_metadata().spec_values() == Map::<
                String,
                serde_json::Value,
            >::empty(),
    {
        let mut error = Error::new(code, message, metadata);
        error.cause = Some(Box::new(err));
        error
    }

    /// A fresh error whose message appends the display form of a raw
    /// outside failure in parentheses; the raw failure is not kept as a
    /// cause.
    pub fn wrap_raw<C: Define, E: core::fmt::Display + ?Sized>(
        code: C,
        err: &E,
        message: String,
        metadata: Option<Metadata>,
    ) -> (r: Error)
        ensures
            r.spec_message().subrange(0, message@.len() as int) == message@,
            r.spec_cause() is None,
            metadata matches Some(m) ==> r.spec_metadata() == m,
            metadata is None ==> r.spec_metadata().spec_values() == Map::<
                String,
                serde_json::Value,
            >::empty(),
    {
        let txt = err.to_string();
        let mut full = message;
        let ghost base = full@;
        full.append(" (");
        full.append(txt.as_str());
        full.append(")");
        proof {
            assert(full@.subrange(0, base.len() as int) =~= base);
        }
        Error::new(code, full, metadata)
    }

    pub fn code(&self) -> (r: &str)
        ensures
            r@ == self.spec_code(),
    {
        self.code.as_str()
    }

    pub fn message(&self) -> (r: &str)
        ensures
            r@ == self.spec_message(),
    {
        self.message.as_str()
    }

    pub fn cause(&self) -> (r: Option<&Box<Error>>)
        ensures
            r is Some <==> self.spec_cause() is Some,
            r matches Some(c) ==> self.spec_cause() matches Some(b) && *c == b,
    {
        self.cause.as_ref()
    }

    pub fn metadata(&self) -> (r: &Metadata)
        ensures
            *r == self.spec_metadata(),
    {
        &self.metadata
    }

    /// The display form `code: message`.
    pub fn display_string(&self) -> (r: String)
        ensures
            r@ == self.spec_code() + ": "@ + self.spec_message(),
    {
        let mut out = self.code.clone();
        out.append(": ");
        out.append(self.message.as_str());
        out
    }
}

} // verus!
