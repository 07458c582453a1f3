//! The serde_json calls the library relies on, each behind one trusted
//! declaration, together with the declaration of serde_json's error type.

use serde_json::Error as SerdeJsonError;
use vstd::prelude::*;

verus! {

#[verifier::external_type_specification]
#[verifier::external_body]
pub struct ExSerdeJsonError(SerdeJsonError);

#[verifier::external_type_specification]
#[verifier::external_body]
pub struct ExSerdeJsonValue(serde_json::Value);

/// Relies on `serde_json::to_vec`: serializes any serializable value to
/// JSON text; JSON text is never empty. The non-emptiness rests on serde's
/// documented requirement that a `Serialize` impl invoke exactly one
/// serializer method.
#[verifier::external_body]
pub(crate) fn to_json_vec<P: serde::Serialize>(p: &P) -> (r: Result<Vec<u8>, SerdeJsonError>)
    ensures
        r matches Ok(b) ==> b@.len() > 0,
{
    serde_json::to_vec(p)
}

/// Relies on `serde_json::from_slice`: decodes a value of the requested
/// type from JSON text; nothing further is promised of the outcome.
#[verifier::external_body]
pub(crate) fn from_json_slice<'a, T: serde::Deserialize<'a>>(b: &'a [u8]) -> (r: Result<
    T,
    SerdeJsonError,
>) {
    serde_json::from_slice(b)
}

/// Relies on `serde_json::to_value`: converts any serializable value into
/// a JSON value tree; nothing further is promised of the outcome.
#[verifier::external_body]
pub(crate) fn to_json_value<V: serde::Serialize>(v: &V) -> (r: Result<
    serde_json::Value,
    SerdeJsonError,
>) {
    serde_json::to_value(v)
}

} // verus!
