//! Failures of the bus subsystem: event validation, payload and wire
//! envelope codecs, and the broker boundary.

use vstd::prelude::*;

verus! {

/// What can go wrong between handing events to a bus and their delivery.
/// Broker-side failures carry the diagnostic text of the underlying error.
#[derive(Debug, Clone, PartialEq, Eq)]
pub enum Error {
    /// A required event field was empty.
    InvalidEvent,
    /// The wire envelope could not be encoded.
    SerializingEvent,
    /// Incoming bytes were not a wire envelope.
    DeserializingEvent,
    /// A payload could not be serialized.
    SerializingPayload,
    /// A payload could not be deserialized.
    DeserializingPayload,
    /// The broker rejected a publish or the connection failed.
    PublishingEvent { message: String },
    /// The broker refused the subject registration.
    SubscribingToSubject { subject: String, message: String },
}

} // verus!
