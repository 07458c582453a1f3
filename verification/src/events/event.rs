//! The event envelope: an immutable, validated record of one domain
//! occurrence, with an opaque serialized payload.

use vstd::prelude::*;

use crate::clock::now_millis;
use crate::json::from_json_slice;
use crate::json::to_json_vec;
use crate::models::str_id::uuid_v4_string;

verus! {

/// Failure of event construction or payload decoding.
#[derive(Debug, Clone, Copy, PartialEq, Eq, Structural)]
pub enum EventError {
    /// A required field was empty.
    Invalid,
    /// The payload could not be serialized.
    PayloadSerialization,
    /// The payload could not be deserialized.
    PayloadDeserialization,
    /// An unexpected internal failure.
    Internal,
}

/// One domain occurrence: identifier, the entity it concerns, its topic,
/// the serialized payload, and the moment of creation in milliseconds
/// since the Unix epoch. Valid events have no empty field; an event is
/// immutable once constructed.
#[derive(Debug, Clone, PartialEq)]
pub struct Event {
    id: String,
    entity_id: String,
    topic: String,
    payload: Vec<u8>,
    timestamp: i64,
}

impl Event {
    pub closed spec fn spec_id(&self) -> Seq<char> {
        self.id@
    }

    pub closed spec fn spec_entity_id(&self) -> Seq<char> {
        self.entity_id@
    }

    pub closed spec fn spec_topic(&self) -> Seq<char> {
        self.topic@
    }

    pub closed spec fn spec_payload(&self) -> Seq<u8> {
        self.payload@
    }

    pub closed spec fn spec_timestamp(&self) -> i64 {
        self.timestamp
    }

    /// Validity: no string field and no payload is empty.
    pub open spec fn wf(&self) -> bool {
        self.spec_id().len() > 0 && self.spec_entity_id().len() > 0 && self.spec_topic().len() > 0
            && self.spec_payload().len() > 0
    }

    /// Validates the supplied fields and constructs the event; succeeds
    /// exactly when every field is non-empty, and otherwise reports
    /// `EventError::Invalid`.
    pub fn new(id: String, entity_id: String, topic: String, payload: Vec<u8>, timestamp: i64) -> (r:
        Result<Event, EventError>)
        ensures
            r is Ok <==> (id@.len() > 0 && entity_id@.len() > 0 && topic@.len() > 0
                && payload@.len() > 0),
            r matches Ok(e) ==> e.spec_id() == id@ && e.spec_entity_id() == entity_id@
                && e.spec_topic() == topic@ && e.spec_payload() == payload@ && e.spec_timestamp()
                == timestamp && e.wf(),
            r matches Err(err) ==> err == EventError::Invalid,
    {
        if id.as_str().is_empty() {
            return Err(EventError::Invalid);
        }
        if entity_id.as_str().is_empty() {
            return Err(EventError::Invalid);
        }
        if topic.as_str().is_empty() {
            return Err(EventError::Invalid);
        }
        if payload.len() == 0 {
            return Err(EventError::Invalid);
        }
        Ok(Event { id, entity_id, topic, payload, timestamp })
    }

    /// Serializes `payload`, generates a fresh identifier and the current
    /// timestamp, and builds the event. Fails with `PayloadSerialization`
    /// exactly when the serializer rejects the payload, and with `Invalid`
    /// only when `entity_id` or `topic` is empty.
    pub fn create<P: serde::Serialize>(entity_id: String, topic: String, payload: &P) -> (r: Result<
        Event,
        EventError,
    >)
        ensures
            r matches Ok(e) ==> e.wf() && e.spec_entity_id() == entity_id@ && e.spec_topic()
                == topic@ && e.spec_id().len() > 0 && e.spec_payload().len() > 0,
            r matches Err(err) ==> err == EventError::PayloadSerialization || err
                == EventError::Invalid,
            (r matches Err(err) && err == EventError::Invalid) ==> (entity_id@.len() == 0
                || topic@.len() == 0),
    {
        let bytes = match to_json_vec(payload) {
            Ok(b) => b,
            Err(_) => {
                return Err(EventError::PayloadSerialization);
            },
        };
        let id = uuid_v4_string();
        let ts = now_millis();
        Event::new(id, entity_id, topic, bytes, ts)
    }

    pub fn id(&self) -> (r: &str)
        ensures
            r@ == self.spec_id(),
    {
        self.id.as_str()
    }

    pub fn entity_id(&self) -> (r: &str)
        ensures
            r@ == self.spec_entity_id(),
    {
        self.entity_id.as_str()
    }

    pub fn topic(&self) -> (r: &str)
        ensures
            r@ == self.spec_topic(),
    {
        self.topic.as_str()
    }

    pub fn payload(&self) -> (r: &[u8])
        ensures
            r@ == self.spec_payload(),
    {
        self.payload.as_slice()
    }

    pub fn timestamp(&self) -> (r: i64)
        ensures
            r == self.spec_timestamp(),
    {
        self.timestamp
    }

    /// Deserializes the stored payload into the requested type; failures
    /// of the decoder are reported as `PayloadDeserialization`.
    pub fn deserialize_payload<'a, T: serde::Deserialize<'a>>(&'a self) -> (r: Result<
        T,
        EventError,
    >)
        ensures
            r matches Err(err) ==> err == EventError::PayloadDeserialization,
    {
        match from_json_slice(self.payload.as_slice()) {
            Ok(t) => Ok(t),
            Err(_) => Err(EventError::PayloadDeserialization),
        }
    }
}

} // verus!
