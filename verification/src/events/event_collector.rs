//! A collector variant that reports failures through the generic error
//! value, for use cases whose whole flow speaks that error.

use vstd::prelude::*;
use vstd::string::StringExecFns;

use crate::errors::error::Define;
use crate::errors::error::Error;
use crate::events::event::Event;
use crate::events::event::EventError;

verus! {

impl Define for EventError {
    fn define(&self) -> &str {
        match self {
            EventError::Invalid => "event.invalid",
            EventError::PayloadSerialization => "event.payload_serialization",
            EventError::PayloadDeserialization => "event.payload_deserialization",
            EventError::Internal => "event.internal",
        }
    }
}

impl EventError {
    /// The stable code for this kind, as an owned string.
    fn code_string(&self) -> (r: String)
        ensures
            *self == EventError::Invalid ==> r@ == "event.invalid"@,
            *self == EventError::PayloadSerialization ==> r@ == "event.payload_serialization"@,
            *self == EventError::PayloadDeserialization ==> r@ == "event.payload_deserialization"@,
            *self == EventError::Internal ==> r@ == "event.internal"@,
    {
        match self {
            EventError::Invalid => String::from_str("event.invalid"),
            EventError::PayloadSerialization => String::from_str("event.payload_serialization"),
            EventError::PayloadDeserialization => String::from_str("event.payload_deserialization"),
            EventError::Internal => String::from_str("event.internal"),
        }
    }
}

/// A payload that knows which entity and topic it belongs to, and can be
/// serialized into an event payload.
pub trait Publishable {
    fn entity_id(&self) -> &str;

    fn topic(&self) -> &str;
}

/// An ordered buffer of events, drained after the surrounding unit of work
/// commits.
#[derive(Debug, Clone)]
pub struct EventCollector {
    events: Vec<Event>,
}

impl EventCollector {
    /// The buffered events, oldest first.
    pub closed spec fn spec_events(&self) -> Seq<Event> {
        self.events@
    }

    /// A collector over an existing buffer.
    pub fn new(events: Vec<Event>) -> (r: EventCollector)
        ensures
            r.spec_events() == events@,
    {
        EventCollector { events }
    }

    /// An empty collector.
    pub fn create() -> (r: EventCollector)
        ensures
            r.spec_events().len() == 0,
    {
        EventCollector::new(Vec::new())
    }

    /// Builds an event from `p` and appends it; on failure the buffer is
    /// untouched.
    pub fn record<P: Publishable + serde::Serialize>(&mut self, p: P) -> (r: Result<(), Error>)
        ensures
            r is Ok ==> final(self).spec_events().len() == old(self).spec_events().len() + 1
                && final(self).spec_events().subrange(0, old(self).spec_events().len() as int)
                == old(self).spec_events() && final(self).spec_events().last().wf(),
            r is Err ==> *final(self) == *old(self),
            r matches Err(e) ==> (e.spec_code() == "event.invalid"@ || e.spec_code()
                == "event.payload_serialization"@) && e.spec_message()
                == "could not create the event"@,
    {
        let entity_id = String::from_str(p.entity_id());
        let topic = String::from_str(p.topic());
        let event = match Event::create(entity_id, topic, &p) {
            Ok(e) => e,
            Err(err) => {
                return Err(
                    Error::with_code(
                        err.code_string(),
                        String::from_str("could not create the event"),
                        None,
                    ),
                );
            },
        };
        self.events.push(event);
        proof {
            assert(self.spec_events().subrange(0, old(self).spec_events().len() as int) =~= old(
                self,
            ).spec_events());
        }
        Ok(())
    }

    /// The buffered events, in recording order.
    pub fn all(&self) -> (r: &[Event])
        ensures
            r@ == self.spec_events(),
    {
        self.events.as_slice()
    }

    /// Empties the buffer and returns exactly the recorded events, in
    /// recording order.
    pub fn drain(&mut self) -> (r: Vec<Event>)
        ensures
            r@ == old(self).spec_events(),
            final(self).spec_events().len() == 0,
    {
        let mut out: Vec<Event> = Vec::new();
        core::mem::swap(&mut out, &mut self.events);
        out
    }
}

} // verus!
