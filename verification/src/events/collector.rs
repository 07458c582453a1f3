//! Buffers events recorded during a unit of work, for publishing after the
//! work commits.

use vstd::prelude::*;
use vstd::string::StringExecFns;

use crate::events::event::Event;
use crate::events::event::EventError;

verus! {

/// A payload that knows which entity and topic it belongs to, and can be
/// serialized into an event payload.
pub trait Publishable {
    fn entity_id(&self) -> &str;

    fn topic(&self) -> &str;
}

/// An ordered buffer of events. `record` appends, `drain` empties the
/// buffer and hands the accumulated events over; no two drains return
/// overlapping events.
#[derive(Debug, Clone)]
pub struct Collector {
    events: Vec<Event>,
}

impl Collector {
    /// The buffered events, oldest first.
    pub closed spec fn spec_events(&self) -> Seq<Event> {
        self.events@
    }

    /// A collector over an existing buffer.
    pub fn new(events: Vec<Event>) -> (r: Collector)
        ensures
            r.spec_events() == events@,
    {
        Collector { events }
    }

    /// An empty collector.
    pub fn create() -> (r: Collector)
        ensures
            r.spec_events().len() == 0,
    {
        Collector::new(Vec::new())
    }

    /// Builds an event from `p` and appends it; on failure the buffer is
    /// untouched.
    pub fn record<P: Publishable + serde::Serialize>(&mut self, p: P) -> (r: Result<
        (),
        EventError,
    >)
        ensures
            r is Ok ==> final(self).spec_events().len() == old(self).spec_events().len() + 1
                && final(self).spec_events().subrange(0, old(self).spec_events().len() as int)
                == old(self).spec_events() && final(self).spec_events().last().wf(),
            r is Err ==> *final(self) == *old(self),
    {
        let entity_id = String::from_str(p.entity_id());
        let topic = String::from_str(p.topic());
        let event = match Event::create(entity_id, topic, &p) {
            Ok(e) => e,
            Err(err) => {
                return Err(err);
            },
        };
        self.events.push(event);
        proof {
            assert(self.spec_events().subrange(0, old(self).spec_events().len() as int) =~= old(
                self,
            ).spec_events());
        }
        Ok(())
    }

    /// The buffered events, in recording order.
    pub fn all(&self) -> (r: &[Event])
        ensures
            r@ == self.spec_events(),
    {
        self.events.as_slice()
    }

    /// Empties the buffer and returns exactly the recorded events, in
    /// recording order.
    pub fn drain(&mut self) -> (r: Vec<Event>)
        ensures
            r@ == old(self).spec_events(),
            final(self).spec_events().len() == 0,
    {
        let mut out: Vec<Event> = Vec::new();
        core::mem::swap(&mut out, &mut self.events);
        out
    }
}

/// No two drains return overlapping events: a drain returns the buffer of
/// the collector it ran on and leaves an empty buffer behind, so a second
/// drain with no recording in between returns nothing at all.
pub proof fn lemma_drains_never_overlap(
    before: Collector,
    between: Collector,
    first: Seq<Event>,
    second: Seq<Event>,
)
    requires
        first == before.spec_events(),
        between.spec_events().len() == 0,
        second == between.spec_events(),
    ensures
        second == Seq::<Event>::empty(),
{
    assert(second =~= Seq::<Event>::empty());
}

} // verus!
