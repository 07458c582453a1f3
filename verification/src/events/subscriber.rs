//! The receiving side of a bus: handlers, and the registration contract.

use vstd::prelude::*;

use crate::events::event::Event;
use crate::events::event::EventError;

verus! {

/// Caller-supplied logic invoked once per delivered event. Implementations
/// decide what an event means; the bus only routes.
pub trait Handler: Sync + Send {
    fn handle(&self, event: &Event) -> Result<(), EventError>;
}

/// Registers a handler against a topic pattern. Registrations only
/// accumulate; there is no unsubscribe operation.
pub trait Subscriber<H: Handler> {
    fn subscribe(&mut self, subject: &str, handler: H) -> Result<(), EventError>;
}

} // verus!
