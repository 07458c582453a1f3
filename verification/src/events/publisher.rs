//! The submitting side of a bus.

use vstd::prelude::*;

use crate::events::event::Event;
use crate::events::event::EventError;

verus! {

/// Accepts a batch of events for delivery. Events already dispatched
/// before a failure keep their effects; no rollback is attempted.
pub trait Publisher {
    fn publish(&self, events: &[Event]) -> Result<(), EventError>;
}

} // verus!
