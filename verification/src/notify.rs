//! Events to which the context itself responds.
use crate::const_type_id::ConstTypeId;
use crate::events::EventBuffer;
use crate::events::EventQueue;
use crate::events::EventValue;
use crate::small::EventValues;
use vstd::prelude::*;

verus! {

/// Causes the context to load a system during the next event cycle. The system must not be present
/// already by then, whether it was added or loaded as a dependency.
pub fn add_system(system: ConstTypeId) -> (event: EventValue)
    ensures
        event == EventValue::AddSystem(system),
{
    EventValue::AddSystem(system)
}

/// Causes the context to remove a system during the next event cycle. The system must have been
/// added by then.
pub fn remove_system(system: ConstTypeId) -> (event: EventValue)
    ensures
        event == EventValue::RemoveSystem(system),
{
    EventValue::RemoveSystem(system)
}

/// Causes the context to reload a system during the next event cycle. The system must be loaded by
/// then.
pub fn reset_system(system: ConstTypeId) -> (event: EventValue)
    ensures
        event == EventValue::ResetSystem(system),
{
    EventValue::ResetSystem(system)
}

/// Tells the context to delay processing this event until all of the other events
/// placed into the queue have been processed.
pub fn delayed(event: EventValue) -> (result: EventValue)
    ensures
        result == EventValue::Delayed(Box::new(event)),
{
    EventValue::Delayed(Box::new(event))
}

/// Collects the events of a separate, isolated event cycle.
pub struct Flush(pub EventBuffer);

impl EventQueue for Flush {
    open spec fn queued(&self) -> Seq<EventValue> {
        self.0.events@
    }

    open spec fn accepting(&self) -> bool {
        true
    }

    open spec fn extends(&self, before: Self) -> bool {
        true
    }

    fn with_many_boxed(self, events: Vec<EventValue>) -> (queue: Self) {
        Flush(self.0.with_many_boxed(events))
    }
}

impl Flush {
    /// Makes an event of the collected ones.
    pub fn into_event(self) -> (event: EventValue)
        ensures
            event == EventValue::Flush(Box::new(self.0)),
    {
        EventValue::Flush(Box::new(self.0))
    }
}

/// Instructs the context to process a series of events, and all subevents spawned from them, before
/// moving to other items in the queue.
pub fn flush() -> (queue: Flush)
    ensures
        queue.queued() == Seq::<EventValue>::empty(),
{
    Flush(EventBuffer { events: EventValues::new() })
}

/// Buffers hold their events in the order in which these were added.
pub proof fn law_buffers_hold_events_in_order(buffer: EventBuffer)
    ensures
        buffer.queued() == buffer.events@,
        Flush(buffer).queued() == buffer.events@,
{
}

} // verus!
