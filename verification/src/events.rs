//! Events, and the queues to which they are added.
use crate::const_type_id::ConstTypeId;
use crate::small::EventValues;
use vstd::prelude::*;

verus! {

/// An event: either one that systems respond to, or a request to the context.
pub enum EventValue {
    /// An event of some type, to which the systems that handle the type respond.
    Typed {
        /// The type of the event.
        event_type: ConstTypeId,
        /// The number under which the value of the event is known.
        payload: u64,
    },
    /// Tells the context to load the specified system when this event triggers.
    AddSystem(ConstTypeId),
    /// Tells the context to unload the specified system when this event triggers.
    RemoveSystem(ConstTypeId),
    /// Tells the context to reset the specified system when this event triggers.
    ResetSystem(ConstTypeId),
    /// Causes the context to delay processing the given event during the current cycle.
    Delayed(Box<EventValue>),
    /// Tells the context to process the events in the queue as a separate, isolated event cycle.
    Flush(Box<EventBuffer>),
}

/// Whether an event should clog the system and force an event pipeline stall.
pub open spec fn clogs(event: EventValue) -> bool {
    event is AddSystem || event is RemoveSystem || event is ResetSystem || event is Flush
}

/// How often an event, or one that it holds, is taken from a queue.
pub open spec fn weight(event: EventValue) -> nat
    decreases event,
{
    match event {
        EventValue::Delayed(inner) => 1 + weight(*inner),
        _ => 1,
    }
}

/// The sum of the weights of events.
pub open spec fn total_weight(events: Seq<EventValue>) -> nat
    decreases events.len(),
{
    if events.len() == 0 {
        0
    } else {
        total_weight(events.drop_last()) + weight(events.last())
    }
}

/// Taking the first event off a sequence takes its weight off the sum.
pub proof fn lemma_weight_first(events: Seq<EventValue>)
    requires
        events.len() > 0,
    ensures
        total_weight(events) == weight(events[0]) + total_weight(events.drop_first()),
    decreases events.len(),
{
    if events.len() == 1 {
        assert(events.drop_first() =~= Seq::empty());
        assert(events.drop_last() =~= Seq::empty());
    } else {
        let shorter = events.drop_last();
        lemma_weight_first(shorter);
        assert(shorter.drop_first() =~= events.drop_first().drop_last());
    }
}

/// Adding an event at the end of a sequence adds its weight to the sum.
pub proof fn lemma_weight_push(events: Seq<EventValue>, event: EventValue)
    ensures
        total_weight(events.push(event)) == total_weight(events) + weight(event),
{
    assert(events.push(event).drop_last() =~= events);
}

impl EventValue {
    /// Determines whether this event should clog the system and force an event pipeline stall.
    pub fn clogging_event(&self) -> (result: bool)
        ensures
            result == clogs(*self),
            result == !(*self is Typed || *self is Delayed),
    {
        match self {
            EventValue::AddSystem(_) => true,
            EventValue::RemoveSystem(_) => true,
            EventValue::ResetSystem(_) => true,
            EventValue::Flush(_) => true,
            _ => false,
        }
    }
}

/// Holds a series of events that the context should execute.
pub struct EventBuffer {
    /// The events contained in this queue.
    pub events: EventValues,
}

impl Default for EventBuffer {
    fn default() -> (buffer: Self)
        ensures
            buffer.events@ == Seq::<EventValue>::empty(),
    {
        EventBuffer { events: EventValues::new() }
    }
}

/// Describes a series of events that the context should execute.
pub trait EventQueue: Sized {
    /// The events of the queue, in order.
    spec fn queued(&self) -> Seq<EventValue>;

    /// Whether events can be added to the queue.
    spec fn accepting(&self) -> bool;

    /// Whether only the events differ from those of another queue.
    spec fn extends(&self, before: Self) -> bool;

    /// Adds a list of dynamically-typed events to the queue.
    fn with_many_boxed(self, events: Vec<EventValue>) -> (queue: Self)
        requires
            self.accepting(),
        ensures
            queue.queued() == self.queued() + events@,
            queue.accepting(),
            queue.extends(self),
    ;

    /// Adds a single event to the queue.
    fn with(self, event: EventValue) -> (queue: Self)
        requires
            self.accepting(),
        ensures
            queue.queued() == self.queued().push(event),
            queue.accepting(),
            queue.extends(self),
    {
        self.with_boxed(event)
    }

    /// Adds a single dynamically-typed event to the queue.
    fn with_boxed(self, event: EventValue) -> (queue: Self)
        requires
            self.accepting(),
        ensures
            queue.queued() == self.queued().push(event),
            queue.accepting(),
            queue.extends(self),
    {
        let ghost before = self.queued();
        let queue = self.with_many_boxed(single(event));
        assert(queue.queued() =~= before.push(event));
        queue
    }

    /// Adds a buffer of events to the queue.
    fn with_buffer(self, events: EventBuffer) -> (queue: Self)
        requires
            self.accepting(),
        ensures
            queue.queued() == self.queued() + events.events@,
            queue.accepting(),
            queue.extends(self),
    {
        self.with_many_boxed(events.events.into_vec())
    }

    /// Adds a list of events to the queue.
    fn with_many(self, events: Vec<EventValue>) -> (queue: Self)
        requires
            self.accepting(),
        ensures
            queue.queued() == self.queued() + events@,
            queue.accepting(),
            queue.extends(self),
    {
        self.with_many_boxed(events)
    }
}

/// A list of one event.
pub(crate) fn single(event: EventValue) -> (events: Vec<EventValue>)
    ensures
        events@ == seq![event],
{
    let mut events: Vec<EventValue> = Vec::new();
    events.push(event);
    assert(events@ =~= seq![event]);
    events
}

impl EventQueue for EventBuffer {
    open spec fn queued(&self) -> Seq<EventValue> {
        self.events@
    }

    open spec fn accepting(&self) -> bool {
        true
    }

    open spec fn extends(&self, before: Self) -> bool {
        true
    }

    fn with_many_boxed(self, events: Vec<EventValue>) -> (queue: Self) {
        let mut queue = self;
        queue.events.extend(events);
        queue
    }
}

} // verus!
