//! Event nodes: one for each handler that an event in progress is to be given to.
use crate::const_type_id::ConstTypeId;
use crate::event_map::EventHandlerEntry;
use crate::events::EventValue;
use crate::small::EventValues;
use crate::traits::EventInvoker;
use vstd::prelude::*;

verus! {

/// Describes the status of a received event.
#[derive(Copy, Clone, Debug, PartialEq, Eq, Structural)]
pub enum EventState {
    /// The event is queued for execution.
    Queued,
    /// A thread has selected this event and is running the handler.
    Processing,
    /// The event handler has run to completion.
    Complete,
}

/// An event that all nodes which were made for it share.
#[derive(Copy, Clone, Debug, PartialEq, Eq, Structural)]
pub struct SharedEvent {
    /// The index of the first node that was made for the event, which no other event in progress
    /// has.
    pub batch: isize,
    /// The type of the event.
    pub event_type: ConstTypeId,
    /// The number under which the value of the event is known.
    pub payload: u64,
}

/// Represents an event that has been queued for processing.
pub struct EventNode {
    /// The set of events that were raised while processing this one.
    pub emitted_events: EventValues,
    /// The event that should be run, or none if this was an immediately-complete event.
    pub event: Option<SharedEvent>,
    /// The event handler to run.
    pub handler: EventHandlerEntry,
    /// The state of the event.
    pub state: EventState,
}

/// What an event node holds.
#[verifier::ext_equal]
pub struct NodeView {
    /// The events that were raised while processing this one, in order.
    pub emitted: Seq<EventValue>,
    /// The event that should be run, if any.
    pub event: Option<SharedEvent>,
    /// The event handler to run.
    pub handler: EventHandlerEntry,
    /// The state of the event.
    pub state: EventState,
}

impl View for EventNode {
    type V = NodeView;

    open spec fn view(&self) -> NodeView {
        NodeView {
            emitted: self.emitted_events@,
            event: self.event,
            handler: self.handler,
            state: self.state,
        }
    }
}

/// A node in the queued state, for the given event and handler.
pub open spec fn queued_node(event: SharedEvent, handler: EventHandlerEntry) -> NodeView {
    NodeView { emitted: Seq::empty(), event: Some(event), handler, state: EventState::Queued }
}

/// An immediately-complete node that emits the given event.
pub open spec fn completed_node(event: EventValue) -> NodeView {
    NodeView {
        emitted: seq![event],
        event: None,
        handler: EventHandlerEntry { handler: EventInvoker { handler: None }, system_id: 0 },
        state: EventState::Complete,
    }
}

impl EventNode {
    /// Creates a new event node in the queued state, for the given event and handler.
    pub fn new(event: SharedEvent, handler: EventHandlerEntry) -> (node: Self)
        ensures
            node@ == queued_node(event, handler),
    {
        EventNode {
            emitted_events: EventValues::new(),
            event: Some(event),
            handler,
            state: EventState::Queued,
        }
    }

    /// Creates a new immediately-complete event that emits the provided object as a follow-up
    /// event.
    pub fn completed(event: EventValue) -> (node: Self)
        ensures
            node@ == completed_node(event),
    {
        let mut emitted_events = EventValues::new();
        emitted_events.push(event);
        let node = EventNode {
            emitted_events,
            event: None,
            handler: EventHandlerEntry::default(),
            state: EventState::Complete,
        };
        assert(node@ =~= completed_node(event));
        node
    }
}

} // verus!
