//! Growable sequences that keep a few items in place, by the `smallvec` crate: what each of them
//! holds, and the calls that are made on them.
use crate::event_map::EventHandlerEntry;
use crate::events::EventValue;
use crate::receiver::Event;
use smallvec::SmallVec;
use std::collections::VecDeque;
use vstd::prelude::*;

verus! {

/// A short list of system IDs.
#[verifier::external_body]
pub struct IdList {
    /// The IDs.
    inner: SmallVec<[u16; 8]>,
}

/// The IDs that a list holds, in order.
pub uninterp spec fn ids_of(list: IdList) -> Seq<u16>;

impl View for IdList {
    type V = Seq<u16>;

    open spec fn view(&self) -> Seq<u16> {
        ids_of(*self)
    }
}

impl IdList {
    /// Calls `SmallVec::new`: the result holds nothing.
    #[verifier::external_body]
    pub(crate) fn new() -> (list: IdList)
        ensures
            ids_of(list) == Seq::<u16>::empty(),
    {
        IdList { inner: SmallVec::new() }
    }

    /// Calls `SmallVec::push`: adds an item at the end.
    #[verifier::external_body]
    pub(crate) fn push(&mut self, id: u16)
        ensures
            ids_of(*final(self)) == ids_of(*old(self)).push(id),
    {
        self.inner.push(id);
    }

    /// Calls `SmallVec::len`: the number of items held.
    #[verifier::external_body]
    pub(crate) fn len(&self) -> (len: usize)
        ensures
            len == ids_of(*self).len(),
    {
        self.inner.len()
    }

    /// Calls the index operator of `SmallVec`: the item at a position, which must be in bounds.
    #[verifier::external_body]
    pub(crate) fn get(&self, index: usize) -> (id: u16)
        requires
            index < ids_of(*self).len(),
        ensures
            id == ids_of(*self)[index as int],
    {
        self.inner[index]
    }

    /// Calls the mutable index operator of `SmallVec`: writes the item at a position, which must be
    /// in bounds.
    #[verifier::external_body]
    pub(crate) fn set(&mut self, index: usize, id: u16)
        requires
            index < ids_of(*old(self)).len(),
        ensures
            ids_of(*final(self)) == ids_of(*old(self)).update(index as int, id),
    {
        self.inner[index] = id;
    }
}

impl IdList {
    /// Copies the IDs of this list to a vector.
    pub fn to_vec(&self) -> (ids: Vec<u16>)
        ensures
            ids@ == self@,
    {
        let mut ids: Vec<u16> = Vec::new();
        let mut i: usize = 0;
        while i < self.len()
            invariant
                i <= self@.len(),
                ids@ == self@.take(i as int),
            decreases self@.len() - i,
        {
            ids.push(self.get(i));
            i = i + 1;
        }
        assert(self@.take(i as int) =~= self@);
        ids
    }
}

/// A short list of the keys of system types.
#[verifier::external_body]
pub struct KeyList {
    /// The keys.
    inner: SmallVec<[usize; 8]>,
}

/// The keys that a list holds, in order.
pub uninterp spec fn keys_of(list: KeyList) -> Seq<usize>;

impl View for KeyList {
    type V = Seq<usize>;

    open spec fn view(&self) -> Seq<usize> {
        keys_of(*self)
    }
}

impl KeyList {
    /// Calls `SmallVec::new`: the result holds nothing.
    #[verifier::external_body]
    pub(crate) fn new() -> (list: KeyList)
        ensures
            keys_of(list) == Seq::<usize>::empty(),
    {
        KeyList { inner: SmallVec::new() }
    }

    /// Calls `SmallVec::push`: adds an item at the end.
    #[verifier::external_body]
    pub(crate) fn push(&mut self, key: usize)
        ensures
            keys_of(*final(self)) == keys_of(*old(self)).push(key),
    {
        self.inner.push(key);
    }

    /// Calls `SmallVec::pop`: takes the item at the end off, if there is one.
    #[verifier::external_body]
    pub(crate) fn pop(&mut self) -> (key: Option<usize>)
        ensures
            match key {
                Some(key) => keys_of(*old(self)).len() > 0 && key == keys_of(*old(self)).last()
                    && keys_of(*final(self)) == keys_of(*old(self)).drop_last(),
                None => keys_of(*old(self)).len() == 0 && keys_of(*final(self)) == keys_of(
                    *old(self),
                ),
            },
    {
        self.inner.pop()
    }
}

/// A short list of event handlers.
#[verifier::external_body]
#[derive(Debug)]
pub struct HandlerList {
    /// The handlers.
    inner: SmallVec<[EventHandlerEntry; 4]>,
}

/// The event handlers that a list holds, in order.
pub uninterp spec fn handlers_of(list: HandlerList) -> Seq<EventHandlerEntry>;

impl View for HandlerList {
    type V = Seq<EventHandlerEntry>;

    open spec fn view(&self) -> Seq<EventHandlerEntry> {
        handlers_of(*self)
    }
}

impl HandlerList {
    /// Calls `SmallVec::new`: the result holds nothing.
    #[verifier::external_body]
    pub(crate) fn new() -> (list: HandlerList)
        ensures
            handlers_of(list) == Seq::<EventHandlerEntry>::empty(),
    {
        HandlerList { inner: SmallVec::new() }
    }

    /// Calls `SmallVec::push`: adds an item at the end.
    #[verifier::external_body]
    pub(crate) fn push(&mut self, entry: EventHandlerEntry)
        ensures
            handlers_of(*final(self)) == handlers_of(*old(self)).push(entry),
    {
        self.inner.push(entry);
    }

    /// Calls `SmallVec::as_slice`: a view of the items held.
    #[verifier::external_body]
    pub(crate) fn as_slice(&self) -> (items: &[EventHandlerEntry])
        ensures
            items@ == handlers_of(*self),
    {
        self.inner.as_slice()
    }
}

/// A short list of events.
#[verifier::external_body]
pub struct EventValues {
    /// The events.
    inner: SmallVec<[EventValue; 4]>,
}

/// The events that a list holds, in order.
pub uninterp spec fn event_values_of(list: EventValues) -> Seq<EventValue>;

impl View for EventValues {
    type V = Seq<EventValue>;

    open spec fn view(&self) -> Seq<EventValue> {
        event_values_of(*self)
    }
}

impl EventValues {
    /// Calls `SmallVec::new`: the result holds nothing.
    #[verifier::external_body]
    pub(crate) fn new() -> (list: EventValues)
        ensures
            event_values_of(list) == Seq::<EventValue>::empty(),
    {
        EventValues { inner: SmallVec::new() }
    }

    /// Calls `SmallVec::push`: adds an item at the end.
    #[verifier::external_body]
    pub(crate) fn push(&mut self, event: EventValue)
        ensures
            event_values_of(*final(self)) == event_values_of(*old(self)).push(event),
    {
        self.inner.push(event);
    }

    /// Calls `SmallVec::extend`: adds the given items at the end, in order.
    #[verifier::external_body]
    pub(crate) fn extend(&mut self, events: Vec<EventValue>)
        ensures
            event_values_of(*final(self)) == event_values_of(*old(self)) + events@,
    {
        self.inner.extend(events);
    }

    /// Calls `SmallVec::into_vec`: a vector of the items held.
    #[verifier::external_body]
    pub(crate) fn into_vec(self) -> (events: Vec<EventValue>)
        ensures
            events@ == event_values_of(self),
    {
        self.inner.into_vec()
    }
}

/// A short list of events, each with the situation that raised it.
#[verifier::external_body]
pub struct EventList {
    /// The events.
    inner: SmallVec<[Event; 4]>,
}

/// The events that a list holds, in order.
pub uninterp spec fn events_of(list: EventList) -> Seq<Event>;

impl View for EventList {
    type V = Seq<Event>;

    open spec fn view(&self) -> Seq<Event> {
        events_of(*self)
    }
}

impl EventList {
    /// Calls `SmallVec::new`: the result holds nothing.
    #[verifier::external_body]
    pub(crate) fn new() -> (list: EventList)
        ensures
            events_of(list) == Seq::<Event>::empty(),
    {
        EventList { inner: SmallVec::new() }
    }

    /// Calls `SmallVec::push`: adds an item at the end.
    #[verifier::external_body]
    pub(crate) fn push(&mut self, event: Event)
        ensures
            events_of(*final(self)) == events_of(*old(self)).push(event),
    {
        self.inner.push(event);
    }

    /// Calls `SmallVec::into_vec`: a vector of the items held.
    #[verifier::external_body]
    pub(crate) fn into_vec(self) -> (events: Vec<Event>)
        ensures
            events@ == events_of(self),
    {
        self.inner.into_vec()
    }
}

/// A short stack of event queues.
#[verifier::external_body]
pub struct EventLists {
    /// The queues.
    inner: SmallVec<[VecDeque<EventValue>; 4]>,
}

/// The queues that a stack holds, from the bottom to the top.
pub uninterp spec fn lists_of(lists: EventLists) -> Seq<VecDeque<EventValue>>;

impl View for EventLists {
    type V = Seq<VecDeque<EventValue>>;

    open spec fn view(&self) -> Seq<VecDeque<EventValue>> {
        lists_of(*self)
    }
}

impl EventLists {
    /// Calls `SmallVec::new`: the result holds nothing.
    #[verifier::external_body]
    pub(crate) fn new() -> (lists: EventLists)
        ensures
            lists_of(lists) == Seq::<VecDeque<EventValue>>::empty(),
    {
        EventLists { inner: SmallVec::new() }
    }

    /// Calls `SmallVec::as_slice`: a view of the items held.
    #[verifier::external_body]
    pub(crate) fn as_slice(&self) -> (items: &[VecDeque<EventValue>])
        ensures
            items@ == lists_of(*self),
    {
        self.inner.as_slice()
    }

    /// Calls `SmallVec::is_empty`: whether no item is held.
    #[verifier::external_body]
    pub(crate) fn is_empty(&self) -> (result: bool)
        ensures
            result == (lists_of(*self).len() == 0),
    {
        self.inner.is_empty()
    }

    /// Calls `SmallVec::push`: adds an item at the end.
    #[verifier::external_body]
    pub(crate) fn push(&mut self, list: VecDeque<EventValue>)
        ensures
            lists_of(*final(self)) == lists_of(*old(self)).push(list),
    {
        self.inner.push(list);
    }

    /// Calls `SmallVec::pop`: takes the item at the end off, if there is one.
    #[verifier::external_body]
    pub(crate) fn pop(&mut self) -> (list: Option<VecDeque<EventValue>>)
        ensures
            match list {
                Some(list) => lists_of(*old(self)).len() > 0 && list == lists_of(*old(self)).last()
                    && lists_of(*final(self)) == lists_of(*old(self)).drop_last(),
                None => lists_of(*old(self)).len() == 0 && lists_of(*final(self)) == lists_of(
                    *old(self),
                ),
            },
    {
        self.inner.pop()
    }

    /// Calls `last_mut` on the items held: access to the item at the end, which must be there. What
    /// is written to it is held in its place from then on, and nothing else changes.
    #[verifier::external_body]
    pub(crate) fn last_mut(&mut self) -> (list: &mut VecDeque<EventValue>)
        requires
            lists_of(*old(self)).len() > 0,
        ensures
            *list == lists_of(*old(self)).last(),
            lists_of(*final(self)) == lists_of(*old(self)).update(
                lists_of(*old(self)).len() - 1,
                *final(list),
            ),
    {
        self.inner.last_mut().unwrap()
    }
}

} // verus!
