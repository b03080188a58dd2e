//! Receipt of events that were raised, and their distribution to the threads that raised them.
use crate::events::EventValue;
use crate::small::EventList;
use std::collections::VecDeque;
use vstd::prelude::*;

verus! {

/// Holds an event and describes the situation that raised it.
pub struct Event {
    /// The value of the event.
    pub value: EventValue,
    /// The thread on which the event was sent.
    pub sender: u64,
}

impl Event {
    /// Creates a new event that is associated with the given thread.
    pub fn new(value: EventValue, sender: u64) -> (event: Self)
        ensures
            event.value == value,
            event.sender == sender,
    {
        Event { value, sender }
    }
}

/// The values of those events that a thread has sent, in order.
pub open spec fn sent_by(events: Seq<Event>, thread: u64) -> Seq<EventValue>
    decreases events.len(),
{
    if events.len() == 0 {
        Seq::empty()
    } else {
        let rest = sent_by(events.drop_last(), thread);
        if events.last().sender == thread {
            rest.push(events.last().value)
        } else {
            rest
        }
    }
}

/// Those events that other threads have sent, in order.
pub open spec fn sent_by_others(events: Seq<Event>, thread: u64) -> Seq<Event>
    decreases events.len(),
{
    if events.len() == 0 {
        Seq::empty()
    } else {
        let rest = sent_by_others(events.drop_last(), thread);
        if events.last().sender == thread {
            rest
        } else {
            rest.push(events.last())
        }
    }
}

/// The values of events, in order.
pub open spec fn values_of(events: Seq<Event>) -> Seq<EventValue> {
    Seq::new(events.len(), |i: int| events[i].value)
}

/// Manages the receipt, storage, and demuxing of raised events.
pub struct EventReceiver {
    /// Internally buffered events that are waiting for another thread to fetch them.
    pub event_list: EventList,
    /// The raised events that have not been looked at.
    pub receiver: VecDeque<Event>,
}

impl EventReceiver {
    /// All events that were raised and have not been fetched, in the order in which they are
    /// fetched.
    pub open spec fn pending(&self) -> Seq<Event> {
        self.event_list@ + self.receiver@
    }

    /// Creates a new, empty event receiver.
    pub fn new() -> (receiver: Self)
        ensures
            receiver.event_list@ == Seq::<Event>::empty(),
            receiver.receiver@ == Seq::<Event>::empty(),
            receiver.pending() == Seq::<Event>::empty(),
    {
        let receiver = EventReceiver { event_list: EventList::new(), receiver: VecDeque::new() };
        assert(receiver.pending() =~= Seq::empty());
        receiver
    }

    /// Receives an event that was raised.
    pub fn send(&mut self, event: Event)
        ensures
            final(self).event_list == old(self).event_list,
            final(self).receiver@ == old(self).receiver@.push(event),
            final(self).pending() == old(self).pending().push(event),
    {
        let ghost before = self.pending();
        self.receiver.push_back(event);
        assert(self.pending() =~= before.push(event));
    }

    /// Removes and yields all events received on the given thread.
    pub fn get(&mut self, id: u64) -> (values: Vec<EventValue>)
        ensures
            values@ == sent_by(old(self).pending(), id),
            final(self).event_list@ == sent_by_others(old(self).pending(), id),
            final(self).receiver@ == Seq::<Event>::empty(),
            final(self).pending() == sent_by_others(old(self).pending(), id),
    {
        let ghost buffered = self.event_list@;
        let ghost incoming = self.receiver@;
        let mut values = self.drain_events(id);
        let ghost mut seen: int = 0;
        proof {
            assert(incoming.take(0) =~= Seq::empty());
            assert(incoming.skip(0) =~= incoming);
            assert(buffered + incoming.take(0) =~= buffered);
        }
        loop
            invariant
                0 <= seen <= incoming.len(),
                self.receiver@ == incoming.skip(seen),
                values@ == sent_by(buffered + incoming.take(seen), id),
                self.event_list@ == sent_by_others(buffered + incoming.take(seen), id),
            ensures
                seen == incoming.len(),
                self.receiver@.len() == 0,
            decreases incoming.len() - seen,
        {
            match self.receiver.pop_front() {
                Some(event) => {
                    proof {
                        let longer = buffered + incoming.take(seen + 1);
                        assert(longer.drop_last() =~= buffered + incoming.take(seen));
                        assert(longer.last() == event);
                        assert(incoming.skip(seen).subrange(
                            1,
                            incoming.skip(seen).len() as int,
                        ) =~= incoming.skip(seen + 1));
                        seen = seen + 1;
                    }
                    if event.sender == id {
                        values.push(event.value);
                    } else {
                        self.event_list.push(event);
                    }
                },
                None => {
                    break ;
                },
            }
        }
        proof {
            assert(incoming.take(seen) =~= incoming);
            assert(self.pending() =~= self.event_list@);
        }
        values
    }

    /// Removes and yields all events received.
    pub fn get_all(&mut self) -> (values: Vec<EventValue>)
        ensures
            values@ == values_of(old(self).pending()),
            values@.len() == old(self).pending().len(),
            forall|i: int|
                0 <= i < values@.len() ==> #[trigger] values@[i] == old(self).pending()[i].value,
            final(self).event_list@ == Seq::<Event>::empty(),
            final(self).receiver@ == Seq::<Event>::empty(),
            final(self).pending() == Seq::<Event>::empty(),
    {
        let ghost buffered = self.event_list@;
        let ghost incoming = self.receiver@;
        let mut values: Vec<EventValue> = Vec::new();
        let mut list = EventList::new();
        std::mem::swap(&mut self.event_list, &mut list);
        let events = list.into_vec();
        for event in iter: events
            invariant
                iter.seq() == buffered,
                values@ == values_of(buffered.take(iter.index() as int)),
        {
            values.push(event.value);
            assert(values@ =~= values_of(buffered.take(iter.index() + 1)));
        }
        assert(buffered.take(buffered.len() as int) =~= buffered);
        let ghost mut seen: int = 0;
        proof {
            assert(incoming.skip(0) =~= incoming);
            assert(buffered + incoming.take(0) =~= buffered);
        }
        loop
            invariant
                0 <= seen <= incoming.len(),
                self.event_list@.len() == 0,
                self.receiver@ == incoming.skip(seen),
                values@ == values_of(buffered + incoming.take(seen)),
            ensures
                seen == incoming.len(),
                self.receiver@.len() == 0,
            decreases incoming.len() - seen,
        {
            match self.receiver.pop_front() {
                Some(event) => {
                    proof {
                        assert(incoming.skip(seen).subrange(
                            1,
                            incoming.skip(seen).len() as int,
                        ) =~= incoming.skip(seen + 1));
                        seen = seen + 1;
                    }
                    values.push(event.value);
                    assert(values@ =~= values_of(buffered + incoming.take(seen)));
                },
                None => {
                    break ;
                },
            }
        }
        proof {
            assert(incoming.take(seen) =~= incoming);
            assert(self.pending() =~= Seq::empty());
        }
        values
    }

    /// Drains all stored events from the buffer which correspond to the given thread, yielding
    /// them as a vector.
    fn drain_events(&mut self, id: u64) -> (values: Vec<EventValue>)
        ensures
            values@ == sent_by(old(self).event_list@, id),
            final(self).event_list@ == sent_by_others(old(self).event_list@, id),
            final(self).receiver == old(self).receiver,
    {
        let ghost buffered = self.event_list@;
        let mut values: Vec<EventValue> = Vec::new();
        let mut list = EventList::new();
        std::mem::swap(&mut self.event_list, &mut list);
        let events = list.into_vec();
        for event in iter: events
            invariant
                iter.seq() == buffered,
                self.receiver == old(self).receiver,
                values@ == sent_by(buffered.take(iter.index() as int), id),
                self.event_list@ == sent_by_others(buffered.take(iter.index() as int), id),
        {
            proof {
                let longer = buffered.take(iter.index() + 1);
                assert(longer.drop_last() =~= buffered.take(iter.index() as int));
                assert(longer.last() == event);
            }
            if event.sender == id {
                values.push(event.value);
            } else {
                self.event_list.push(event);
            }
        }
        assert(buffered.take(buffered.len() as int) =~= buffered);
        values
    }
}

/// No event is lost when those of one thread are fetched: each either is fetched or stays, and
/// events of the other threads stay in order.
pub proof fn law_fetching_partitions(events: Seq<Event>, thread: u64)
    ensures
        sent_by(events, thread).len() + sent_by_others(events, thread).len() == events.len(),
        sent_by(sent_by_others(events, thread), thread).len() == 0,
        forall|other: u64|
            other != thread ==> #[trigger] sent_by(sent_by_others(events, thread), other)
                == sent_by(events, other),
    decreases events.len(),
{
    if events.len() > 0 {
        let shorter = events.drop_last();
        law_fetching_partitions(shorter, thread);
        let rest = sent_by_others(shorter, thread);
        if events.last().sender != thread {
            let whole = sent_by_others(events, thread);
            assert(whole.drop_last() =~= rest);
            assert(whole.last() == events.last());
        }
        assert forall|other: u64| other != thread implies #[trigger] sent_by(
            sent_by_others(events, thread),
            other,
        ) == sent_by(events, other) by {
            assert(sent_by(rest, other) == sent_by(shorter, other));
        }
    }
}

/// Where all events were raised by one thread, that thread fetches all of them, and none is left.
pub proof fn law_own_events_are_all_fetched(events: Seq<Event>, thread: u64)
    requires
        forall|i: int| 0 <= i < events.len() ==> (#[trigger] events[i]).sender == thread,
    ensures
        sent_by(events, thread) == values_of(events),
        sent_by_others(events, thread) == Seq::<Event>::empty(),
    decreases events.len(),
{
    if events.len() == 0 {
        assert(values_of(events) =~= Seq::empty());
    } else {
        let shorter = events.drop_last();
        assert forall|i: int| 0 <= i < shorter.len() implies (#[trigger] shorter[i]).sender
            == thread by {
            assert(events[i].sender == thread);
        }
        law_own_events_are_all_fetched(shorter, thread);
        assert(events[events.len() - 1].sender == thread);
        assert(values_of(events) =~= values_of(shorter).push(events.last().value));
    }
}

/// What a thread fetches are the values of all events that it has raised, each once and in order.
pub proof fn law_own_events_are_fetched_in_order(events: Seq<Event>, thread: u64) -> (places: Seq<
    int,
>)
    ensures
        places.len() == sent_by(events, thread).len(),
        forall|k: int|
            0 <= k < places.len() ==> 0 <= #[trigger] places[k] < events.len()
                && events[places[k]].sender == thread && sent_by(events, thread)[k]
                == events[places[k]].value,
        forall|j: int, k: int| 0 <= j < k < places.len() ==> places[j] < places[k],
        forall|i: int|
            0 <= i < events.len() && (#[trigger] events[i]).sender == thread ==> places.contains(
                i,
            ),
    decreases events.len(),
{
    if events.len() == 0 {
        Seq::empty()
    } else {
        let shorter = law_own_events_are_fetched_in_order(events.drop_last(), thread);
        let last = events.len() - 1;
        let places = if events.last().sender == thread {
            shorter.push(last)
        } else {
            shorter
        };
        assert forall|i: int|
            0 <= i < events.len() && (#[trigger] events[i]).sender
                == thread implies places.contains(i) by {
            if i < last {
                assert(events.drop_last()[i] == events[i]);
                let k = choose|k: int| 0 <= k < shorter.len() && shorter[k] == i;
                assert(places[k] == i);
            } else {
                assert(places[shorter.len() as int] == i);
            }
        }
        places
    }
}

/// What stays when a thread fetches its events are all events of other threads, each once and in
/// order.
pub proof fn law_events_of_others_stay_in_order(events: Seq<Event>, thread: u64) -> (places: Seq<
    int,
>)
    ensures
        places.len() == sent_by_others(events, thread).len(),
        forall|k: int|
            0 <= k < places.len() ==> 0 <= #[trigger] places[k] < events.len()
                && events[places[k]].sender != thread && sent_by_others(events, thread)[k]
                == events[places[k]],
        forall|j: int, k: int| 0 <= j < k < places.len() ==> places[j] < places[k],
        forall|i: int|
            0 <= i < events.len() && (#[trigger] events[i]).sender != thread ==> places.contains(
                i,
            ),
    decreases events.len(),
{
    if events.len() == 0 {
        Seq::empty()
    } else {
        let shorter = law_events_of_others_stay_in_order(events.drop_last(), thread);
        let last = events.len() - 1;
        let places = if events.last().sender == thread {
            shorter
        } else {
            shorter.push(last)
        };
        assert forall|i: int|
            0 <= i < events.len() && (#[trigger] events[i]).sender
                != thread implies places.contains(i) by {
            if i < last {
                assert(events.drop_last()[i] == events[i]);
                let k = choose|k: int| 0 <= k < shorter.len() && shorter[k] == i;
                assert(places[k] == i);
            } else {
                assert(places[shorter.len() as int] == i);
            }
        }
        places
    }
}

} // verus!
