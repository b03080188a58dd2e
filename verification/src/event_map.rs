//! The event handlers of all loaded systems, by the type of event to which they respond.
use crate::const_list::ConstList;
use crate::const_type_id::ConstTypeId;
use crate::maps::map_clear;
use crate::maps::map_get;
use crate::maps::map_get_mut;
use crate::maps::map_insert;
use crate::maps::map_new;
use crate::small::HandlerList;
use crate::traits::EventHandler;
use crate::traits::EventInvoker;
use crate::traits::SystemDescriptor;
use fxhash::FxHashMap;
use vstd::prelude::*;

verus! {

/// Describes a single event handler.
#[derive(Copy, Clone, Debug, PartialEq, Eq, Structural)]
pub struct EventHandlerEntry {
    /// The invoker that may be used to dispatch events.
    pub handler: EventInvoker,
    /// The ID of the system with which this event handler is associated.
    pub system_id: u16,
}

impl Default for EventHandlerEntry {
    fn default() -> (entry: Self)
        ensures
            entry == (EventHandlerEntry { handler: EventInvoker { handler: None }, system_id: 0 }),
    {
        EventHandlerEntry { handler: EventInvoker { handler: None }, system_id: 0 }
    }
}

/// The handlers of one system that respond to an event, in the order of its handlers list.
pub open spec fn responding(
    handlers: Seq<EventHandler>,
    system_id: u16,
    event: ConstTypeId,
) -> Seq<EventHandlerEntry>
    decreases handlers.len(),
{
    if handlers.len() == 0 {
        Seq::empty()
    } else {
        let rest = responding(handlers.drop_last(), system_id, event);
        if handlers.last().event() == event {
            rest.push(EventHandlerEntry { handler: handlers.last().invoker(), system_id })
        } else {
            rest
        }
    }
}

/// The handlers that respond to an event among those of a sequence of systems, system by system.
pub open spec fn all_responding(
    systems: Seq<SystemDescriptor>,
    event: ConstTypeId,
) -> Seq<EventHandlerEntry>
    decreases systems.len(),
{
    if systems.len() == 0 {
        Seq::empty()
    } else {
        all_responding(systems.drop_last(), event) + responding(
            systems.last().event_handlers@,
            (systems.len() - 1) as u16,
            event,
        )
    }
}

/// Stores a mapping from event type IDs to groups of event handlers.
pub struct EventMap {
    /// The inner mapping from type IDs to event handlers.
    handlers: FxHashMap<usize, HandlerList>,
}

impl EventMap {
    /// The event handlers that respond to the provided event type, in order.
    pub closed spec fn entries(&self, event: ConstTypeId) -> Seq<EventHandlerEntry> {
        if self.handlers@.dom().contains(event.key) {
            self.handlers@[event.key]@
        } else {
            Seq::empty()
        }
    }

    /// Creates a map without handlers.
    pub fn new() -> (map: Self)
        ensures
            forall|event: ConstTypeId| #[trigger]
                map.entries(event) == Seq::<EventHandlerEntry>::empty(),
    {
        EventMap { handlers: map_new() }
    }

    /// Adds all of the event handlers in the given list to this map, associating them with
    /// the provided system ID.
    pub fn add_handlers(&mut self, system_id: u16, handlers: &ConstList<'static, EventHandler>)
        ensures
            forall|event: ConstTypeId| #[trigger]
                final(self).entries(event) == old(self).entries(event) + responding(
                    handlers@,
                    system_id,
                    event,
                ),
    {
        let ghost list = handlers@;
        let ghost before = *self;
        let mut iterator = handlers.into_iter();
        let ghost mut done: int = 0;
        proof {
            assert(list.take(0) =~= Seq::empty());
            assert(list.skip(0) =~= list);
        }
        loop
            invariant
                list == handlers@,
                before == *old(self),
                0 <= done <= list.len(),
                iterator@ == list.skip(done),
                forall|event: ConstTypeId| #[trigger]
                    self.entries(event) == before.entries(event) + responding(
                        list.take(done),
                        system_id,
                        event,
                    ),
            ensures
                done == list.len(),
            decreases list.len() - done,
        {
            match iterator.next() {
                Some(entry) => {
                    let ghost current = *self;
                    let id: ConstTypeId = entry.event_id();
                    let added = EventHandlerEntry { system_id, handler: *entry.handler() };
                    if map_get(&self.handlers, id.key).is_none() {
                        map_insert(&mut self.handlers, id.key, HandlerList::new());
                    }
                    match map_get_mut(&mut self.handlers, id.key) {
                        Some(group) => group.push(added),
                        None => {},
                    }
                    proof {
                        assert(list.skip(done).drop_first() =~= list.skip(done + 1));
                        let next = list.take(done + 1);
                        assert(next.drop_last() =~= list.take(done));
                        assert(next.last() == list[done]);
                        assert forall|event: ConstTypeId| #[trigger]
                            self.entries(event) == before.entries(event) + responding(
                                next,
                                system_id,
                                event,
                            ) by {
                            let rest = responding(list.take(done), system_id, event);
                            if event == id {
                                assert(self.entries(event) =~= current.entries(event).push(added));
                                assert(before.entries(event) + rest.push(added) =~= (before.entries(
                                    event,
                                ) + rest).push(added));
                            } else {
                                assert(event.key != id.key);
                                assert(self.entries(event) =~= current.entries(event));
                            }
                        }
                        done = done + 1;
                    }
                },
                None => {
                    break ;
                },
            }
        }
        proof {
            assert(list.take(done) =~= list);
        }
    }

    /// Clears the event map of all handlers.
    pub fn clear(&mut self)
        ensures
            forall|event: ConstTypeId| #[trigger]
                final(self).entries(event) == Seq::<EventHandlerEntry>::empty(),
    {
        map_clear(&mut self.handlers);
    }

    /// Gets the event handlers that respond to the provided event type.
    pub fn handlers(&self, event: ConstTypeId) -> (handlers: &[EventHandlerEntry])
        ensures
            handlers@ == self.entries(event),
    {
        match map_get(&self.handlers, event.key) {
            Some(group) => group.as_slice(),
            None => {
                let none: &[EventHandlerEntry] = &[];
                assert(none@ =~= Seq::empty());
                none
            },
        }
    }
}

/// Every handler that responds to an event belongs to one of the systems.
pub proof fn lemma_responding_system(
    handlers: Seq<EventHandler>,
    system_id: u16,
    event: ConstTypeId,
)
    ensures
        forall|k: int|
            0 <= k < responding(handlers, system_id, event).len() ==> (#[trigger] responding(
                handlers,
                system_id,
                event,
            )[k]).system_id == system_id,
    decreases handlers.len(),
{
    if handlers.len() > 0 {
        lemma_responding_system(handlers.drop_last(), system_id, event);
    }
}

/// When an event is handled, the handlers of a system all come before those of any later system;
/// and every handler belongs to one of the systems.
pub proof fn law_handlers_in_system_order(systems: Seq<SystemDescriptor>, event: ConstTypeId)
    requires
        systems.len() <= u16::MAX,
    ensures
        forall|k: int|
            0 <= k < all_responding(systems, event).len() ==> (#[trigger] all_responding(
                systems,
                event,
            )[k]).system_id < systems.len(),
        forall|j: int, k: int|
            0 <= j <= k < all_responding(systems, event).len() ==> (#[trigger] all_responding(
                systems,
                event,
            )[j]).system_id <= (#[trigger] all_responding(systems, event)[k]).system_id,
    decreases systems.len(),
{
    if systems.len() > 0 {
        law_handlers_in_system_order(systems.drop_last(), event);
        lemma_responding_system(
            systems.last().event_handlers@,
            (systems.len() - 1) as u16,
            event,
        );
    }
}

/// The handlers of one system for an event stand next to each other among those of all systems.
pub proof fn lemma_responding_within(
    systems: Seq<SystemDescriptor>,
    event: ConstTypeId,
    system: int,
    k: int,
)
    requires
        0 <= system < systems.len(),
        0 <= k < responding(systems[system].event_handlers@, system as u16, event).len(),
    ensures
        ({
            let place = all_responding(systems.take(system), event).len() + k;
            &&& place < all_responding(systems, event).len()
            &&& all_responding(systems, event)[place] == responding(
                systems[system].event_handlers@,
                system as u16,
                event,
            )[k]
        }),
    decreases systems.len(),
{
    if system == systems.len() - 1 {
        assert(systems.take(system) =~= systems.drop_last());
    } else {
        let shorter = systems.drop_last();
        lemma_responding_within(shorter, event, system, k);
        assert(shorter.take(system) =~= systems.take(system));
    }
}

/// The handlers of one system for one event keep the order that they have in the handlers list of
/// the system: each comes from its own place of the list, and later ones from later places.
pub proof fn law_handlers_in_list_order(
    handlers: Seq<EventHandler>,
    system_id: u16,
    event: ConstTypeId,
) -> (places: Seq<int>)
    ensures
        places.len() == responding(handlers, system_id, event).len(),
        forall|k: int|
            0 <= k < places.len() ==> 0 <= #[trigger] places[k] < handlers.len()
                && handlers[places[k]].event() == event && responding(
                handlers,
                system_id,
                event,
            )[k].handler == handlers[places[k]].invoker(),
        forall|j: int, k: int| 0 <= j < k < places.len() ==> places[j] < places[k],
        forall|p: int|
            0 <= p < handlers.len() && (#[trigger] handlers[p]).event() == event
                ==> places.contains(p),
    decreases handlers.len(),
{
    if handlers.len() == 0 {
        Seq::empty()
    } else {
        let shorter = handlers.drop_last();
        let rest = law_handlers_in_list_order(shorter, system_id, event);
        let last = handlers.len() - 1;
        assert forall|k: int| 0 <= k < rest.len() implies handlers[#[trigger] rest[k]]
            == shorter[rest[k]] by {}
        if handlers.last().event() == event {
            let places = rest.push(last);
            assert forall|p: int|
                0 <= p < handlers.len() && (#[trigger] handlers[p]).event()
                    == event implies places.contains(p) by {
                if p < last {
                    assert(shorter[p].event() == event);
                    let k = choose|k: int| 0 <= k < rest.len() && rest[k] == p;
                    assert(places[k] == p);
                } else {
                    assert(places[rest.len() as int] == p);
                }
            }
            places
        } else {
            assert forall|p: int|
                0 <= p < handlers.len() && (#[trigger] handlers[p]).event()
                    == event implies rest.contains(p) by {
                assert(shorter[p].event() == event);
            }
            rest
        }
    }
}

/// The handlers that respond to an event are all that the systems have for it, each once: system by
/// system, and in the order of each handlers list. Each stands for the system in whose list it is.
pub proof fn law_handlers_are_those_of_the_systems(
    systems: Seq<SystemDescriptor>,
    event: ConstTypeId,
) -> (places: Seq<(int, int)>)
    requires
        systems.len() <= u16::MAX,
    ensures
        places.len() == all_responding(systems, event).len(),
        forall|k: int|
            0 <= k < places.len() ==> {
                let (system, place) = #[trigger] places[k];
                let handlers = systems[system].event_handlers@;
                let entry = all_responding(systems, event)[k];
                &&& 0 <= system < systems.len()
                &&& 0 <= place < handlers.len()
                &&& handlers[place].event() == event
                &&& entry.handler == handlers[place].invoker()
                &&& entry.system_id == system
            },
        forall|j: int, k: int|
            0 <= j < k < places.len() ==> (#[trigger] places[j]).0 < (#[trigger] places[k]).0 || (
            places[j].0 == places[k].0 && places[j].1 < places[k].1),
        forall|system: int, place: int|
            0 <= system < systems.len() && 0 <= place < systems[system].event_handlers@.len() && (
            #[trigger] systems[system].event_handlers@[place]).event() == event
                ==> places.contains((system, place)),
    decreases systems.len(),
{
    if systems.len() == 0 {
        Seq::empty()
    } else {
        let shorter = systems.drop_last();
        let last = systems.len() - 1;
        let handlers = systems.last().event_handlers@;
        let rest = law_handlers_are_those_of_the_systems(shorter, event);
        let own = law_handlers_in_list_order(handlers, last as u16, event);
        lemma_responding_system(handlers, last as u16, event);
        let added = Seq::new(own.len(), |k: int| (last, own[k]));
        let places = rest + added;
        assert forall|k: int| 0 <= k < places.len() implies ({
            let (system, place) = #[trigger] places[k];
            let handlers = systems[system].event_handlers@;
            let entry = all_responding(systems, event)[k];
            &&& 0 <= system < systems.len()
            &&& 0 <= place < handlers.len()
            &&& handlers[place].event() == event
            &&& entry.handler == handlers[place].invoker()
            &&& entry.system_id == system
        }) by {
            if k < rest.len() {
                assert(places[k] == rest[k]);
                assert(shorter[rest[k].0] == systems[rest[k].0]);
            } else {
                let j = k - rest.len();
                assert(places[k] == (last, own[j]));
            }
        }
        assert forall|j: int, k: int| 0 <= j < k < places.len() implies (
        #[trigger] places[j]).0 < (#[trigger] places[k]).0 || (places[j].0 == places[k].0
            && places[j].1 < places[k].1) by {
            if k < rest.len() {
                assert(places[j] == rest[j] && places[k] == rest[k]);
            } else if j < rest.len() {
                assert(places[j] == rest[j]);
            } else {
                assert(own[j - rest.len()] < own[k - rest.len()]);
            }
        }
        assert forall|system: int, place: int|
            0 <= system < systems.len() && 0 <= place < systems[system].event_handlers@.len() && (
            #[trigger] systems[system].event_handlers@[place]).event()
                == event implies places.contains((system, place)) by {
            if system < last {
                assert(shorter[system].event_handlers@[place].event() == event);
                let k = choose|k: int| 0 <= k < rest.len() && rest[k] == (system, place);
                assert(places[k] == (system, place));
            } else {
                assert(handlers[place].event() == event);
                let k = choose|k: int| 0 <= k < own.len() && own[k] == place;
                assert(places[rest.len() + k] == (system, place));
            }
        }
        places
    }
}

} // verus!
