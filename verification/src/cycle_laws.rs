//! Laws of whole event cycles.
use crate::cycle::bag;
use crate::cycle::bare;
use crate::cycle::begin;
use crate::cycle::handlers_for;
use crate::cycle::planned;
use crate::cycle::undelayed;
use crate::cycle::Cycle;
use crate::cycle::Processed;
use crate::cycle::Step;
use crate::cycle::Turn;
use crate::cycle_nesting::lemma_beneath_all;
use crate::cycle_nesting::lemma_cycles_are_nested;
use crate::cycle_order::lemma_cycles_are_ordered;
use crate::cycle_record::events_of;
use crate::cycle_record::grown;
use crate::cycle_record::lemma_asked;
use crate::cycle_record::lemma_cycles_are_consistent;
use crate::cycle_record::lemma_ended;
use crate::cycle_record::lemma_pull;
use crate::cycle_record::lemma_push_contains;
use crate::cycle_record::lemma_resumed;
use crate::cycle_record::logs_grown;
use crate::event_manager::job_for;
use crate::event_map::all_responding;
use crate::event_map::law_handlers_in_list_order;
use crate::event_map::law_handlers_in_system_order;
use crate::event_map::lemma_responding_system;
use crate::event_map::lemma_responding_within;
use crate::event_map::responding;
use crate::event_map::EventHandlerEntry;
use crate::events::clogs;
use crate::events::EventValue;
use crate::graph::lemma_reaches_backward;
use crate::graph::reaches;
use crate::pipeline::lemma_first_selectable;
use crate::pipeline::lemma_queue_keeps;
use crate::pipeline::next;
use crate::pipeline::queue;
use crate::pipeline::EventJobError;
use crate::pipeline::Pipeline;
use crate::pipeline::Plan;
use vstd::prelude::*;

verus! {

/// Every event is handled once: when a cycle has come to rest, each handler that responds to an
/// event, among the systems that were loaded at its turn, was given to a thread once and has run to
/// completion, and no other handler was; each request was carried out once; and once the queues are
/// empty, the events whose turn has come are exactly those that entered the cycle, each as often as
/// it did.
pub proof fn law_events_are_handled_once(
    plan: Plan,
    start: int,
    events: Seq<EventValue>,
    steps: Seq<Step>,
)
    requires
        planned(plan),
        isize::MIN <= start < isize::MAX,
        begin(plan, start, events).allows_all(steps),
        begin(plan, start, events).after(steps).pipeline.nodes.len() == 0,
        begin(plan, start, events).after(steps).pipeline.clogged is None,
    ensures
        ({
            let cycle = begin(plan, start, events).after(steps);
            &&& forall|number: int, k: int|
                #![trigger cycle.turns[cycle.processed[number].first + k]]
                0 <= number < cycle.processed.len() && 0 <= k < handlers_for(
                    cycle.processed[number],
                ).len() ==> {
                    let place = cycle.processed[number].first + k;
                    &&& 0 <= place < cycle.turns.len()
                    &&& cycle.turns[place] == (Turn {
                        origin: Some(number),
                        handler: handlers_for(cycle.processed[number])[k],
                    })
                    &&& cycle.given.contains(place)
                    &&& cycle.finished.contains(place)
                }
            &&& cycle.given.no_duplicates()
            &&& forall|i: int|
                0 <= i < cycle.given.len() ==> {
                    let turn = cycle.turns[#[trigger] cycle.given[i]];
                    let number = turn.origin->Some_0;
                    &&& 0 <= cycle.given[i] < cycle.turns.len()
                    &&& turn.origin is Some
                    &&& cycle.turn_recorded(turn, cycle.given[i])
                    &&& 0 <= number < cycle.processed.len()
                    &&& cycle.processed[number].first <= cycle.given[i]
                        < cycle.processed[number].first + handlers_for(
                        cycle.processed[number],
                    ).len()
                }
            &&& cycle.carried.no_duplicates()
            &&& forall|number: int| #[trigger]
                cycle.carried.contains(number) <==> (0 <= number < cycle.processed.len() && clogs(
                    cycle.processed[number].event,
                ))
            &&& cycle.pipeline.lists.len() == 0 ==> bag(cycle.entered) == bag(
                events_of(cycle.processed),
            )
        }),
{
    let cycle = begin(plan, start, events).after(steps);
    lemma_cycles_are_consistent(plan, start, events, steps);
    assert forall|number: int, k: int|
        #![trigger cycle.turns[cycle.processed[number].first + k]]
        0 <= number < cycle.processed.len() && 0 <= k < handlers_for(
            cycle.processed[number],
        ).len() implies ({
        let place = cycle.processed[number].first + k;
        &&& 0 <= place < cycle.turns.len()
        &&& cycle.turns[place] == (Turn {
            origin: Some(number),
            handler: handlers_for(cycle.processed[number])[k],
        })
        &&& cycle.given.contains(place)
        &&& cycle.finished.contains(place)
    }) by {
        assert(cycle.event_recorded(number));
    }
    assert forall|i: int| 0 <= i < cycle.given.len() implies cycle.turn_recorded(
        cycle.turns[#[trigger] cycle.given[i]],
        cycle.given[i],
    ) by {
        assert(cycle.turn_recorded(cycle.turns[cycle.given[i]], cycle.given[i]));
    }
    assert forall|number: int| #[trigger]
        cycle.carried.contains(number) <==> (0 <= number < cycle.processed.len() && clogs(
            cycle.processed[number].event,
        )) by {
        if cycle.carried.contains(number) {
            let i = choose|i: int| 0 <= i < cycle.carried.len() && cycle.carried[i] == number;
            assert(cycle.carried[i] == number);
        }
    }
    if cycle.pipeline.lists.len() == 0 {
        assert(bag(cycle.entered) =~= bag(events_of(cycle.processed)));
    }
}

/// Events are processed in the order in which they come into a queue: of two events in a queue, the
/// turns of the handlers for the first come before those for the second; and no handler for the
/// second was given to a thread before those for the first have run to completion that belong to
/// the same system, to its dependencies or to its dependents, or that are from before a request.
pub proof fn law_first_in_first_out(
    plan: Plan,
    start: int,
    events: Seq<EventValue>,
    steps: Seq<Step>,
    queue: int,
    i: int,
    j: int,
    p: int,
    q: int,
)
    requires
        planned(plan),
        isize::MIN <= start < isize::MAX,
        begin(plan, start, events).allows_all(steps),
        ({
            let cycle = begin(plan, start, events).after(steps);
            &&& 0 <= queue < cycle.queues.len()
            &&& 0 <= i < j < cycle.queues[queue].taken.len()
            &&& 0 <= p < cycle.turns.len()
            &&& 0 <= q < cycle.turns.len()
            &&& cycle.turns[p].origin == Some(cycle.queues[queue].taken[i])
            &&& cycle.turns[q].origin == Some(cycle.queues[queue].taken[j])
        }),
    ensures
        ({
            let cycle = begin(plan, start, events).after(steps);
            let first = cycle.processed[cycle.queues[queue].taken[i]];
            let second = cycle.processed[cycle.queues[queue].taken[j]];
            let a = cycle.turns[p].handler.system_id as int;
            let b = cycle.turns[q].handler.system_id as int;
            &&& first.event == cycle.queues[queue].arrived[i]
            &&& second.event == cycle.queues[queue].arrived[j]
            &&& cycle.event_at(p) == first
            &&& cycle.event_at(q) == second
            &&& p < q
            &&& cycle.given.contains(q) && cycle.waits_for(q, p) ==> cycle.finished.contains(p)
            &&& cycle.given.contains(q) && (first.epoch < second.epoch || reaches(
                second.plan.graph,
                false,
                a,
                b,
            ) || reaches(second.plan.graph, false, b, a)) ==> cycle.finished.contains(p)
        }),
{
    let cycle = begin(plan, start, events).after(steps);
    lemma_cycles_are_consistent(plan, start, events, steps);
    assert(cycle.queue_recorded(cycle.queues[queue]));
    let first = cycle.queues[queue].taken[i];
    let second = cycle.queues[queue].taken[j];
    assert(first < second);
    assert(cycle.turn_recorded(cycle.turns[p], p));
    assert(cycle.turn_recorded(cycle.turns[q], q));
    assert(cycle.processed[first].first + handlers_for(cycle.processed[first]).len()
        <= cycle.processed[second].first);
    if cycle.given.contains(q) && cycle.waits_for(q, p) {
        assert(cycle.turns[p].origin is Some);
    }
    assert(cycle.event_at(p) == cycle.processed[first]);
    assert(cycle.event_at(q) == cycle.processed[second]);
}

/// Events come into a queue in order: the events that a cycle begins with come first into its own
/// queue, and what comes into a queue later comes behind all that has come before.
pub proof fn law_events_come_in_order(
    plan: Plan,
    start: int,
    events: Seq<EventValue>,
    steps: Seq<Step>,
)
    requires
        planned(plan),
        isize::MIN <= start < isize::MAX,
        begin(plan, start, events).allows_all(steps),
    ensures
        begin(plan, start, events).after(steps).queues.len() > 0,
        grown(undelayed(events), begin(plan, start, events).after(steps).queues[0].arrived),
        undelayed(events).is_prefix_of(begin(plan, start, events).after(steps).queues[0].arrived),
        steps.len() > 0 ==> logs_grown(
            begin(plan, start, events).after(steps.drop_last()).queues,
            begin(plan, start, events).after(steps).queues,
        ),
        steps.len() > 0 ==> ({
            let before = begin(plan, start, events).after(steps.drop_last()).queues;
            let after = begin(plan, start, events).after(steps).queues;
            &&& before.len() <= after.len()
            &&& forall|u: int|
                0 <= u < before.len() ==> (#[trigger] before[u]).arrived.is_prefix_of(
                    after[u].arrived,
                )
        }),
    decreases steps.len(),
{
    let first = begin(plan, start, events);
    if steps.len() > 0 {
        let before = first.after(steps.drop_last());
        let after = first.after(steps);
        law_events_come_in_order(plan, start, events, steps.drop_last());
        lemma_cycles_are_consistent(plan, start, events, steps.drop_last());
        match steps.last() {
            Step::Ask { main_thread } => {
                lemma_asked(&before, main_thread);
            },
            Step::Finish { id, emitted } => {
                lemma_ended(&before, id, emitted);
            },
            Step::CarryOut { plan, start, raised } => {
                lemma_resumed(&before, plan, start, raised);
            },
        }
        assert(grown(before.queues[0].arrived, after.queues[0].arrived));
        assert forall|i: int| 0 <= i < undelayed(events).len() implies
            #[trigger] after.queues[0].arrived[i] == undelayed(events)[i] by {
            assert(before.queues[0].arrived[i] == undelayed(events)[i]);
        }
        assert forall|u: int| 0 <= u < before.queues.len() implies (
        #[trigger] before.queues[u]).arrived.is_prefix_of(after.queues[u].arrived) by {
            lemma_grown_prefix(before.queues[u].arrived, after.queues[u].arrived);
        }
    }
    lemma_grown_prefix(undelayed(events), first.after(steps).queues[0].arrived);
}

/// A sequence that has grown begins with what it was.
proof fn lemma_grown_prefix(before: Seq<EventValue>, after: Seq<EventValue>)
    requires
        grown(before, after),
    ensures
        before.is_prefix_of(after),
{
    assert(after.subrange(0, before.len() as int) =~= before);
}

/// The events that a handler raises come into one queue, one behind the other in the order in which
/// they were raised, as soon as its node does not keep them any more.
pub proof fn law_raised_events_keep_their_order(
    plan: Plan,
    start: int,
    events: Seq<EventValue>,
    steps: Seq<Step>,
    place: int,
) -> (position: (int, int))
    requires
        planned(plan),
        isize::MIN <= start < isize::MAX,
        begin(plan, start, events).allows_all(steps),
        begin(plan, start, events).after(steps).finished.contains(place),
        ({
            let cycle = begin(plan, start, events).after(steps);
            let left = cycle.turns.len() - cycle.pipeline.nodes.len();
            place < left || cycle.pipeline.nodes[place - left].emitted != cycle.raised[place]
        }),
    ensures
        ({
            let cycle = begin(plan, start, events).after(steps);
            let came = undelayed(cycle.raised[place]);
            let (queue, at) = position;
            &&& cycle.raised.dom().contains(place)
            &&& cycle.came(came, queue, at)
            &&& 0 <= queue < cycle.queues.len()
            &&& 0 <= at <= at + came.len() <= cycle.queues[queue].arrived.len()
            &&& cycle.queues[queue].arrived.subrange(at, at + came.len()) == came
        }),
{
    let cycle = begin(plan, start, events).after(steps);
    lemma_cycles_are_consistent(plan, start, events, steps);
    assert(cycle.raise_recorded(place));
    let came = undelayed(cycle.raised[place]);
    let (queue, at) = choose|queue: int, at: int| #[trigger] cycle.came(came, queue, at);
    let arrived = cycle.queues[queue].arrived;
    assert forall|i: int| 0 <= i < came.len() implies arrived.subrange(at, at + came.len())[i]
        == came[i] by {
        assert(cycle.queues[queue].arrived[at + i] == came[i]);
    }
    assert(arrived.subrange(at, at + came.len()) =~= came);
    (queue, at)
}

/// The events of a sequence that are not delayed are all that there are, each once and in order.
pub proof fn law_undelayed_events_keep_their_order(events: Seq<EventValue>) -> (places: Seq<int>)
    ensures
        places.len() == undelayed(events).len(),
        forall|k: int|
            0 <= k < places.len() ==> 0 <= #[trigger] places[k] < events.len() && !(
            events[places[k]] is Delayed) && undelayed(events)[k] == events[places[k]],
        forall|j: int, k: int| 0 <= j < k < places.len() ==> places[j] < places[k],
        forall|i: int|
            0 <= i < events.len() && !((#[trigger] events[i]) is Delayed) ==> places.contains(i),
    decreases events.len(),
{
    if events.len() == 0 {
        Seq::empty()
    } else {
        let shorter = law_undelayed_events_keep_their_order(events.drop_last());
        let last = events.len() - 1;
        let places = if events.last() is Delayed {
            shorter
        } else {
            shorter.push(last)
        };
        assert forall|i: int|
            0 <= i < events.len() && !((#[trigger] events[i]) is Delayed) implies places.contains(
            i,
        ) by {
            if i < last {
                assert(events.drop_last()[i] == events[i]);
                let k = choose|k: int| 0 <= k < shorter.len() && shorter[k] == i;
                assert(places[k] == i);
            } else {
                assert(places[shorter.len() as int] == i);
            }
        }
        places
    }
}

/// What is raised for an event comes before what is raised for later ones, whichever handlers run
/// first: of two turns that are for different events, in that order, the events that were raised in
/// the former come into the queue before all those that were raised in the latter, unless they came
/// into different queues. That holds as soon as the node of the latter turn does not keep its events
/// any more; then that of the former does not, either.
pub proof fn law_raised_events_come_in_turn(
    plan: Plan,
    start: int,
    events: Seq<EventValue>,
    steps: Seq<Step>,
    p: int,
    q: int,
) -> (found: ((int, int), (int, int)))
    requires
        planned(plan),
        isize::MIN <= start < isize::MAX,
        begin(plan, start, events).allows_all(steps),
        ({
            let cycle = begin(plan, start, events).after(steps);
            let left = cycle.turns.len() - cycle.pipeline.nodes.len();
            &&& cycle.finished.contains(p)
            &&& cycle.finished.contains(q)
            &&& cycle.turns[p].origin->Some_0 < cycle.turns[q].origin->Some_0
            &&& q < left || cycle.pipeline.nodes[q - left].emitted != cycle.raised[q]
        }),
    ensures
        ({
            let cycle = begin(plan, start, events).after(steps);
            let first = undelayed(cycle.raised[p]);
            let second = undelayed(cycle.raised[q]);
            let ((u, a), (v, b)) = found;
            &&& 0 <= u < cycle.queues.len()
            &&& 0 <= v < cycle.queues.len()
            &&& 0 <= a <= a + first.len() <= cycle.queues[u].arrived.len()
            &&& 0 <= b <= b + second.len() <= cycle.queues[v].arrived.len()
            &&& cycle.queues[u].arrived.subrange(a, a + first.len()) == first
            &&& cycle.queues[v].arrived.subrange(b, b + second.len()) == second
            &&& u == v ==> a + first.len() <= b
        }),
{
    let cycle = begin(plan, start, events).after(steps);
    let first = undelayed(cycle.raised[p]);
    let second = undelayed(cycle.raised[q]);
    lemma_cycles_are_ordered(plan, start, events, steps);
    assert(cycle.came_before(p, q));
    let (u, a, v, b) = choose|u: int, a: int, v: int, b: int|
        {
            &&& #[trigger] cycle.came(first, u, a)
            &&& #[trigger] cycle.came(second, v, b)
            &&& u == v ==> a + first.len() <= b
        };
    assert(cycle.queues[u].arrived.subrange(a, a + first.len()) =~= first) by {
        assert forall|i: int| 0 <= i < first.len() implies cycle.queues[u].arrived.subrange(
            a,
            a + first.len(),
        )[i] == first[i] by {
            assert(cycle.queues[u].arrived[a + i] == first[i]);
        }
    }
    assert(cycle.queues[v].arrived.subrange(b, b + second.len()) =~= second) by {
        assert forall|i: int| 0 <= i < second.len() implies cycle.queues[v].arrived.subrange(
            b,
            b + second.len(),
        )[i] == second[i] by {
            assert(cycle.queues[v].arrived[b + i] == second[i]);
        }
    }
    ((u, a), (v, b))
}

/// Embedded cycles are processed before anything that follows them. A queue that a request has put
/// on the stack begins with the events of that request. What is taken from it, or from a queue that
/// is put on the stack above it, gets a number above that of the request; and by the time at which
/// anything more is taken from a queue below, that has got a lower number, and all handlers for it
/// have run to completion.
pub proof fn law_embedded_cycles_come_first(
    plan: Plan,
    start: int,
    events: Seq<EventValue>,
    steps: Seq<Step>,
    below: int,
    queue: int,
    above: int,
    x: int,
    y: int,
)
    requires
        planned(plan),
        isize::MIN <= start < isize::MAX,
        begin(plan, start, events).allows_all(steps),
        ({
            let cycle = begin(plan, start, events).after(steps);
            &&& 0 <= queue < cycle.queues.len()
            &&& 0 <= above < cycle.queues.len()
            &&& cycle.queues[queue].beneath.contains(below)
            &&& above == queue || cycle.queues[above].beneath.contains(queue)
            &&& cycle.queues[above].taken.contains(x)
            &&& cycle.queues[below].taken.contains(y)
        }),
    ensures
        ({
            let cycle = begin(plan, start, events).after(steps);
            let request = cycle.queues[queue].request->Some_0;
            &&& cycle.queues[queue].request is Some
            &&& 0 <= request < cycle.processed.len()
            &&& cycle.processed[request].event is Flush
            &&& grown(
                undelayed(cycle.processed[request].event->Flush_0.events@),
                cycle.queues[queue].arrived,
            )
            &&& undelayed(cycle.processed[request].event->Flush_0.events@).is_prefix_of(
                cycle.queues[queue].arrived,
            )
            &&& request < x
            &&& request < y ==> x < y && cycle.event_finished(x)
            &&& request < y ==> forall|h: int|
                0 <= h < cycle.turns.len() && (#[trigger] cycle.turns[h]).origin == Some(x)
                    ==> cycle.finished.contains(h)
        }),
    decreases above,
{
    let cycle = begin(plan, start, events).after(steps);
    lemma_cycles_are_nested(plan, start, events, steps);
    assert(cycle.log_nested(queue));
    assert(cycle.log_nested(above));
    assert(cycle.apart(queue, below));
    let request = cycle.queues[queue].request->Some_0;
    lemma_grown_prefix(
        undelayed(cycle.processed[request].event->Flush_0.events@),
        cycle.queues[queue].arrived,
    );
    if above == queue {
        let taken = cycle.queues[queue].taken;
        let i = choose|i: int| 0 <= i < taken.len() && taken[i] == x;
        assert(request < taken[i]);
    } else {
        // The request that put the upper queue there was taken from the one right below it.
        let next_below = cycle.queues[above].beneath.last();
        let next_request = cycle.queues[above].request->Some_0;
        let rest = cycle.queues[next_below].beneath;
        assert(cycle.queues[above].beneath[cycle.queues[above].beneath.len() - 1] == next_below);
        lemma_push_contains(rest, next_below);
        assert(next_below == queue || rest.contains(queue));
        law_embedded_cycles_come_first(
            plan,
            start,
            events,
            steps,
            below,
            queue,
            next_below,
            next_request,
            y,
        );
        let taken = cycle.queues[above].taken;
        let i = choose|i: int| 0 <= i < taken.len() && taken[i] == x;
        assert(next_request < taken[i]);
        lemma_beneath_all(&cycle, below, queue, above);
        assert(cycle.apart(above, below));
    }
}

/// Multiple handlers for the same event on the same system are invoked in the order that they have
/// in the handlers list: each has its own turn, and the later one is not given to a thread before
/// the earlier one has run to completion.
pub proof fn law_handlers_run_in_list_order(
    plan: Plan,
    start: int,
    events: Seq<EventValue>,
    steps: Seq<Step>,
    number: int,
    system: int,
    a: int,
    b: int,
) -> (turns: (int, int))
    requires
        planned(plan),
        isize::MIN <= start < isize::MAX,
        begin(plan, start, events).allows_all(steps),
        ({
            let cycle = begin(plan, start, events).after(steps);
            let processed = cycle.processed[number];
            let handlers = processed.plan.systems[system].event_handlers@;
            &&& 0 <= number < cycle.processed.len()
            &&& processed.event is Typed
            &&& 0 <= system < processed.plan.systems.len()
            &&& 0 <= a < b < handlers.len()
            &&& handlers[a].event() == processed.event->event_type
            &&& handlers[b].event() == processed.event->event_type
        }),
    ensures
        ({
            let cycle = begin(plan, start, events).after(steps);
            let handlers = cycle.processed[number].plan.systems[system].event_handlers@;
            &&& 0 <= turns.0 < turns.1 < cycle.turns.len()
            &&& cycle.turns[turns.0] == (Turn {
                origin: Some(number),
                handler: EventHandlerEntry {
                    handler: handlers[a].invoker(),
                    system_id: system as u16,
                },
            })
            &&& cycle.turns[turns.1] == (Turn {
                origin: Some(number),
                handler: EventHandlerEntry {
                    handler: handlers[b].invoker(),
                    system_id: system as u16,
                },
            })
            &&& cycle.given.contains(turns.1) ==> cycle.finished.contains(turns.0)
        }),
{
    let cycle = begin(plan, start, events).after(steps);
    let processed = cycle.processed[number];
    let systems = processed.plan.systems;
    let handlers = systems[system].event_handlers@;
    let event = processed.event->event_type;
    lemma_cycles_are_consistent(plan, start, events, steps);
    let own = responding(handlers, system as u16, event);
    let places = law_handlers_in_list_order(handlers, system as u16, event);
    assert(places.contains(a) && places.contains(b));
    let j = choose|j: int| 0 <= j < places.len() && places[j] == a;
    let k = choose|k: int| 0 <= k < places.len() && places[k] == b;
    if k <= j {
        assert(places[k] <= places[j]);
    }
    lemma_responding_system(handlers, system as u16, event);
    lemma_responding_within(systems, event, system, j);
    lemma_responding_within(systems, event, system, k);
    let offset = all_responding(systems.take(system), event).len();
    let p = processed.first + offset + j;
    let q = processed.first + offset + k;
    assert(cycle.event_recorded(number));
    assert(cycle.turns[processed.first + (offset + j)].handler == own[j]);
    assert(cycle.turns[processed.first + (offset + k)].handler == own[k]);
    if cycle.given.contains(q) {
        assert(cycle.turns[p].origin is Some);
        assert(cycle.waits_for(q, p));
    }
    (p, q)
}

/// When processing a single event, the handlers of dependencies are invoked before those of
/// dependents: a handler of a dependent is not given to a thread before all handlers that its
/// dependencies have for the event have run to completion.
pub proof fn law_dependencies_run_first(
    plan: Plan,
    start: int,
    events: Seq<EventValue>,
    steps: Seq<Step>,
    p: int,
    q: int,
)
    requires
        planned(plan),
        isize::MIN <= start < isize::MAX,
        begin(plan, start, events).allows_all(steps),
        ({
            let cycle = begin(plan, start, events).after(steps);
            &&& 0 <= p < cycle.turns.len()
            &&& 0 <= q < cycle.turns.len()
            &&& cycle.turns[p].origin is Some
            &&& cycle.turns[q].origin == cycle.turns[p].origin
            &&& cycle.turns[q].handler.system_id != cycle.turns[p].handler.system_id
            &&& reaches(
                cycle.event_at(q).plan.graph,
                false,
                cycle.turns[q].handler.system_id as int,
                cycle.turns[p].handler.system_id as int,
            )
        }),
    ensures
        p < q,
        begin(plan, start, events).after(steps).given.contains(q) ==> begin(
            plan,
            start,
            events,
        ).after(steps).finished.contains(p),
{
    let cycle = begin(plan, start, events).after(steps);
    let number = cycle.turns[p].origin->Some_0;
    let processed = cycle.processed[number];
    lemma_cycles_are_consistent(plan, start, events, steps);
    assert(cycle.turn_recorded(cycle.turns[p], p));
    assert(cycle.turn_recorded(cycle.turns[q], q));
    assert(cycle.event_recorded(number));
    assert(cycle.turns[processed.first + (p - processed.first)].handler == handlers_for(
        processed,
    )[p - processed.first]);
    assert(cycle.turns[processed.first + (q - processed.first)].handler == handlers_for(
        processed,
    )[q - processed.first]);
    lemma_reaches_backward(
        processed.plan.graph,
        false,
        cycle.turns[q].handler.system_id as int,
        cycle.turns[p].handler.system_id as int,
    );
    if processed.event is Typed {
        law_handlers_in_system_order(processed.plan.systems, processed.event->event_type);
    }
    if cycle.given.contains(q) {
        assert(cycle.waits_for(q, p));
    }
}

/// What a thread is given when it asks for a job is the turn of the handler and of the event of that
/// job, and no turn that was given out before.
pub proof fn law_jobs_are_turns(
    plan: Plan,
    start: int,
    events: Seq<EventValue>,
    steps: Seq<Step>,
    main_thread: bool,
)
    requires
        planned(plan),
        isize::MIN <= start < isize::MAX,
        begin(plan, start, events).allows_all(steps),
        begin(plan, start, events).after(steps).allows(Step::Ask { main_thread }),
    ensures
        ({
            let cycle = begin(plan, start, events).after(steps);
            let (pipeline, result) = next(cycle.plan, main_thread, cycle.pipeline);
            let asked = cycle.advance(Step::Ask { main_thread });
            &&& asked.pipeline == pipeline
            &&& match result {
                Ok(id) => {
                    let place = asked.base() + id - pipeline.start;
                    let job = job_for(pipeline.nodes[id - pipeline.start], id);
                    &&& asked.given == cycle.given.push(place)
                    &&& !cycle.given.contains(place)
                    &&& asked.turns[place].handler == job.handler
                    &&& place == asked.turns.len() - pipeline.nodes.len() + (id - pipeline.start)
                    &&& job.handler == pipeline.nodes[id - pipeline.start].handler
                    &&& asked.event_at(place).event == EventValue::Typed {
                        event_type: job.event.event_type,
                        payload: job.event.payload,
                    }
                    &&& asked.processed[asked.turns[place].origin->Some_0].event
                        == EventValue::Typed {
                        event_type: job.event.event_type,
                        payload: job.event.payload,
                    }
                },
                Err(_) => asked.given == cycle.given,
            }
        }),
{
    let cycle = begin(plan, start, events).after(steps);
    let (pipeline, result) = next(cycle.plan, main_thread, cycle.pipeline);
    let asked = cycle.asked(main_thread);
    lemma_cycles_are_consistent(plan, start, events, steps);
    lemma_asked(&cycle, main_thread);
    lemma_first_selectable(cycle.plan, main_thread, cycle.pipeline.nodes, 0);
    if cycle.pipeline.clogged is None {
        lemma_pull(&cycle, main_thread);
    }
    lemma_queue_keeps(
        cycle.plan,
        main_thread,
        cycle.pipeline.lists,
        cycle.pipeline.nodes,
        cycle.pipeline.start,
    );
    match result {
        Ok(id) => {
            let k = id - pipeline.start;
            let place = asked.base() + k;
            assert(0 <= k < pipeline.nodes.len());
            assert(asked.node_recorded(k));
            assert(asked.given == cycle.given.push(place));
            if cycle.given.contains(place) {
                let i = choose|i: int| 0 <= i < cycle.given.len() && cycle.given[i] == place;
                assert(asked.given[i] == asked.given[cycle.given.len() as int]);
            }
        },
        Err(_) => {},
    }
}

/// A cycle that begins with no events is over at once: a thread that asks for a job is told that all
/// is complete, no event comes to its turn, no request comes up, and no queue is left.
pub proof fn law_empty_cycles_do_nothing(plan: Plan, start: int, main_thread: bool)
    ensures
        ({
            let cycle = begin(plan, start, Seq::empty());
            let asked = cycle.advance(Step::Ask { main_thread });
            &&& next(plan, main_thread, cycle.pipeline) == (
                Pipeline { lists: Seq::empty(), ..cycle.pipeline },
                Err::<int, EventJobError>(EventJobError::Complete),
            )
            &&& asked.processed.len() == 0
            &&& asked.given.len() == 0
            &&& asked.carried.len() == 0
            &&& asked.pipeline.clogged is None
        }),
{
    let cycle = begin(plan, start, Seq::empty());
    reveal_with_fuel(queue, 3);
    reveal_with_fuel(Cycle::pull, 3);
    assert(cycle.pipeline.lists.drop_last() =~= Seq::empty());
}

/// The handlers that get a turn for an event are those that respond to its type, among the systems
/// that were loaded at its turn. Requests are not handled by systems.
pub proof fn law_turns_are_for_responding_handlers(processed: Processed)
    ensures
        handlers_for(processed) == match processed.event {
            EventValue::Typed { event_type, payload } => all_responding(
                processed.plan.systems,
                event_type,
            ),
            _ => Seq::empty(),
        },
{
}

/// An event without the delays around it is not delayed, is the event itself if that is not delayed,
/// and does not change if there is one more delay around it.
pub proof fn law_delays_can_be_taken_off(event: EventValue)
    ensures
        !(bare(event) is Delayed),
        !(event is Delayed) ==> bare(event) == event,
        bare(EventValue::Delayed(Box::new(event))) == bare(event),
    decreases event,
{
    if let EventValue::Delayed(inner) = event {
        law_delays_can_be_taken_off(*inner);
    }
}

/// How often an event occurs among some events is the number of places at which it stands, with or
/// without delays around it.
pub proof fn law_events_are_counted(events: Seq<EventValue>, event: EventValue)
    ensures
        Set::new(|i: int| 0 <= i < events.len() && bare(events[i]) == event).finite(),
        bag(events).count(event) == Set::new(
            |i: int| 0 <= i < events.len() && bare(events[i]) == event,
        ).len(),
    decreases events.len(),
{
    let places = Set::new(|i: int| 0 <= i < events.len() && bare(events[i]) == event);
    if events.len() == 0 {
        assert(places =~= Set::empty());
    } else {
        let shorter = events.drop_last();
        let last = events.len() - 1;
        law_events_are_counted(shorter, event);
        let fewer = Set::new(|i: int| 0 <= i < shorter.len() && bare(shorter[i]) == event);
        assert forall|i: int| 0 <= i < shorter.len() implies shorter[i] == events[i] by {}
        if bare(events.last()) == event {
            assert(places =~= fewer.insert(last));
        } else {
            assert(places =~= fewer);
        }
    }
}

} // verus!
