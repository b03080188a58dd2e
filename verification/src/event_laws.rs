//! What holds of event processing as a whole.
use crate::context::shareable;
use crate::event_map::all_responding;
use crate::event_node::completed_node;
use crate::event_node::queued_node;
use crate::event_node::EventState;
use crate::event_node::NodeView;
use crate::event_node::SharedEvent;
use crate::events::clogs;
use crate::events::lemma_weight_first;
use crate::events::lemma_weight_push;
use crate::events::total_weight;
use crate::events::EventValue;
use crate::graph::lemma_reaches_backward;
use crate::graph::reaches;
use crate::graph::Link;
use crate::pipeline::all_emitted;
use crate::pipeline::complete;
use crate::pipeline::conflict;
use crate::pipeline::contended;
use crate::pipeline::fan_out;
use crate::pipeline::first_selectable;
use crate::pipeline::leading_complete;
use crate::pipeline::lemma_emitted_within;
use crate::pipeline::lemma_first_selectable;
use crate::pipeline::lemma_leading_complete_is;
use crate::pipeline::lemma_next_wf;
use crate::pipeline::lemma_queue_keeps;
use crate::pipeline::lemma_queue_wf;
use crate::pipeline::next;
use crate::pipeline::node_wf;
use crate::pipeline::precedes;
use crate::pipeline::queue;
use crate::pipeline::ready;
use crate::pipeline::related;
use crate::pipeline::runnable;
use crate::pipeline::running;
use crate::pipeline::taken;
use crate::pipeline::with_top;
use crate::pipeline::EventJobError;
use crate::pipeline::Pipeline;
use crate::pipeline::Plan;
use vstd::prelude::*;

verus! {

/// A system conflicts with everything that it depends on, with everything that depends on it, and
/// with itself.
pub proof fn law_related_systems_conflict(graph: Seq<Seq<Link>>, a: int, b: int)
    requires
        0 <= a < graph.len(),
        0 <= b < graph.len(),
        related(graph, a, b),
    ensures
        conflict(graph, a, b),
        conflict(graph, b, a),
{
    assert(reaches(graph, true, b, b));
    assert(contended(graph, a, b, b));
    assert(contended(graph, b, a, b));
}

/// Which systems conflict does not rest on which of them is named first.
pub proof fn law_conflict_is_symmetric(graph: Seq<Seq<Link>>, a: int, b: int)
    ensures
        conflict(graph, a, b) == conflict(graph, b, a),
{
    if conflict(graph, a, b) {
        let s = choose|s: int| 0 <= s < graph.len() && #[trigger] contended(graph, a, b, s);
        assert(contended(graph, b, a, s));
    }
    if conflict(graph, b, a) {
        let s = choose|s: int| 0 <= s < graph.len() && #[trigger] contended(graph, b, a, s);
        assert(contended(graph, a, b, s));
    }
}

/// Handlers that run at the same time belong to systems that do not conflict: none of them may
/// mutably borrow what the other depends on or what depends on the other, and they are different
/// systems.
pub proof fn law_running_handlers_are_independent(
    plan: Plan,
    pipeline: Pipeline,
    j: int,
    k: int,
)
    requires
        pipeline.wf(plan),
        0 <= j < k < pipeline.nodes.len(),
        pipeline.nodes[j].state == EventState::Processing,
        pipeline.nodes[k].state == EventState::Processing,
    ensures
        !conflict(
            plan.graph,
            pipeline.nodes[j].handler.system_id as int,
            pipeline.nodes[k].handler.system_id as int,
        ),
        !conflict(
            plan.graph,
            pipeline.nodes[k].handler.system_id as int,
            pipeline.nodes[j].handler.system_id as int,
        ),
        pipeline.nodes[j].handler.system_id != pipeline.nodes[k].handler.system_id,
{
    let a = pipeline.nodes[j].handler.system_id as int;
    let b = pipeline.nodes[k].handler.system_id as int;
    law_conflict_is_symmetric(plan.graph, a, b);
    assert(node_wf(plan, pipeline.nodes[j], pipeline.start + j));
    if a == b {
        assert(reaches(plan.graph, false, a, b));
        law_related_systems_conflict(plan.graph, a, b);
    }
}

/// From the perspective of a single system, events execute serially and in order: while a handler
/// runs, all earlier handlers of its system, of its dependencies and of its dependents have run to
/// completion.
pub proof fn law_events_execute_serially(plan: Plan, pipeline: Pipeline, j: int, k: int)
    requires
        pipeline.wf(plan),
        0 <= j < k < pipeline.nodes.len(),
        pipeline.nodes[k].state == EventState::Processing,
        reaches(
            plan.graph,
            false,
            pipeline.nodes[j].handler.system_id as int,
            pipeline.nodes[k].handler.system_id as int,
        ) || reaches(
            plan.graph,
            false,
            pipeline.nodes[k].handler.system_id as int,
            pipeline.nodes[j].handler.system_id as int,
        ),
    ensures
        pipeline.nodes[j].state == EventState::Complete,
{
    let nodes = pipeline.nodes;
    if nodes[j].state != EventState::Complete {
        assert(node_wf(plan, nodes[j], pipeline.start + j));
        assert(node_wf(plan, nodes[k], pipeline.start + k));
        law_related_systems_conflict(
            plan.graph,
            nodes[j].handler.system_id as int,
            nodes[k].handler.system_id as int,
        );
    }
}

/// When processing a single event, dependencies' event handlers are always invoked before those of
/// dependents: while a handler of a dependent runs, all handlers that its dependencies have for the
/// same event have run to completion.
pub proof fn law_dependencies_handle_events_first(
    plan: Plan,
    pipeline: Pipeline,
    j: int,
    k: int,
)
    requires
        pipeline.wf(plan),
        0 <= j < pipeline.nodes.len(),
        0 <= k < pipeline.nodes.len(),
        pipeline.nodes[k].state == EventState::Processing,
        pipeline.nodes[j].event == pipeline.nodes[k].event,
        pipeline.nodes[j].handler.system_id != pipeline.nodes[k].handler.system_id,
        reaches(
            plan.graph,
            false,
            pipeline.nodes[k].handler.system_id as int,
            pipeline.nodes[j].handler.system_id as int,
        ),
    ensures
        pipeline.nodes[j].state == EventState::Complete,
        j < k,
{
    let nodes = pipeline.nodes;
    assert(node_wf(plan, nodes[k], pipeline.start + k));
    lemma_reaches_backward(
        plan.graph,
        false,
        nodes[k].handler.system_id as int,
        nodes[j].handler.system_id as int,
    );
    if k < j {
        assert(precedes(nodes[k], nodes[j]));
    } else {
        law_events_execute_serially(plan, pipeline, j, k);
    }
}

/// The nodes in progress after events have been given to their handlers one after the other, with
/// all nodes of an event before those of the next, and with a node that needs no handler for each
/// delayed event.
pub open spec fn fanned_out(
    plan: Plan,
    events: Seq<EventValue>,
    nodes: Seq<NodeView>,
    start: int,
) -> Seq<NodeView>
    decreases events.len(),
{
    if events.len() == 0 {
        nodes
    } else {
        let before = fanned_out(plan, events.drop_last(), nodes, start);
        match events.last() {
            EventValue::Typed { event_type, payload } => before + fan_out(
                SharedEvent { batch: (start + before.len()) as isize, event_type, payload },
                all_responding(plan.systems, event_type),
            ),
            EventValue::Delayed(_) => before.push(completed_node(events.last())),
            _ => before,
        }
    }
}

/// The first of some events is given to its handlers before the rest.
proof fn lemma_fanned_out_first(
    plan: Plan,
    events: Seq<EventValue>,
    nodes: Seq<NodeView>,
    start: int,
)
    requires
        events.len() > 0,
    ensures
        fanned_out(plan, events, nodes, start) == fanned_out(
            plan,
            events.drop_first(),
            fanned_out(plan, seq![events[0]], nodes, start),
            start,
        ),
    decreases events.len(),
{
    let rest = events.drop_first();
    let first = fanned_out(plan, seq![events[0]], nodes, start);
    if events.len() == 1 {
        assert(events =~= seq![events[0]]);
        assert(rest =~= Seq::empty());
    } else {
        let shorter = events.drop_last();
        lemma_fanned_out_first(plan, shorter, nodes, start);
        assert(shorter.drop_first() =~= rest.drop_last());
        assert(shorter[0] == events[0]);
        assert(rest.last() == events.last());
    }
}

/// Whether no delayed event of a queue comes up while nothing is in progress.
pub open spec fn delays_wait(
    plan: Plan,
    events: Seq<EventValue>,
    nodes: Seq<NodeView>,
    start: int,
) -> bool {
    forall|i: int|
        0 <= i < events.len() && (#[trigger] events[i]) is Delayed ==> fanned_out(
            plan,
            events.take(i),
            nodes,
            start,
        ).len() > 0
}

/// The nodes that come about for an event: one for each handler that responds to it, in order, which
/// bears the event and the index of the first of them, and waits to be run. A delayed event gets one
/// node, which is complete and keeps the event as it is. Requests get none.
pub proof fn law_events_become_nodes(
    plan: Plan,
    event: EventValue,
    nodes: Seq<NodeView>,
    start: int,
)
    ensures
        ({
            let after = fanned_out(plan, seq![event], nodes, start);
            &&& nodes.is_prefix_of(after)
            &&& match event {
                EventValue::Typed { event_type, payload } => {
                    let handlers = all_responding(plan.systems, event_type);
                    &&& after.len() == nodes.len() + handlers.len()
                    &&& forall|i: int|
                        0 <= i < handlers.len() ==> {
                            let node = #[trigger] after[nodes.len() + i];
                            &&& node.handler == handlers[i]
                            &&& node.state == EventState::Queued
                            &&& node.emitted == Seq::<EventValue>::empty()
                            &&& node.event == Some(
                                SharedEvent {
                                    batch: (start + nodes.len()) as isize,
                                    event_type,
                                    payload,
                                },
                            )
                        }
                },
                EventValue::Delayed(_) => {
                    &&& after.len() == nodes.len() + 1
                    &&& after.last().state == EventState::Complete
                    &&& after.last().emitted == seq![event]
                    &&& after.last().event is None
                },
                _ => after.len() == nodes.len(),
            }
        }),
{
    assert(seq![event].drop_last() =~= Seq::empty());
    assert(fanned_out(plan, Seq::empty(), nodes, start) == nodes);
    let after = fanned_out(plan, seq![event], nodes, start);
    assert(after.subrange(0, nodes.len() as int) =~= nodes);
}

/// Delayed events that wait also do once the first event has been moved into the pipeline.
proof fn lemma_delays_wait_first(
    plan: Plan,
    events: Seq<EventValue>,
    nodes: Seq<NodeView>,
    start: int,
)
    requires
        events.len() > 0,
        delays_wait(plan, events, nodes, start),
    ensures
        delays_wait(
            plan,
            events.drop_first(),
            fanned_out(plan, seq![events[0]], nodes, start),
            start,
        ),
{
    let rest = events.drop_first();
    let moved = fanned_out(plan, seq![events[0]], nodes, start);
    assert forall|i: int| 0 <= i < rest.len() && (#[trigger] rest[i]) is Delayed implies fanned_out(
        plan,
        rest.take(i),
        moved,
        start,
    ).len() > 0 by {
        assert(events[i + 1] is Delayed);
        let longer = events.take(i + 1);
        lemma_fanned_out_first(plan, longer, nodes, start);
        assert(longer.drop_first() =~= rest.take(i));
        assert(longer[0] == events[0]);
    }
}

/// Events are processed in the order in which they were raised: moving events into the pipeline
/// takes some first part off the top queue, and adds nodes for exactly those events, in order. It
/// stops there with a node that can be run, with an event that clogs the pipeline, or at the end of
/// the queue. Where it goes on to the queue below, none of the events had a handler. Only a delayed
/// event that comes up while nothing is in progress is taken out of this order.
pub proof fn law_events_are_queued_in_order(
    plan: Plan,
    main_thread: bool,
    lists: Seq<Seq<EventValue>>,
    nodes: Seq<NodeView>,
    start: int,
) -> (count: int)
    requires
        lists.len() > 0,
        delays_wait(plan, lists.last(), nodes, start),
    ensures
        0 <= count <= lists.last().len(),
        forall|i: int|
            0 <= i < count ==> (#[trigger] lists.last()[i]) is Typed || lists.last()[i] is Delayed,
        ({
            let queued = queue(plan, main_thread, lists, nodes, start);
            let moved = fanned_out(plan, lists.last().take(count), nodes, start);
            if queued.lists.len() < lists.len() {
                moved.len() == 0 && count == lists.last().len()
            } else {
                match queued.clogged {
                    Some(event) => {
                        &&& count < lists.last().len()
                        &&& event == lists.last()[count]
                        &&& event is AddSystem || event is RemoveSystem || event is ResetSystem
                            || event is Flush
                        &&& queued.lists == with_top(lists, lists.last().skip(count + 1))
                        &&& queued.nodes == moved
                    },
                    None => {
                        &&& queued.lists == with_top(lists, lists.last().skip(count))
                        &&& match queued.job {
                            Some(k) => queued.nodes == taken(moved, k),
                            None => queued.nodes == moved && count == lists.last().len(),
                        }
                    },
                }
            }
        }),
    decreases total_weight(lists.last()),
{
    let top = lists.last();
    assert(top.take(0) =~= Seq::empty());
    if top.len() == 0 {
        assert(with_top(lists, top.skip(0)) =~= lists) by {
            assert(top.skip(0) =~= top);
        }
        law_lower_queues_wait(plan, main_thread, lists.drop_last(), nodes, start);
        0
    } else {
        let event = top[0];
        let rest = top.drop_first();
        let later = with_top(lists, rest);
        let added = fanned_out(plan, seq![event], nodes, start);
        lemma_weight_first(top);
        lemma_delays_wait_first(plan, top, nodes, start);
        assert(top.skip(1) =~= rest);
        assert(seq![event].drop_last() =~= Seq::empty());
        assert(fanned_out(plan, Seq::empty(), nodes, start) == nodes);
        if clogs(event) {
            0
        } else if event is Typed && first_selectable(
            plan,
            main_thread,
            added,
            nodes.len() as int,
        ) is Some {
            assert(top.take(1) =~= seq![event]);
            1
        } else {
            let more = law_events_are_queued_in_order(plan, main_thread, later, added, start);
            let first = top.take(more + 1);
            lemma_fanned_out_first(plan, first, nodes, start);
            assert(first.drop_first() =~= rest.take(more));
            assert(rest.skip(more) =~= top.skip(more + 1));
            assert(with_top(later, rest.skip(more)) =~= with_top(lists, top.skip(more + 1)));
            assert forall|i: int| 0 <= i < more + 1 implies (#[trigger] top[i]) is Typed
                || top[i] is Delayed by {
                if i > 0 {
                    assert(top[i] == later.last()[i - 1]);
                }
            }
            if more < rest.len() {
                assert(rest.skip(more + 1) =~= top.skip(more + 2));
                assert(with_top(later, rest.skip(more + 1)) =~= with_top(
                    lists,
                    top.skip(more + 2),
                ));
            }
            more + 1
        }
    }
}

/// A delayed event is put off. While there are nodes in progress, it is held behind them as it is,
/// to be raised again once they are complete. When it comes up while there are none, it goes to the
/// end of the queue, behind all other events, where it counts as an event that is not delayed.
pub proof fn law_delayed_events_are_put_off(
    plan: Plan,
    main_thread: bool,
    lists: Seq<Seq<EventValue>>,
    nodes: Seq<NodeView>,
    start: int,
    event: EventValue,
)
    requires
        lists.len() > 0,
        lists.last().len() > 0,
        lists.last()[0] == EventValue::Delayed(Box::new(event)),
    ensures
        queue(plan, main_thread, lists, nodes, start) == if nodes.len() == 0 {
            queue(
                plan,
                main_thread,
                with_top(lists, lists.last().drop_first().push(event)),
                nodes,
                start,
            )
        } else {
            queue(
                plan,
                main_thread,
                with_top(lists, lists.last().drop_first()),
                nodes.push(completed_node(lists.last()[0])),
                start,
            )
        },
        completed_node(lists.last()[0]).emitted == seq![lists.last()[0]],
{
}

/// Queues below the top one wait: they stay as they are until the top queue and the pipeline have
/// run empty, and then become the top one in turn. So the events of an embedded cycle, and all that
/// follow from them, are processed before any event that comes after.
pub proof fn law_lower_queues_wait(
    plan: Plan,
    main_thread: bool,
    lists: Seq<Seq<EventValue>>,
    nodes: Seq<NodeView>,
    start: int,
)
    ensures
        ({
            let queued = queue(plan, main_thread, lists, nodes, start);
            &&& queued.lists.len() <= lists.len()
            &&& forall|i: int|
                0 <= i < queued.lists.len() - 1 ==> #[trigger] queued.lists[i] == lists[i]
            &&& nodes.len() > 0 ==> queued.lists.len() == lists.len()
        }),
    decreases lists.len(), total_weight(lists.last()),
{
    if lists.len() > 0 {
        if lists.last().len() == 0 {
            if nodes.len() == 0 {
                law_lower_queues_wait(plan, main_thread, lists.drop_last(), nodes, start);
            }
        } else {
            let event = lists.last()[0];
            let rest = lists.last().drop_first();
            lemma_weight_first(lists.last());
            if !clogs(event) {
                match event {
                    EventValue::Delayed(inner) => {
                        if nodes.len() == 0 {
                            lemma_weight_push(rest, *inner);
                            law_lower_queues_wait(
                                plan,
                                main_thread,
                                with_top(lists, rest.push(*inner)),
                                nodes,
                                start,
                            );
                        } else {
                            law_lower_queues_wait(
                                plan,
                                main_thread,
                                with_top(lists, rest),
                                nodes.push(completed_node(event)),
                                start,
                            );
                        }
                    },
                    EventValue::Typed { event_type, payload } => {
                        let added = nodes + fan_out(
                            SharedEvent {
                                batch: (start + nodes.len()) as isize,
                                event_type,
                                payload,
                            },
                            all_responding(plan.systems, event_type),
                        );
                        if first_selectable(
                            plan,
                            main_thread,
                            added,
                            nodes.len() as int,
                        ) is None {
                            law_lower_queues_wait(
                                plan,
                                main_thread,
                                with_top(lists, rest),
                                added,
                                start,
                            );
                        }
                    },
                    _ => {},
                }
            }
        }
    }
}

/// Event processing only ends when nothing is left: no node is in progress, and all queues are
/// empty unless a request to the context has stalled them.
pub proof fn law_completion_leaves_nothing(plan: Plan, main_thread: bool, pipeline: Pipeline)
    requires
        plan.systems.len() == plan.graph.len(),
        plan.systems.len() <= u16::MAX,
        pipeline.wf(plan),
        pipeline.start + next(plan, main_thread, pipeline).0.nodes.len() < isize::MAX,
        next(plan, main_thread, pipeline).1 == Err::<int, EventJobError>(EventJobError::Complete),
    ensures
        next(plan, main_thread, pipeline).0.nodes.len() == 0,
        next(plan, main_thread, pipeline).0.clogged is None ==> next(
            plan,
            main_thread,
            pipeline,
        ).0.lists.len() == 0,
{
    lemma_first_selectable(plan, main_thread, pipeline.nodes, 0);
    if pipeline.clogged is None {
        lemma_queue_wf(plan, main_thread, pipeline.lists, pipeline.nodes, pipeline.start);
    }
}

/// Where nothing is in progress, the main thread can run the first node that comes about.
proof fn lemma_main_thread_starts(plan: Plan, lists: Seq<Seq<EventValue>>, start: int)
    ensures
        ({
            let queued = queue(plan, true, lists, Seq::empty(), start);
            queued.job is None ==> queued.nodes.len() == 0
        }),
    decreases lists.len(), total_weight(lists.last()),
{
    let none = Seq::<NodeView>::empty();
    if lists.len() > 0 {
        if lists.last().len() == 0 {
            lemma_main_thread_starts(plan, lists.drop_last(), start);
        } else {
            let event = lists.last()[0];
            let rest = lists.last().drop_first();
            lemma_weight_first(lists.last());
            if !clogs(event) {
                match event {
                    EventValue::Delayed(inner) => {
                        lemma_weight_push(rest, *inner);
                        lemma_main_thread_starts(plan, with_top(lists, rest.push(*inner)), start);
                    },
                    EventValue::Typed { event_type, payload } => {
                        let shared = SharedEvent {
                            batch: (start + none.len()) as isize,
                            event_type,
                            payload,
                        };
                        let handlers = all_responding(plan.systems, event_type);
                        let added = none + fan_out(shared, handlers);
                        if handlers.len() == 0 {
                            assert(added =~= none);
                            lemma_main_thread_starts(plan, with_top(lists, rest), start);
                        } else {
                            assert(added[0] == queued_node(shared, handlers[0]));
                            assert(ready(plan, added, 0));
                        }
                    },
                    _ => {},
                }
            }
        }
    }
}

/// The main thread is only kept waiting while another thread runs a handler: if it is not given a
/// node to run and event processing is not at an end, some node is being processed.
pub proof fn law_main_thread_makes_progress(plan: Plan, pipeline: Pipeline)
    requires
        pipeline.wf(plan),
        next(plan, true, pipeline).1 is Err,
        next(plan, true, pipeline).1 != Err::<int, EventJobError>(EventJobError::Complete),
    ensures
        exists|k: int|
            0 <= k < pipeline.nodes.len() && (#[trigger] pipeline.nodes[k]).state
                == EventState::Processing,
{
    if pipeline.nodes.len() == 0 {
        assert(pipeline.nodes =~= Seq::empty());
        lemma_main_thread_starts(plan, pipeline.lists, pipeline.start);
    } else if pipeline.nodes[0].state != EventState::Processing {
        assert(pipeline.nodes[0].state == EventState::Queued);
        assert(ready(plan, pipeline.nodes, 0));
        lemma_first_selectable(plan, true, pipeline.nodes, 0);
    }
}

/// A handler that is given to a thread does not conflict with any handler that runs, nor with an
/// earlier one that has not run to completion: neither may mutably borrow what the other depends on
/// or what depends on the other, they belong to different systems, and neither of these depends on
/// the other.
pub proof fn law_chosen_handlers_are_independent(
    plan: Plan,
    main_thread: bool,
    pipeline: Pipeline,
    id: int,
    other: int,
)
    requires
        plan.systems.len() == plan.graph.len(),
        plan.systems.len() <= u16::MAX,
        pipeline.wf(plan),
        pipeline.start + next(plan, main_thread, pipeline).0.nodes.len() < isize::MAX,
        next(plan, main_thread, pipeline).1 == Ok::<int, EventJobError>(id),
        pipeline.start <= other < pipeline.start + next(
            plan,
            main_thread,
            pipeline,
        ).0.nodes.len(),
        other != id,
        ({
            let node = next(plan, main_thread, pipeline).0.nodes[other - pipeline.start];
            node.state == EventState::Processing || (other < id && node.state
                != EventState::Complete)
        }),
    ensures
        ({
            let after = next(plan, main_thread, pipeline).0;
            let own = after.nodes[id - pipeline.start];
            let system = own.handler.system_id as int;
            let apart = after.nodes[other - pipeline.start].handler.system_id as int;
            &&& own.state == EventState::Processing
            &&& !conflict(plan.graph, apart, system)
            &&& !conflict(plan.graph, system, apart)
            &&& !related(plan.graph, apart, system)
            &&& apart != system
        }),
{
    let after = next(plan, main_thread, pipeline).0;
    let k = id - pipeline.start;
    let j = other - pipeline.start;
    lemma_next_wf(plan, main_thread, pipeline);
    law_handlers_are_given_out_once(plan, main_thread, pipeline, id);
    assert(running(after, id));
    let system = after.nodes[k].handler.system_id as int;
    let apart = after.nodes[j].handler.system_id as int;
    law_conflict_is_symmetric(plan.graph, apart, system);
    assert(node_wf(plan, after.nodes[j], after.start + j));
    assert(node_wf(plan, after.nodes[k], after.start + k));
    if related(plan.graph, apart, system) {
        law_related_systems_conflict(plan.graph, apart, system);
    }
    if apart == system {
        assert(reaches(plan.graph, false, apart, system));
    }
}

/// The complete nodes at the front leave the pipeline up to the first one that is not complete. Once
/// they have left, none is left there: to drop them once more would drop nothing, and put no events
/// into the queue.
pub proof fn law_complete_nodes_leave_at_once(nodes: Seq<NodeView>)
    ensures
        leading_complete(nodes) <= nodes.len(),
        forall|i: int|
            0 <= i < leading_complete(nodes) ==> (#[trigger] nodes[i]).state
                == EventState::Complete,
        leading_complete(nodes) < nodes.len() ==> nodes[leading_complete(nodes) as int].state
            != EventState::Complete,
        ({
            let left = nodes.skip(leading_complete(nodes) as int);
            &&& leading_complete(left) == 0
            &&& left.skip(leading_complete(left) as int) == left
            &&& all_emitted(left.take(leading_complete(left) as int)) == Seq::<EventValue>::empty()
        }),
{
    let left = nodes.skip(leading_complete(nodes) as int);
    lemma_leading_complete_is(nodes);
    assert(left.skip(0) =~= left);
    assert(left.take(0) =~= Seq::empty());
}

/// A handler is given to one thread only: the node that is given out was not running before, and is
/// from then on. All handlers that were running still are.
pub proof fn law_handlers_are_given_out_once(
    plan: Plan,
    main_thread: bool,
    pipeline: Pipeline,
    other: int,
)
    requires
        pipeline.wf(plan),
    ensures
        next(plan, main_thread, pipeline).1 matches Ok(id) ==> !running(pipeline, id) && running(
            next(plan, main_thread, pipeline).0,
            id,
        ),
        running(pipeline, other) ==> running(next(plan, main_thread, pipeline).0, other),
{
    lemma_first_selectable(plan, main_thread, pipeline.nodes, 0);
    lemma_queue_keeps(plan, main_thread, pipeline.lists, pipeline.nodes, pipeline.start);
}

/// Completing a job leaves all other handlers running that were, wherever the pipeline has gone on
/// to; and the handler that was run is not running any more.
pub proof fn law_completion_leaves_others_running(
    plan: Plan,
    pipeline: Pipeline,
    id: int,
    emitted: Seq<EventValue>,
    other: int,
)
    requires
        pipeline.wf(plan),
        running(pipeline, id),
    ensures
        running(complete(pipeline, id, emitted), other) == (running(pipeline, other) && other
            != id),
{
    let k = id - pipeline.start;
    let nodes = pipeline.nodes;
    let done = nodes.update(k, NodeView { state: EventState::Complete, ..nodes[k] });
    lemma_leading_complete_is(done);
    let after = complete(pipeline, id, emitted);
    let count = after.start - pipeline.start;
    let place = other - pipeline.start;
    if 0 <= place < count {
        assert(done[place].state == EventState::Complete);
    } else if count <= place < nodes.len() {
        assert(after.nodes[place - count].state == done[place].state);
    }
}

/// Other threads are only given handlers of systems that may be shared across threads: the system of
/// the handler may be, and so may everything that it depends on, directly or through other systems.
pub proof fn law_workers_run_shareable_systems(plan: Plan, pipeline: Pipeline, id: int)
    requires
        pipeline.wf(plan),
        next(plan, false, pipeline).1 == Ok::<int, EventJobError>(id),
    ensures
        ({
            let node = next(plan, false, pipeline).0.nodes[id - pipeline.start];
            &&& shareable(plan.graph, plan.systems, node.handler.system_id as int)
            &&& forall|j: int|
                0 <= j < plan.systems.len() && #[trigger] reaches(
                    plan.graph,
                    false,
                    node.handler.system_id as int,
                    j,
                ) ==> plan.systems[j].sync
        }),
{
    lemma_first_selectable(plan, false, pipeline.nodes, 0);
    if first_selectable(plan, false, pipeline.nodes, 0) is None {
        lemma_queue_job(plan, false, pipeline.lists, pipeline.nodes, pipeline.start);
    }
}

/// The node that is selected when events are moved into the pipeline can be run.
proof fn lemma_queue_job(
    plan: Plan,
    main_thread: bool,
    lists: Seq<Seq<EventValue>>,
    nodes: Seq<NodeView>,
    start: int,
)
    ensures
        queue(plan, main_thread, lists, nodes, start).job matches Some(k) ==> runnable(
            plan,
            main_thread,
            queue(plan, main_thread, lists, nodes, start).nodes[k],
        ),
    decreases lists.len(), total_weight(lists.last()),
{
    if lists.len() > 0 {
        if lists.last().len() == 0 {
            if nodes.len() == 0 {
                lemma_queue_job(plan, main_thread, lists.drop_last(), nodes, start);
            }
        } else {
            let event = lists.last()[0];
            let rest = lists.last().drop_first();
            lemma_weight_first(lists.last());
            if !clogs(event) {
                match event {
                    EventValue::Delayed(inner) => {
                        if nodes.len() == 0 {
                            lemma_weight_push(rest, *inner);
                            lemma_queue_job(
                                plan,
                                main_thread,
                                with_top(lists, rest.push(*inner)),
                                nodes,
                                start,
                            );
                        } else {
                            lemma_queue_job(
                                plan,
                                main_thread,
                                with_top(lists, rest),
                                nodes.push(completed_node(event)),
                                start,
                            );
                        }
                    },
                    EventValue::Typed { event_type, payload } => {
                        let added = nodes + fan_out(
                            SharedEvent {
                                batch: (start + nodes.len()) as isize,
                                event_type,
                                payload,
                            },
                            all_responding(plan.systems, event_type),
                        );
                        lemma_first_selectable(plan, main_thread, added, nodes.len() as int);
                        if first_selectable(
                            plan,
                            main_thread,
                            added,
                            nodes.len() as int,
                        ) is None {
                            lemma_queue_job(
                                plan,
                                main_thread,
                                with_top(lists, rest),
                                added,
                                start,
                            );
                        }
                    },
                    _ => {},
                }
            }
        }
    }
}

/// Where another thread has come upon a handler that only the main thread can run, the main thread
/// is given that handler next.
pub proof fn law_main_thread_is_given_blocking_handlers(plan: Plan, pipeline: Pipeline)
    requires
        pipeline.wf(plan),
        next(plan, false, pipeline).1 == Err::<int, EventJobError>(
            EventJobError::MainThreadRequired,
        ),
    ensures
        next(plan, false, pipeline).0.blocked is Some,
        next(plan, true, next(plan, false, pipeline).0).1 == Ok::<int, EventJobError>(
            next(plan, false, pipeline).0.blocked->Some_0,
        ),
{
}

/// Events that handlers raise come after those that are already queued, in the order in which they
/// were raised: completing a job only adds to the end of the top queue, and leaves the queues below
/// as they are.
pub proof fn law_raised_events_are_queued_last(
    pipeline: Pipeline,
    id: int,
    emitted: Seq<EventValue>,
)
    requires
        pipeline.lists.len() > 0,
    ensures
        complete(pipeline, id, emitted).lists.len() == pipeline.lists.len(),
        forall|i: int|
            0 <= i < pipeline.lists.len() - 1 ==> #[trigger] complete(
                pipeline,
                id,
                emitted,
            ).lists[i] == pipeline.lists[i],
        pipeline.lists.last().is_prefix_of(complete(pipeline, id, emitted).lists.last()),
{
}

/// What happens when a thread has run a job. What was raised for the event at the front comes into
/// the queue at once, right behind what is queued already; for other events, the node keeps it,
/// behind what it had kept. The node is complete from then on. If it was at the front, it leaves the
/// pipeline, along with the complete nodes right behind it; and what each of them had kept then comes
/// into the queue, behind what was raised now, in the order of the nodes. Nothing else changes.
pub proof fn law_completion_releases_events_in_order(
    pipeline: Pipeline,
    id: int,
    emitted: Seq<EventValue>,
) -> (ends: Seq<int>)
    requires
        running(pipeline, id),
        pipeline.lists.len() > 0,
    ensures
        ({
            let after = complete(pipeline, id, emitted);
            let nodes = pipeline.nodes;
            let k = id - pipeline.start;
            let count = after.start - pipeline.start;
            let top = pipeline.lists.last();
            let now = after.lists.last();
            let at_once = if nodes[k].event == nodes[0].event {
                emitted
            } else {
                Seq::empty()
            };
            let keeps = if nodes[k].event == nodes[0].event {
                nodes[k].emitted
            } else {
                nodes[k].emitted + emitted
            };
            &&& after.blocked == pipeline.blocked
            &&& after.clogged == pipeline.clogged
            &&& after.lists.len() == pipeline.lists.len()
            &&& after.lists.drop_last() == pipeline.lists.drop_last()
            &&& 0 <= count <= nodes.len()
            &&& count > 0 <==> k == 0
            &&& forall|j: int|
                0 < j < count ==> (#[trigger] nodes[j]).state == EventState::Complete
            &&& 0 < count < nodes.len() ==> nodes[count].state != EventState::Complete
            &&& after.nodes.len() == nodes.len() - count
            &&& forall|j: int|
                count <= j < nodes.len() && j != k ==> #[trigger] nodes[j] == after.nodes[j
                    - count]
            &&& k > 0 ==> after.nodes[k].state == EventState::Complete && after.nodes[k].event
                == nodes[k].event && after.nodes[k].handler == nodes[k].handler
                && after.nodes[k].emitted == keeps
            &&& ends.len() == count + 1
            &&& ends[0] == top.len() + at_once.len()
            &&& now.len() == ends[count]
            &&& now.take(ends[0]) == top + at_once
            &&& forall|j: int|
                0 <= j < count ==> #[trigger] ends[j] <= now.len() && ends[j + 1] == ends[j]
                    + nodes[j].emitted.len() && now.subrange(ends[j], ends[j + 1])
                    == nodes[j].emitted
        }),
{
    let after = complete(pipeline, id, emitted);
    let nodes = pipeline.nodes;
    let k = id - pipeline.start;
    let top = pipeline.lists.last();
    let now = after.lists.last();
    let count = after.start - pipeline.start;
    let done = nodes.update(k, NodeView { state: EventState::Complete, ..nodes[k] });
    let at_once = if nodes[k].event == nodes[0].event {
        emitted
    } else {
        Seq::empty()
    };
    let first = top + at_once;
    assert(after.lists.drop_last() =~= pipeline.lists.drop_last());
    if k == 0 {
        lemma_leading_complete_is(done);
        assert(count == leading_complete(done));
        assert(now =~= first + all_emitted(done.take(count)));
        let ends = lemma_released(done, first, count);
        assert forall|j: int| 0 <= j < count implies #[trigger] ends[j] <= now.len() && ends[j + 1]
            == ends[j] + nodes[j].emitted.len() && now.subrange(ends[j], ends[j + 1])
            == nodes[j].emitted by {
            assert(done[j].emitted == nodes[j].emitted);
        }
        assert forall|j: int| 0 < j < count implies (#[trigger] nodes[j]).state
            == EventState::Complete by {
            assert(done[j].state == EventState::Complete);
        }
        assert forall|j: int| count <= j < nodes.len() && j != k implies #[trigger] nodes[j]
            == after.nodes[j - count] by {
            assert(done[j] == nodes[j]);
        }
        ends
    } else {
        assert(now =~= first);
        assert(now.take(first.len() as int) =~= first);
        seq![first.len() as int]
    }
}

/// Where each of the first nodes puts the events that it had kept.
proof fn lemma_released(nodes: Seq<NodeView>, first: Seq<EventValue>, count: int) -> (ends: Seq<
    int,
>)
    requires
        0 <= count <= nodes.len(),
    ensures
        ends.len() == count + 1,
        ends[0] == first.len(),
        ({
            let now = first + all_emitted(nodes.take(count));
            &&& now.len() == ends[count]
            &&& now.take(ends[0]) == first
            &&& forall|j: int|
                0 <= j < count ==> #[trigger] ends[j] <= now.len() && ends[j + 1] == ends[j]
                    + nodes[j].emitted.len() && now.subrange(ends[j], ends[j + 1])
                    == nodes[j].emitted
        }),
{
    let now = first + all_emitted(nodes.take(count));
    let ends = Seq::new(
        (count + 1) as nat,
        |j: int| (first.len() + all_emitted(nodes.take(j)).len()) as int,
    );
    assert(nodes.take(0) =~= Seq::empty());
    assert forall|j: int| 0 <= j < count implies #[trigger] ends[j] <= now.len() && ends[j + 1]
        == ends[j] + nodes[j].emitted.len() && now.subrange(ends[j], ends[j + 1])
        == nodes[j].emitted by {
        let rest = lemma_emitted_within(nodes, count, j);
        assert(nodes.take(j + 1).drop_last() =~= nodes.take(j));
        assert(nodes.take(j + 1).last() == nodes[j]);
        assert(all_emitted(nodes.take(j + 1)) == all_emitted(nodes.take(j)) + nodes[j].emitted);
        assert(now.subrange(ends[j], ends[j + 1]) =~= nodes[j].emitted);
    }
    assert(now.take(ends[0]) =~= first);
    ends
}

} // verus!
