//! What holds of the choice of the handlers that are given to threads.
use crate::event_laws::law_related_systems_conflict;
use crate::event_manager::job_for;
use crate::event_map::all_responding;
use crate::event_node::completed_node;
use crate::event_node::EventState;
use crate::event_node::NodeView;
use crate::event_node::SharedEvent;
use crate::events::clogs;
use crate::events::lemma_weight_first;
use crate::events::lemma_weight_push;
use crate::events::total_weight;
use crate::events::EventValue;
use crate::graph::lemma_reaches_backward;
use crate::graph::lemma_reaches_transitive;
use crate::graph::reaches;
use crate::graph::steps;
use crate::graph::Link;
use crate::pipeline::conflict;
use crate::pipeline::contended;
use crate::pipeline::fan_out;
use crate::pipeline::first_selectable;
use crate::pipeline::held_up;
use crate::pipeline::lemma_first_ready;
use crate::pipeline::lemma_first_selectable;
use crate::pipeline::lemma_next_wf;
use crate::pipeline::lemma_queue_keeps;
use crate::pipeline::lemma_ready_prefix;
use crate::pipeline::next;
use crate::pipeline::node_wf;
use crate::pipeline::queue;
use crate::pipeline::ready;
use crate::pipeline::related;
use crate::pipeline::runnable;
use crate::pipeline::running;
use crate::pipeline::taken;
use crate::pipeline::with_top;
use crate::pipeline::EventJobError;
use crate::pipeline::Pipeline;
use crate::pipeline::Plan;
use vstd::prelude::*;

verus! {

/// What is reached through mutable dependencies is reached.
proof fn lemma_mutable_reaches(graph: Seq<Seq<Link>>, from: int, to: int)
    requires
        reaches(graph, true, from, to),
    ensures
        reaches(graph, false, from, to),
    decreases from,
{
    if from != to {
        let k = choose|k: int| #[trigger]
            steps(graph, true, from, k) && reaches(graph, true, graph[from][k].to, to);
        lemma_mutable_reaches(graph, graph[from][k].to, to);
        assert(steps(graph, false, from, k));
    }
}

/// Whether two systems get in each other's way: one is the other or depends on it, or one of them
/// may mutably borrow something that the other depends on.
pub open spec fn clash(graph: Seq<Seq<Link>>, a: int, b: int) -> bool {
    ||| reaches(graph, false, a, b)
    ||| reaches(graph, false, b, a)
    ||| exists|s: int| #[trigger] reaches(graph, true, a, s) && reaches(graph, false, b, s)
    ||| exists|s: int| #[trigger] reaches(graph, true, b, s) && reaches(graph, false, a, s)
}

/// Systems conflict exactly if one depends on the other, or if one may mutably borrow what the other
/// depends on. Systems that share dependencies which neither of them may mutably borrow do not.
pub proof fn law_conflicts_are_over_mutable_access(graph: Seq<Seq<Link>>, a: int, b: int)
    requires
        0 <= a < graph.len(),
        0 <= b < graph.len(),
    ensures
        conflict(graph, a, b) <==> clash(graph, a, b),
{
    if conflict(graph, a, b) {
        let s = choose|s: int| 0 <= s < graph.len() && #[trigger] contended(graph, a, b, s);
        if related(graph, a, s) && reaches(graph, true, b, s) {
            if reaches(graph, false, s, a) {
                lemma_mutable_reaches(graph, b, s);
                lemma_reaches_transitive(graph, false, b, s, a);
            }
        } else {
            if reaches(graph, false, s, b) {
                lemma_mutable_reaches(graph, a, s);
                lemma_reaches_transitive(graph, false, a, s, b);
            }
        }
    }
    if clash(graph, a, b) {
        if related(graph, a, b) {
            law_related_systems_conflict(graph, a, b);
        } else if exists|s: int| #[trigger]
            reaches(graph, true, a, s) && reaches(graph, false, b, s) {
            let s = choose|s: int| #[trigger]
                reaches(graph, true, a, s) && reaches(graph, false, b, s);
            lemma_reaches_backward(graph, true, a, s);
            assert(contended(graph, a, b, s));
        } else {
            let s = choose|s: int| #[trigger]
                reaches(graph, true, b, s) && reaches(graph, false, a, s);
            lemma_reaches_backward(graph, true, b, s);
            assert(contended(graph, a, b, s));
        }
    }
}

/// Whether the handler of a node need not wait: all nodes before it are complete, except for those of
/// systems with which its own does not clash.
pub open spec fn unhindered(plan: Plan, nodes: Seq<NodeView>, k: int) -> bool {
    forall|j: int|
        0 <= j < k && (#[trigger] nodes[j]).state != EventState::Complete ==> !clash(
            plan.graph,
            nodes[j].handler.system_id as int,
            nodes[k].handler.system_id as int,
        )
}

/// Whether a thread may run the handler of a node: it is the main one, or the system of the handler
/// and all that it depends on may be shared across threads.
pub open spec fn fit_for(plan: Plan, main_thread: bool, node: NodeView) -> bool {
    main_thread || forall|s: int|
        0 <= s < plan.systems.len() && #[trigger] reaches(
            plan.graph,
            false,
            node.handler.system_id as int,
            s,
        ) ==> plan.systems[s].sync
}

/// A handler need not wait exactly if nothing holds it up.
proof fn lemma_unhindered(plan: Plan, nodes: Seq<NodeView>, start: int, k: int)
    requires
        forall|j: int| 0 <= j < nodes.len() ==> node_wf(plan, #[trigger] nodes[j], start + j),
        0 <= k < nodes.len(),
        nodes[k].state != EventState::Complete,
    ensures
        unhindered(plan, nodes, k) == !held_up(plan, nodes, k, nodes[k].handler.system_id as int),
{
    let system = nodes[k].handler.system_id as int;
    assert(node_wf(plan, nodes[k], start + k));
    assert forall|j: int|
        0 <= j < k && (#[trigger] nodes[j]).state != EventState::Complete implies conflict(
        plan.graph,
        nodes[j].handler.system_id as int,
        system,
    ) == clash(plan.graph, nodes[j].handler.system_id as int, system) by {
        assert(node_wf(plan, nodes[j], start + j));
        law_conflicts_are_over_mutable_access(
            plan.graph,
            nodes[j].handler.system_id as int,
            system,
        );
    }
    if held_up(plan, nodes, k, system) {
        let j = choose|j: int|
            0 <= j < k && (#[trigger] nodes[j]).state != EventState::Complete && conflict(
                plan.graph,
                nodes[j].handler.system_id as int,
                system,
            );
        assert(nodes[j].state != EventState::Complete);
    }
}

/// What moving events into the pipeline leaves aside cannot be run.
proof fn lemma_queue_chooses(
    plan: Plan,
    main_thread: bool,
    lists: Seq<Seq<EventValue>>,
    nodes: Seq<NodeView>,
    start: int,
)
    requires
        forall|j: int|
            0 <= j < nodes.len() && #[trigger] ready(plan, nodes, j) ==> !runnable(
                plan,
                main_thread,
                nodes[j],
            ),
    ensures
        ({
            let queued = queue(plan, main_thread, lists, nodes, start);
            match queued.job {
                Some(k) => {
                    &&& 0 <= k < queued.nodes.len()
                    &&& !held_up(plan, queued.nodes, k, queued.nodes[k].handler.system_id as int)
                    &&& runnable(plan, main_thread, queued.nodes[k])
                    &&& forall|j: int|
                        0 <= j < k && #[trigger] ready(plan, queued.nodes, j) ==> !runnable(
                            plan,
                            main_thread,
                            queued.nodes[j],
                        )
                },
                None => forall|j: int|
                    0 <= j < queued.nodes.len() && #[trigger] ready(plan, queued.nodes, j)
                        ==> !runnable(plan, main_thread, queued.nodes[j]),
            }
        }),
    decreases lists.len(), total_weight(lists.last()),
{
    if lists.len() > 0 {
        if lists.last().len() == 0 {
            if nodes.len() == 0 {
                lemma_queue_chooses(plan, main_thread, lists.drop_last(), nodes, start);
            }
        } else {
            let event = lists.last()[0];
            let rest = lists.last().drop_first();
            lemma_weight_first(lists.last());
            if !clogs(event) {
                match event {
                    EventValue::Delayed(inner) => {
                        if nodes.len() == 0 {
                            lemma_weight_push(rest, *inner);
                            lemma_queue_chooses(
                                plan,
                                main_thread,
                                with_top(lists, rest.push(*inner)),
                                nodes,
                                start,
                            );
                        } else {
                            let longer = nodes.push(completed_node(event));
                            assert forall|j: int|
                                0 <= j < longer.len() && #[trigger] ready(
                                    plan,
                                    longer,
                                    j,
                                ) implies !runnable(plan, main_thread, longer[j]) by {
                                if j < nodes.len() {
                                    lemma_ready_prefix(plan, nodes, longer, j);
                                }
                            }
                            lemma_queue_chooses(
                                plan,
                                main_thread,
                                with_top(lists, rest),
                                longer,
                                start,
                            );
                        }
                    },
                    EventValue::Typed { event_type, payload } => {
                        let added = nodes + fan_out(
                            SharedEvent {
                                batch: (start + nodes.len()) as isize,
                                event_type,
                                payload,
                            },
                            all_responding(plan.systems, event_type),
                        );
                        lemma_first_selectable(plan, main_thread, added, nodes.len() as int);
                        assert forall|j: int|
                            0 <= j < nodes.len() && #[trigger] ready(
                                plan,
                                added,
                                j,
                            ) implies !runnable(plan, main_thread, added[j]) by {
                            lemma_ready_prefix(plan, nodes, added, j);
                        }
                        match first_selectable(plan, main_thread, added, nodes.len() as int) {
                            Some(k) => {
                                lemma_taken_chooses(plan, main_thread, added, k);
                            },
                            None => {
                                lemma_queue_chooses(
                                    plan,
                                    main_thread,
                                    with_top(lists, rest),
                                    added,
                                    start,
                                );
                            },
                        }
                    },
                    _ => {},
                }
            }
        }
    }
}

/// Where the first node that can be run is given to a thread, it is still the first.
proof fn lemma_taken_chooses(plan: Plan, main_thread: bool, nodes: Seq<NodeView>, k: int)
    requires
        0 <= k < nodes.len(),
        ready(plan, nodes, k),
        runnable(plan, main_thread, nodes[k]),
        forall|j: int|
            0 <= j < k && #[trigger] ready(plan, nodes, j) ==> !runnable(
                plan,
                main_thread,
                nodes[j],
            ),
    ensures
        ({
            let after = taken(nodes, k);
            &&& !held_up(plan, after, k, after[k].handler.system_id as int)
            &&& runnable(plan, main_thread, after[k])
            &&& forall|j: int|
                0 <= j < k && #[trigger] ready(plan, after, j) ==> !runnable(
                    plan,
                    main_thread,
                    after[j],
                )
        }),
{
    let after = taken(nodes, k);
    let system = nodes[k].handler.system_id as int;
    if held_up(plan, after, k, system) {
        let j = choose|j: int|
            0 <= j < k && (#[trigger] after[j]).state != EventState::Complete && conflict(
                plan.graph,
                after[j].handler.system_id as int,
                system,
            );
        assert(nodes[j].state != EventState::Complete);
    }
    assert forall|j: int| 0 <= j < k && #[trigger] ready(plan, after, j) implies !runnable(
        plan,
        main_thread,
        after[j],
    ) by {
        lemma_ready_prefix(plan, nodes, after, j);
    }
}

/// A thread that asks for a job is given the first handler that need not wait and that it may run.
/// If there is none, it is told why. Where a handler need not wait but needs the main thread, the
/// first such handler is kept for that, and nothing is told to the main thread itself. Where all
/// handlers have to wait, the pipeline is busy; and where there is none at all, it is complete.
pub proof fn law_first_fitting_handler_is_chosen(
    plan: Plan,
    main_thread: bool,
    pipeline: Pipeline,
)
    requires
        plan.systems.len() == plan.graph.len(),
        plan.systems.len() <= u16::MAX,
        pipeline.wf(plan),
        pipeline.blocked is None,
        pipeline.start + next(plan, main_thread, pipeline).0.nodes.len() < isize::MAX,
    ensures
        ({
            let (after, result) = next(plan, main_thread, pipeline);
            let nodes = after.nodes;
            match result {
                Ok(id) => {
                    let k = id - pipeline.start;
                    &&& after.blocked is None
                    &&& 0 <= k < nodes.len()
                    &&& nodes[k].state == EventState::Processing
                    &&& unhindered(plan, nodes, k)
                    &&& fit_for(plan, main_thread, nodes[k])
                    &&& forall|j: int|
                        0 <= j < k && (#[trigger] nodes[j]).state == EventState::Queued
                            && unhindered(plan, nodes, j) ==> !fit_for(plan, main_thread, nodes[j])
                },
                Err(EventJobError::MainThreadRequired) => {
                    let k = after.blocked->Some_0 - pipeline.start;
                    &&& !main_thread
                    &&& after.blocked is Some
                    &&& 0 <= k < nodes.len()
                    &&& nodes[k].state == EventState::Queued
                    &&& unhindered(plan, nodes, k)
                    &&& !fit_for(plan, main_thread, nodes[k])
                    &&& forall|j: int|
                        0 <= j < k && (#[trigger] nodes[j]).state == EventState::Queued
                            ==> !unhindered(plan, nodes, j)
                },
                Err(EventJobError::Busy) => {
                    &&& after.blocked is None
                    &&& nodes.len() > 0
                    &&& forall|j: int|
                        0 <= j < nodes.len() && (#[trigger] nodes[j]).state == EventState::Queued
                            ==> !unhindered(plan, nodes, j)
                },
                Err(EventJobError::Complete) => after.blocked is None && nodes.len() == 0,
            }
        }),
{
    let (after, result) = next(plan, main_thread, pipeline);
    let nodes = after.nodes;
    lemma_next_wf(plan, main_thread, pipeline);
    lemma_first_selectable(plan, main_thread, pipeline.nodes, 0);
    assert forall|j: int|
        0 <= j < nodes.len() && (#[trigger] nodes[j]).state != EventState::Complete implies
        unhindered(plan, nodes, j) == !held_up(
        plan,
        nodes,
        j,
        nodes[j].handler.system_id as int,
    ) by {
        lemma_unhindered(plan, nodes, after.start, j);
    }
    match first_selectable(plan, main_thread, pipeline.nodes, 0) {
        Some(k) => {
            lemma_taken_chooses(plan, main_thread, pipeline.nodes, k);
            assert forall|j: int|
                0 <= j < k && (#[trigger] nodes[j]).state == EventState::Queued && unhindered(
                    plan,
                    nodes,
                    j,
                ) implies !fit_for(plan, main_thread, nodes[j]) by {
                assert(ready(plan, nodes, j));
            }
        },
        None => {
            if pipeline.clogged is None {
                lemma_queue_chooses(
                    plan,
                    main_thread,
                    pipeline.lists,
                    pipeline.nodes,
                    pipeline.start,
                );
                lemma_queue_keeps(
                    plan,
                    main_thread,
                    pipeline.lists,
                    pipeline.nodes,
                    pipeline.start,
                );
            }
            lemma_first_ready(plan, nodes, 0);
            assert forall|j: int|
                0 <= j < nodes.len() && (#[trigger] nodes[j]).state
                    == EventState::Queued implies ready(plan, nodes, j) == unhindered(
                plan,
                nodes,
                j,
            ) by {}
        },
    }
}

/// While a handler is kept for the main thread, other threads are refused and nothing changes. The
/// main thread is given that handler, and nothing else changes.
pub proof fn law_main_thread_takes_what_is_kept_for_it(plan: Plan, pipeline: Pipeline)
    requires
        pipeline.wf(plan),
        pipeline.blocked is Some,
    ensures
        next(plan, false, pipeline) == (
            pipeline,
            Err::<int, EventJobError>(EventJobError::MainThreadRequired),
        ),
        ({
            let (after, result) = next(plan, true, pipeline);
            let id = pipeline.blocked->Some_0;
            let k = id - pipeline.start;
            &&& result == Ok::<int, EventJobError>(id)
            &&& after.blocked is None
            &&& after.lists == pipeline.lists
            &&& after.start == pipeline.start
            &&& after.clogged == pipeline.clogged
            &&& after.nodes.len() == pipeline.nodes.len()
            &&& 0 <= k < pipeline.nodes.len()
            &&& pipeline.nodes[k].state == EventState::Queued
            &&& after.nodes[k].state == EventState::Processing
            &&& after.nodes[k].event == pipeline.nodes[k].event
            &&& after.nodes[k].handler == pipeline.nodes[k].handler
            &&& after.nodes[k].emitted == pipeline.nodes[k].emitted
            &&& forall|j: int|
                0 <= j < pipeline.nodes.len() && j != k ==> #[trigger] after.nodes[j]
                    == pipeline.nodes[j]
        }),
{
    assert(ready(plan, pipeline.nodes, pipeline.blocked->Some_0 - pipeline.start));
}

/// While a request to the context is due, no event is taken from the queues, and the request stays
/// due.
pub proof fn law_requests_stall_the_queues(plan: Plan, main_thread: bool, pipeline: Pipeline)
    requires
        pipeline.wf(plan),
        pipeline.clogged is Some,
    ensures
        next(plan, main_thread, pipeline).0.clogged == pipeline.clogged,
        next(plan, main_thread, pipeline).0.lists == pipeline.lists,
        next(plan, main_thread, pipeline).0.start == pipeline.start,
        next(plan, main_thread, pipeline).0.nodes.len() == pipeline.nodes.len(),
{
    lemma_first_selectable(plan, main_thread, pipeline.nodes, 0);
}

/// Nodes that are in the pipeline stay there when a thread asks for a job. Except for the node that
/// the thread is given, they stay as they are.
pub proof fn law_asking_changes_one_node(
    plan: Plan,
    main_thread: bool,
    pipeline: Pipeline,
    k: int,
)
    requires
        pipeline.wf(plan),
        0 <= k < pipeline.nodes.len(),
    ensures
        ({
            let (after, result) = next(plan, main_thread, pipeline);
            &&& after.start == pipeline.start
            &&& k < after.nodes.len()
            &&& after.nodes[k].event == pipeline.nodes[k].event
            &&& after.nodes[k].handler == pipeline.nodes[k].handler
            &&& after.nodes[k].emitted == pipeline.nodes[k].emitted
            &&& after.nodes[k].state == (if result == Ok::<int, EventJobError>(
                pipeline.start + k,
            ) {
                EventState::Processing
            } else {
                pipeline.nodes[k].state
            })
        }),
{
    lemma_first_selectable(plan, main_thread, pipeline.nodes, 0);
    lemma_queue_keeps(plan, main_thread, pipeline.lists, pipeline.nodes, pipeline.start);
}

/// A handler runs exactly if its node is in the pipeline and marked so.
pub proof fn law_running_handlers_are_marked(pipeline: Pipeline, id: int)
    ensures
        running(pipeline, id) <==> {
            let k = id - pipeline.start;
            0 <= k < pipeline.nodes.len() && pipeline.nodes[k].state == EventState::Processing
        },
{
}

/// What a thread is given to run is the handler of the node, with the event that the node bears.
pub proof fn law_jobs_are_those_of_their_nodes(node: NodeView, id: isize)
    requires
        node.event is Some,
    ensures
        job_for(node, id as int).id == id,
        job_for(node, id as int).handler == node.handler,
        Some(job_for(node, id as int).event) == node.event,
{
}

} // verus!
