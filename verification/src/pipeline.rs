//! The rules by which events are given to handlers.
use crate::bits::exclusive;
use crate::context::shareable;
use crate::context::ContextInner;
use crate::event_map::all_responding;
use crate::event_map::law_handlers_in_system_order;
use crate::event_map::EventHandlerEntry;
use crate::event_node::completed_node;
use crate::event_node::queued_node;
use crate::event_node::EventState;
use crate::event_node::NodeView;
use crate::event_node::SharedEvent;
use crate::events::clogs;
use crate::events::lemma_weight_first;
use crate::events::lemma_weight_push;
use crate::events::total_weight;
use crate::events::EventValue;
use crate::graph::reaches;
use crate::graph::Link;
use crate::traits::SystemDescriptor;
use vstd::prelude::*;

verus! {

/// What event processing needs to know of the loaded systems.
pub struct Plan {
    /// The dependencies of the systems.
    pub graph: Seq<Seq<Link>>,
    /// The descriptors of the systems.
    pub systems: Seq<SystemDescriptor>,
}

impl<V> ContextInner<V> {
    /// What event processing needs to know of the loaded systems.
    pub open spec fn plan(&self) -> Plan {
        Plan { graph: self.graph(), systems: self.descriptors() }
    }
}

/// Whether one of two systems reaches the other.
pub open spec fn related(graph: Seq<Seq<Link>>, a: int, b: int) -> bool {
    reaches(graph, false, a, b) || reaches(graph, false, b, a)
}

/// Whether two systems cannot run at the same time because of a third one, which one of them may
/// mutably borrow while it is a dependency or a dependent of the other.
pub open spec fn contended(graph: Seq<Seq<Link>>, a: int, b: int, s: int) -> bool {
    ||| related(graph, a, s) && reaches(graph, true, b, s)
    ||| reaches(graph, true, a, s) && related(graph, b, s)
}

/// Whether two systems cannot run at the same time.
pub open spec fn conflict(graph: Seq<Seq<Link>>, a: int, b: int) -> bool {
    exists|s: int| 0 <= s < graph.len() && #[trigger] contended(graph, a, b, s)
}

/// Whether an earlier node that is not complete keeps a system from running.
pub open spec fn held_up(plan: Plan, nodes: Seq<NodeView>, k: int, system: int) -> bool {
    exists|j: int|
        0 <= j < k && (#[trigger] nodes[j]).state != EventState::Complete && conflict(
            plan.graph,
            nodes[j].handler.system_id as int,
            system,
        )
}

/// Whether a node waits, and no earlier one keeps it from running.
pub open spec fn ready(plan: Plan, nodes: Seq<NodeView>, k: int) -> bool {
    &&& nodes[k].state == EventState::Queued
    &&& !held_up(plan, nodes, k, nodes[k].handler.system_id as int)
}

/// Whether a node can be run on a thread: any on the main thread, and elsewhere those of systems
/// that may be shared.
pub open spec fn runnable(plan: Plan, main_thread: bool, node: NodeView) -> bool {
    main_thread || shareable(plan.graph, plan.systems, node.handler.system_id as int)
}

/// The first node from a place on that is ready and can be run.
pub open spec fn first_selectable(
    plan: Plan,
    main_thread: bool,
    nodes: Seq<NodeView>,
    from: int,
) -> Option<int>
    decreases nodes.len() - from,
{
    if from >= nodes.len() {
        None
    } else if ready(plan, nodes, from) && runnable(plan, main_thread, nodes[from]) {
        Some(from)
    } else {
        first_selectable(plan, main_thread, nodes, from + 1)
    }
}

/// The first node from a place on that is ready.
pub open spec fn first_ready(plan: Plan, nodes: Seq<NodeView>, from: int) -> Option<int>
    decreases nodes.len() - from,
{
    if from >= nodes.len() {
        None
    } else if ready(plan, nodes, from) {
        Some(from)
    } else {
        first_ready(plan, nodes, from + 1)
    }
}

/// Nodes of which one has been given to a thread.
pub open spec fn taken(nodes: Seq<NodeView>, k: int) -> Seq<NodeView> {
    nodes.update(k, NodeView { state: EventState::Processing, ..nodes[k] })
}

/// Nodes for an event, one for each handler.
pub open spec fn fan_out(event: SharedEvent, handlers: Seq<EventHandlerEntry>) -> Seq<NodeView> {
    Seq::new(handlers.len(), |i: int| queued_node(event, handlers[i]))
}

/// A stack of event queues, of which the top one has been replaced.
pub open spec fn with_top(
    lists: Seq<Seq<EventValue>>,
    top: Seq<EventValue>,
) -> Seq<Seq<EventValue>> {
    lists.update(lists.len() - 1, top)
}

/// What comes of moving queued events into the pipeline.
#[verifier::ext_equal]
pub struct Queued {
    /// The stack of event queues.
    pub lists: Seq<Seq<EventValue>>,
    /// The nodes in progress.
    pub nodes: Seq<NodeView>,
    /// The event that has stalled the pipeline, if any.
    pub clogged: Option<EventValue>,
    /// The place of the node that has been selected, if any.
    pub job: Option<int>,
}

/// Moves events from the top queue into the pipeline, in order, until a node can be run or nothing
/// is left to move. Delayed events are put off until the pipeline has run empty, and an event that
/// clogs the pipeline stops it. Queues that have run empty are left.
pub open spec fn queue(
    plan: Plan,
    main_thread: bool,
    lists: Seq<Seq<EventValue>>,
    nodes: Seq<NodeView>,
    start: int,
) -> Queued
    decreases lists.len(), total_weight(lists.last()),
{
    if lists.len() == 0 {
        Queued { lists, nodes, clogged: None, job: None }
    } else if lists.last().len() == 0 {
        if nodes.len() == 0 {
            queue(plan, main_thread, lists.drop_last(), nodes, start)
        } else {
            Queued { lists, nodes, clogged: None, job: None }
        }
    } else {
        let event = lists.last()[0];
        let rest = lists.last().drop_first();
        proof {
            lemma_weight_first(lists.last());
        }
        if clogs(event) {
            Queued { lists: with_top(lists, rest), nodes, clogged: Some(event), job: None }
        } else {
            match event {
                EventValue::Delayed(inner) => {
                    if nodes.len() == 0 {
                        proof {
                            lemma_weight_push(rest, *inner);
                        }
                        queue(plan, main_thread, with_top(lists, rest.push(*inner)), nodes, start)
                    } else {
                        queue(
                            plan,
                            main_thread,
                            with_top(lists, rest),
                            nodes.push(completed_node(event)),
                            start,
                        )
                    }
                },
                EventValue::Typed { event_type, payload } => {
                    let added = nodes + fan_out(
                        SharedEvent { batch: (start + nodes.len()) as isize, event_type, payload },
                        all_responding(plan.systems, event_type),
                    );
                    match first_selectable(plan, main_thread, added, nodes.len() as int) {
                        Some(k) => Queued {
                            lists: with_top(lists, rest),
                            nodes: taken(added, k),
                            clogged: None,
                            job: Some(k),
                        },
                        None => queue(plan, main_thread, with_top(lists, rest), added, start),
                    }
                },
                _ => Queued { lists, nodes, clogged: None, job: None },
            }
        }
    }
}

/// Provides a reason that a new job could not be created.
#[derive(Copy, Clone, Debug, PartialEq, Eq, Structural)]
pub enum EventJobError {
    /// All events are busy.
    Busy,
    /// The event manager has completed an event cycle.
    Complete,
    /// The main thread is required to resolve blocking events in the queue.
    MainThreadRequired,
}

/// The state of event processing.
#[verifier::ext_equal]
pub struct Pipeline {
    /// The stack of event queues, which hold events that have not yet been moved into the pipeline.
    pub lists: Seq<Seq<EventValue>>,
    /// The nodes in progress.
    pub nodes: Seq<NodeView>,
    /// The index of the first node.
    pub start: int,
    /// The index of the nearest node that only the main thread can run, if a thread has come upon
    /// one.
    pub blocked: Option<int>,
    /// The event that has stalled the pipeline, if any.
    pub clogged: Option<EventValue>,
}

/// What comes of asking for a job: the new state, and the index of the node to run or the reason
/// that there is none.
pub open spec fn next(plan: Plan, main_thread: bool, pipeline: Pipeline) -> (
    Pipeline,
    Result<int, EventJobError>,
) {
    match pipeline.blocked {
        Some(id) => {
            if main_thread {
                (
                    Pipeline {
                        nodes: taken(pipeline.nodes, id - pipeline.start),
                        blocked: None,
                        ..pipeline
                    },
                    Ok(id),
                )
            } else {
                (pipeline, Err(EventJobError::MainThreadRequired))
            }
        },
        None => match first_selectable(plan, main_thread, pipeline.nodes, 0) {
            Some(k) => (
                Pipeline { nodes: taken(pipeline.nodes, k), ..pipeline },
                Ok(pipeline.start + k),
            ),
            None => {
                let queued = if pipeline.clogged is None {
                    queue(plan, main_thread, pipeline.lists, pipeline.nodes, pipeline.start)
                } else {
                    Queued {
                        lists: pipeline.lists,
                        nodes: pipeline.nodes,
                        clogged: pipeline.clogged,
                        job: None,
                    }
                };
                let moved = Pipeline {
                    lists: queued.lists,
                    nodes: queued.nodes,
                    clogged: queued.clogged,
                    ..pipeline
                };
                match queued.job {
                    Some(k) => (moved, Ok(pipeline.start + k)),
                    None => match first_ready(plan, queued.nodes, 0) {
                        Some(k) => (
                            Pipeline { blocked: Some(pipeline.start + k), ..moved },
                            Err(EventJobError::MainThreadRequired),
                        ),
                        None => (
                            moved,
                            Err(
                                if queued.nodes.len() == 0 {
                                    EventJobError::Complete
                                } else {
                                    EventJobError::Busy
                                },
                            ),
                        ),
                    },
                }
            },
        },
    }
}

/// Whether the node at an index has been given to a thread, and is not complete.
pub open spec fn running(pipeline: Pipeline, id: int) -> bool {
    &&& pipeline.start <= id < pipeline.start + pipeline.nodes.len()
    &&& pipeline.nodes[id - pipeline.start].state == EventState::Processing
}

/// The number of nodes at the front that are complete.
pub open spec fn leading_complete(nodes: Seq<NodeView>) -> nat
    decreases nodes.len(),
{
    if nodes.len() == 0 || nodes[0].state != EventState::Complete {
        0
    } else {
        1 + leading_complete(nodes.drop_first())
    }
}

/// The events that nodes have emitted, node by node.
pub open spec fn all_emitted(nodes: Seq<NodeView>) -> Seq<EventValue>
    decreases nodes.len(),
{
    if nodes.len() == 0 {
        Seq::empty()
    } else {
        all_emitted(nodes.drop_last()) + nodes.last().emitted
    }
}

/// What comes of completing a job, during which events were emitted. What was emitted for the event
/// at the front of the pipeline goes to the queue at once; what was emitted for later events is
/// kept until they come to the front.
pub open spec fn complete(pipeline: Pipeline, id: int, emitted: Seq<EventValue>) -> Pipeline {
    let k = id - pipeline.start;
    let node = pipeline.nodes[k];
    let front = pipeline.nodes[0];
    let top = pipeline.lists.last();
    if node.event == front.event {
        let nodes = pipeline.nodes.update(k, NodeView { state: EventState::Complete, ..node });
        if k == 0 {
            let count = leading_complete(nodes) as int;
            Pipeline {
                lists: with_top(pipeline.lists, top + emitted + all_emitted(nodes.take(count))),
                nodes: nodes.skip(count),
                start: pipeline.start + count,
                ..pipeline
            }
        } else {
            Pipeline { lists: with_top(pipeline.lists, top + emitted), nodes, ..pipeline }
        }
    } else {
        Pipeline {
            nodes: pipeline.nodes.update(
                k,
                NodeView { state: EventState::Complete, emitted: node.emitted + emitted, ..node },
            ),
            ..pipeline
        }
    }
}

/// Whether what a node holds makes sense at its index.
pub open spec fn node_wf(plan: Plan, node: NodeView, id: int) -> bool {
    &&& node.state != EventState::Complete ==> node.event is Some && node.handler.system_id
        < plan.graph.len()
    &&& node.event is Some ==> node.event->Some_0.batch <= id
}

/// Whether a node may come before another one: their events are told apart by their batches, which
/// follow on each other, and the nodes of one event are in the order of their systems.
pub open spec fn precedes(first: NodeView, second: NodeView) -> bool {
    first.event is Some && second.event is Some ==> {
        let earlier = first.event->Some_0;
        let later = second.event->Some_0;
        &&& earlier.batch <= later.batch
        &&& earlier.batch == later.batch ==> earlier == later && first.handler.system_id
            <= second.handler.system_id
    }
}

/// Whether all nodes may come in their order.
pub open spec fn batches_wf(nodes: Seq<NodeView>) -> bool {
    forall|j: int, k: int|
        0 <= j < k < nodes.len() ==> #[trigger] precedes(nodes[j], nodes[k])
}

/// Whether no node runs while an earlier one that conflicts with it is not complete.
pub open spec fn exclusive_nodes(plan: Plan, nodes: Seq<NodeView>) -> bool {
    forall|j: int, k: int|
        0 <= j < k < nodes.len() && (#[trigger] nodes[j]).state != EventState::Complete && (
        #[trigger] nodes[k]).state == EventState::Processing ==> !conflict(
            plan.graph,
            nodes[j].handler.system_id as int,
            nodes[k].handler.system_id as int,
        )
}

/// Whether the nodes in progress make sense.
pub open spec fn nodes_wf(plan: Plan, nodes: Seq<NodeView>, start: int) -> bool {
    &&& nodes.len() > 0 ==> nodes[0].state != EventState::Complete
    &&& forall|k: int| 0 <= k < nodes.len() ==> node_wf(plan, #[trigger] nodes[k], start + k)
    &&& batches_wf(nodes)
    &&& exclusive_nodes(plan, nodes)
}

impl Pipeline {
    /// Whether the state of event processing makes sense.
    pub open spec fn wf(&self, plan: Plan) -> bool {
        &&& isize::MIN <= self.start
        &&& self.start + self.nodes.len() < isize::MAX
        &&& self.nodes.len() > 0 ==> self.lists.len() > 0
        &&& nodes_wf(plan, self.nodes, self.start)
        &&& self.blocked matches Some(id) ==> self.start <= id < self.start + self.nodes.len()
            && ready(plan, self.nodes, id - self.start)
    }
}

/// Whether two lists of flags hold what the incomplete ones of the first nodes are related to, and
/// what they may mutably borrow.
pub open spec fn working_for(
    plan: Plan,
    nodes: Seq<NodeView>,
    count: int,
    working_bi: Seq<bool>,
    working_mut: Seq<bool>,
) -> bool {
    &&& working_bi.len() == plan.graph.len()
    &&& working_mut.len() == plan.graph.len()
    &&& forall|s: int|
        0 <= s < plan.graph.len() ==> #[trigger] working_bi[s] == exists|j: int|
            0 <= j < count && (#[trigger] nodes[j]).state != EventState::Complete && related(
                plan.graph,
                nodes[j].handler.system_id as int,
                s,
            )
    &&& forall|s: int|
        0 <= s < plan.graph.len() ==> #[trigger] working_mut[s] == exists|j: int|
            0 <= j < count && (#[trigger] nodes[j]).state != EventState::Complete && reaches(
                plan.graph,
                true,
                nodes[j].handler.system_id as int,
                s,
            )
}

/// Whether two lists of flags are those of one system.
pub open spec fn rows_for(
    plan: Plan,
    system: int,
    row_bi: Seq<bool>,
    row_mut: Seq<bool>,
) -> bool {
    &&& row_bi.len() == plan.graph.len()
    &&& row_mut.len() == plan.graph.len()
    &&& forall|s: int|
        0 <= s < plan.graph.len() ==> #[trigger] row_bi[s] == related(plan.graph, system, s)
    &&& forall|s: int|
        0 <= s < plan.graph.len() ==> #[trigger] row_mut[s] == reaches(
            plan.graph,
            true,
            system,
            s,
        )
}

/// A system is not held up exactly if its flags are apart from those of the nodes before.
pub proof fn lemma_working_exclusive(
    plan: Plan,
    nodes: Seq<NodeView>,
    count: int,
    working_bi: Seq<bool>,
    working_mut: Seq<bool>,
    system: int,
    row_bi: Seq<bool>,
    row_mut: Seq<bool>,
)
    requires
        working_for(plan, nodes, count, working_bi, working_mut),
        rows_for(plan, system, row_bi, row_mut),
    ensures
        (exclusive(working_bi, row_mut) && exclusive(working_mut, row_bi)) == !held_up(
            plan,
            nodes,
            count,
            system,
        ),
{
    let apart = exclusive(working_bi, row_mut) && exclusive(working_mut, row_bi);
    if held_up(plan, nodes, count, system) {
        let j = choose|j: int|
            0 <= j < count && (#[trigger] nodes[j]).state != EventState::Complete && conflict(
                plan.graph,
                nodes[j].handler.system_id as int,
                system,
            );
        let other = nodes[j].handler.system_id as int;
        let s = choose|s: int|
            0 <= s < plan.graph.len() && #[trigger] contended(plan.graph, other, system, s);
        if related(plan.graph, other, s) && reaches(plan.graph, true, system, s) {
            assert(working_bi[s] && row_mut[s]);
        } else {
            assert(working_mut[s] && row_bi[s]);
        }
        assert(!apart);
    }
    if !apart {
        if !exclusive(working_bi, row_mut) {
            let s = choose|s: int|
                0 <= s < working_bi.len() && (#[trigger] working_bi[s] && row_mut[s]);
            let j = choose|j: int|
                0 <= j < count && (#[trigger] nodes[j]).state != EventState::Complete && related(
                    plan.graph,
                    nodes[j].handler.system_id as int,
                    s,
                );
            assert(contended(plan.graph, nodes[j].handler.system_id as int, system, s));
            assert(nodes[j].state != EventState::Complete);
        } else {
            let s = choose|s: int|
                0 <= s < working_mut.len() && (#[trigger] working_mut[s] && row_bi[s]);
            let j = choose|j: int|
                0 <= j < count && (#[trigger] nodes[j]).state != EventState::Complete && reaches(
                    plan.graph,
                    true,
                    nodes[j].handler.system_id as int,
                    s,
                );
            assert(contended(plan.graph, nodes[j].handler.system_id as int, system, s));
            assert(nodes[j].state != EventState::Complete);
        }
    }
}

/// The flags of the nodes before, after one more node has been passed.
pub proof fn lemma_working_step(
    plan: Plan,
    nodes: Seq<NodeView>,
    count: int,
    working_bi: Seq<bool>,
    working_mut: Seq<bool>,
    row_bi: Seq<bool>,
    row_mut: Seq<bool>,
    new_bi: Seq<bool>,
    new_mut: Seq<bool>,
)
    requires
        0 <= count < nodes.len(),
        working_for(plan, nodes, count, working_bi, working_mut),
        if nodes[count].state == EventState::Complete {
            &&& new_bi == working_bi
            &&& new_mut == working_mut
        } else {
            &&& rows_for(plan, nodes[count].handler.system_id as int, row_bi, row_mut)
            &&& new_bi.len() == working_bi.len()
            &&& new_mut.len() == working_mut.len()
            &&& forall|s: int|
                0 <= s < working_bi.len() ==> #[trigger] new_bi[s] == (working_bi[s] || row_bi[s])
            &&& forall|s: int|
                0 <= s < working_mut.len() ==> #[trigger] new_mut[s] == (working_mut[s]
                    || row_mut[s])
        },
    ensures
        working_for(plan, nodes, count + 1, new_bi, new_mut),
{
    let own = nodes[count].handler.system_id as int;
    assert forall|s: int| 0 <= s < plan.graph.len() implies #[trigger] new_bi[s] == exists|j: int|
        0 <= j < count + 1 && (#[trigger] nodes[j]).state != EventState::Complete && related(
            plan.graph,
            nodes[j].handler.system_id as int,
            s,
        ) by {
        let was = exists|j: int|
            0 <= j < count && (#[trigger] nodes[j]).state != EventState::Complete && related(
                plan.graph,
                nodes[j].handler.system_id as int,
                s,
            );
        assert(working_bi[s] == was);
        if was {
            let j = choose|j: int|
                0 <= j < count && (#[trigger] nodes[j]).state != EventState::Complete && related(
                    plan.graph,
                    nodes[j].handler.system_id as int,
                    s,
                );
            assert(0 <= j < count + 1 && nodes[j].state != EventState::Complete);
        }
        if nodes[count].state != EventState::Complete {
            assert(row_bi[s] == related(plan.graph, own, s));
        }
    }
    assert forall|s: int| 0 <= s < plan.graph.len() implies #[trigger] new_mut[s] == exists|j: int|
        0 <= j < count + 1 && (#[trigger] nodes[j]).state != EventState::Complete && reaches(
            plan.graph,
            true,
            nodes[j].handler.system_id as int,
            s,
        ) by {
        let was = exists|j: int|
            0 <= j < count && (#[trigger] nodes[j]).state != EventState::Complete && reaches(
                plan.graph,
                true,
                nodes[j].handler.system_id as int,
                s,
            );
        assert(working_mut[s] == was);
        if was {
            let j = choose|j: int|
                0 <= j < count && (#[trigger] nodes[j]).state != EventState::Complete && reaches(
                    plan.graph,
                    true,
                    nodes[j].handler.system_id as int,
                    s,
                );
            assert(0 <= j < count + 1 && nodes[j].state != EventState::Complete);
        }
        if nodes[count].state != EventState::Complete {
            assert(row_mut[s] == reaches(plan.graph, true, own, s));
        }
    }
}

/// The first node that is ready and can be run is one, and none before it is.
pub proof fn lemma_first_selectable(
    plan: Plan,
    main_thread: bool,
    nodes: Seq<NodeView>,
    from: int,
)
    requires
        0 <= from,
    ensures
        match first_selectable(plan, main_thread, nodes, from) {
            Some(k) => {
                &&& from <= k < nodes.len()
                &&& ready(plan, nodes, k)
                &&& runnable(plan, main_thread, nodes[k])
                &&& forall|j: int|
                    from <= j < k && #[trigger] ready(plan, nodes, j) ==> !runnable(
                        plan,
                        main_thread,
                        nodes[j],
                    )
            },
            None => forall|j: int|
                from <= j < nodes.len() && #[trigger] ready(plan, nodes, j) ==> !runnable(
                    plan,
                    main_thread,
                    nodes[j],
                ),
        },
    decreases nodes.len() - from,
{
    if from < nodes.len() && !(ready(plan, nodes, from) && runnable(
        plan,
        main_thread,
        nodes[from],
    )) {
        lemma_first_selectable(plan, main_thread, nodes, from + 1);
    }
}

/// The first node that is ready is ready, and none before it is.
pub proof fn lemma_first_ready(plan: Plan, nodes: Seq<NodeView>, from: int)
    requires
        0 <= from,
    ensures
        match first_ready(plan, nodes, from) {
            Some(k) => {
                &&& from <= k < nodes.len()
                &&& ready(plan, nodes, k)
                &&& forall|j: int| from <= j < k ==> !#[trigger] ready(plan, nodes, j)
            },
            None => forall|j: int| from <= j < nodes.len() ==> !#[trigger] ready(plan, nodes, j),
        },
    decreases nodes.len() - from,
{
    if from < nodes.len() && !ready(plan, nodes, from) {
        lemma_first_ready(plan, nodes, from + 1);
    }
}

/// Whether a node is ready rests on the nodes up to it only.
pub proof fn lemma_ready_prefix(plan: Plan, a: Seq<NodeView>, b: Seq<NodeView>, k: int)
    requires
        0 <= k < a.len(),
        k < b.len(),
        forall|j: int| 0 <= j <= k ==> #[trigger] a[j] == b[j],
    ensures
        ready(plan, a, k) == ready(plan, b, k),
{
    let system = a[k].handler.system_id as int;
    assert(a[k] == b[k]);
    if held_up(plan, a, k, system) {
        let j = choose|j: int|
            0 <= j < k && (#[trigger] a[j]).state != EventState::Complete && conflict(
                plan.graph,
                a[j].handler.system_id as int,
                system,
            );
        assert(a[j] == b[j]);
        assert(b[j].state != EventState::Complete);
    }
    if held_up(plan, b, k, system) {
        let j = choose|j: int|
            0 <= j < k && (#[trigger] b[j]).state != EventState::Complete && conflict(
                plan.graph,
                b[j].handler.system_id as int,
                system,
            );
        assert(a[j] == b[j]);
        assert(a[j].state != EventState::Complete);
    }
}

/// The flags of the first nodes rest on those nodes only.
pub proof fn lemma_working_prefix(
    plan: Plan,
    a: Seq<NodeView>,
    b: Seq<NodeView>,
    count: int,
    working_bi: Seq<bool>,
    working_mut: Seq<bool>,
)
    requires
        count <= a.len(),
        count <= b.len(),
        forall|j: int| 0 <= j < count ==> #[trigger] a[j] == b[j],
        working_for(plan, a, count, working_bi, working_mut),
    ensures
        working_for(plan, b, count, working_bi, working_mut),
{
    assert forall|s: int| 0 <= s < plan.graph.len() implies #[trigger] working_bi[s] == exists|
        j: int,
    |
        0 <= j < count && (#[trigger] b[j]).state != EventState::Complete && related(
            plan.graph,
            b[j].handler.system_id as int,
            s,
        ) by {
        if working_bi[s] {
            let j = choose|j: int|
                0 <= j < count && (#[trigger] a[j]).state != EventState::Complete && related(
                    plan.graph,
                    a[j].handler.system_id as int,
                    s,
                );
            assert(a[j] == b[j]);
            assert(b[j].state != EventState::Complete);
        }
        if exists|j: int|
            0 <= j < count && (#[trigger] b[j]).state != EventState::Complete && related(
                plan.graph,
                b[j].handler.system_id as int,
                s,
            ) {
            let j = choose|j: int|
                0 <= j < count && (#[trigger] b[j]).state != EventState::Complete && related(
                    plan.graph,
                    b[j].handler.system_id as int,
                    s,
                );
            assert(a[j] == b[j]);
            assert(a[j].state != EventState::Complete);
        }
    }
    assert forall|s: int| 0 <= s < plan.graph.len() implies #[trigger] working_mut[s] == exists|
        j: int,
    |
        0 <= j < count && (#[trigger] b[j]).state != EventState::Complete && reaches(
            plan.graph,
            true,
            b[j].handler.system_id as int,
            s,
        ) by {
        if working_mut[s] {
            let j = choose|j: int|
                0 <= j < count && (#[trigger] a[j]).state != EventState::Complete && reaches(
                    plan.graph,
                    true,
                    a[j].handler.system_id as int,
                    s,
                );
            assert(a[j] == b[j]);
            assert(b[j].state != EventState::Complete);
        }
        if exists|j: int|
            0 <= j < count && (#[trigger] b[j]).state != EventState::Complete && reaches(
                plan.graph,
                true,
                b[j].handler.system_id as int,
                s,
            ) {
            let j = choose|j: int|
                0 <= j < count && (#[trigger] b[j]).state != EventState::Complete && reaches(
                    plan.graph,
                    true,
                    b[j].handler.system_id as int,
                    s,
                );
            assert(a[j] == b[j]);
            assert(a[j].state != EventState::Complete);
        }
    }
}

/// Moving events into the pipeline does not take nodes out of it.
pub proof fn lemma_queue_grows(
    plan: Plan,
    main_thread: bool,
    lists: Seq<Seq<EventValue>>,
    nodes: Seq<NodeView>,
    start: int,
)
    ensures
        queue(plan, main_thread, lists, nodes, start).nodes.len() >= nodes.len(),
    decreases lists.len(), total_weight(lists.last()),
{
    if lists.len() > 0 {
        if lists.last().len() == 0 {
            if nodes.len() == 0 {
                lemma_queue_grows(plan, main_thread, lists.drop_last(), nodes, start);
            }
        } else {
            let event = lists.last()[0];
            let rest = lists.last().drop_first();
            lemma_weight_first(lists.last());
            if !clogs(event) {
                match event {
                    EventValue::Delayed(inner) => {
                        if nodes.len() == 0 {
                            lemma_weight_push(rest, *inner);
                            lemma_queue_grows(
                                plan,
                                main_thread,
                                with_top(lists, rest.push(*inner)),
                                nodes,
                                start,
                            );
                        } else {
                            lemma_queue_grows(
                                plan,
                                main_thread,
                                with_top(lists, rest),
                                nodes.push(completed_node(event)),
                                start,
                            );
                        }
                    },
                    EventValue::Typed { event_type, payload } => {
                        let added = nodes + fan_out(
                            SharedEvent {
                                batch: (start + nodes.len()) as isize,
                                event_type,
                                payload,
                            },
                            all_responding(plan.systems, event_type),
                        );
                        lemma_first_selectable(plan, main_thread, added, nodes.len() as int);
                        if first_selectable(
                            plan,
                            main_thread,
                            added,
                            nodes.len() as int,
                        ) is None {
                            lemma_queue_grows(
                                plan,
                                main_thread,
                                with_top(lists, rest),
                                added,
                                start,
                            );
                        }
                    },
                    _ => {},
                }
            }
        }
    }
}

/// Moving events into the pipeline leaves the nodes that are in it as they are, and only gives a
/// new one to a thread.
pub proof fn lemma_queue_keeps(
    plan: Plan,
    main_thread: bool,
    lists: Seq<Seq<EventValue>>,
    nodes: Seq<NodeView>,
    start: int,
)
    ensures
        ({
            let queued = queue(plan, main_thread, lists, nodes, start);
            &&& queued.nodes.len() >= nodes.len()
            &&& forall|i: int|
                0 <= i < nodes.len() ==> #[trigger] queued.nodes[i] == nodes[i]
            &&& queued.job matches Some(k) ==> nodes.len() <= k < queued.nodes.len()
                && queued.nodes[k].state == EventState::Processing
        }),
    decreases lists.len(), total_weight(lists.last()),
{
    if lists.len() > 0 {
        if lists.last().len() == 0 {
            if nodes.len() == 0 {
                lemma_queue_keeps(plan, main_thread, lists.drop_last(), nodes, start);
            }
        } else {
            let event = lists.last()[0];
            let rest = lists.last().drop_first();
            let queued = queue(plan, main_thread, lists, nodes, start);
            lemma_weight_first(lists.last());
            if !clogs(event) {
                match event {
                    EventValue::Delayed(inner) => {
                        if nodes.len() == 0 {
                            lemma_weight_push(rest, *inner);
                            lemma_queue_keeps(
                                plan,
                                main_thread,
                                with_top(lists, rest.push(*inner)),
                                nodes,
                                start,
                            );
                        } else {
                            let longer = nodes.push(completed_node(event));
                            lemma_queue_keeps(
                                plan,
                                main_thread,
                                with_top(lists, rest),
                                longer,
                                start,
                            );
                            assert forall|i: int| 0 <= i < nodes.len() implies #[trigger]
                            queued.nodes[i] == nodes[i] by {
                                assert(longer[i] == nodes[i]);
                            }
                        }
                    },
                    EventValue::Typed { event_type, payload } => {
                        let added = nodes + fan_out(
                            SharedEvent {
                                batch: (start + nodes.len()) as isize,
                                event_type,
                                payload,
                            },
                            all_responding(plan.systems, event_type),
                        );
                        lemma_first_selectable(plan, main_thread, added, nodes.len() as int);
                        if first_selectable(
                            plan,
                            main_thread,
                            added,
                            nodes.len() as int,
                        ) is None {
                            lemma_queue_keeps(
                                plan,
                                main_thread,
                                with_top(lists, rest),
                                added,
                                start,
                            );
                            assert forall|i: int| 0 <= i < nodes.len() implies #[trigger]
                            queued.nodes[i] == nodes[i] by {
                                assert(added[i] == nodes[i]);
                            }
                        }
                    },
                    _ => {},
                }
            }
        }
    }
}

/// The nodes still make sense once one that is ready has been given to a thread.
pub proof fn lemma_taken_wf(plan: Plan, nodes: Seq<NodeView>, start: int, k: int)
    requires
        nodes_wf(plan, nodes, start),
        0 <= k < nodes.len(),
        ready(plan, nodes, k),
    ensures
        nodes_wf(plan, taken(nodes, k), start),
{
    let after = taken(nodes, k);
    assert forall|i: int| 0 <= i < after.len() implies node_wf(
        plan,
        #[trigger] after[i],
        start + i,
    ) by {
        assert(node_wf(plan, nodes[i], start + i));
    }
    assert forall|i: int, j: int| 0 <= i < j < after.len() implies #[trigger] precedes(
        after[i],
        after[j],
    ) by {
        assert(precedes(nodes[i], nodes[j]));
    }
    assert forall|i: int, j: int|
        0 <= i < j < after.len() && (#[trigger] after[i]).state != EventState::Complete && (
        #[trigger] after[j]).state == EventState::Processing implies !conflict(
        plan.graph,
        after[i].handler.system_id as int,
        after[j].handler.system_id as int,
    ) by {
        assert(nodes[i].state != EventState::Complete);
        if j == k {
            assert(!held_up(plan, nodes, k, nodes[k].handler.system_id as int));
        } else {
            assert(nodes[j].state == EventState::Processing);
        }
    }
}

/// The nodes still make sense once events have been moved into the pipeline.
pub proof fn lemma_queue_wf(
    plan: Plan,
    main_thread: bool,
    lists: Seq<Seq<EventValue>>,
    nodes: Seq<NodeView>,
    start: int,
)
    requires
        plan.systems.len() == plan.graph.len(),
        plan.systems.len() <= u16::MAX,
        isize::MIN <= start,
        start + queue(plan, main_thread, lists, nodes, start).nodes.len() < isize::MAX,
        nodes_wf(plan, nodes, start),
        nodes.len() > 0 ==> lists.len() > 0,
    ensures
        ({
            let queued = queue(plan, main_thread, lists, nodes, start);
            &&& nodes_wf(plan, queued.nodes, start)
            &&& queued.nodes.len() > 0 ==> queued.lists.len() > 0
            &&& queued.nodes.len() == 0 && queued.clogged is None ==> queued.lists.len() == 0
            &&& queued.clogged matches Some(event) ==> clogs(event)
            &&& queued.job matches Some(k) ==> 0 <= k < queued.nodes.len()
        }),
    decreases lists.len(), total_weight(lists.last()),
{
    lemma_queue_grows(plan, main_thread, lists, nodes, start);
    if lists.len() > 0 {
        if lists.last().len() == 0 {
            if nodes.len() == 0 {
                lemma_queue_wf(plan, main_thread, lists.drop_last(), nodes, start);
            }
        } else {
            let event = lists.last()[0];
            let rest = lists.last().drop_first();
            lemma_weight_first(lists.last());
            if !clogs(event) {
                match event {
                    EventValue::Delayed(inner) => {
                        if nodes.len() == 0 {
                            lemma_weight_push(rest, *inner);
                            lemma_queue_wf(
                                plan,
                                main_thread,
                                with_top(lists, rest.push(*inner)),
                                nodes,
                                start,
                            );
                        } else {
                            let node = completed_node(event);
                            lemma_completed_node_wf(plan, nodes, node, start);
                            lemma_queue_wf(
                                plan,
                                main_thread,
                                with_top(lists, rest),
                                nodes.push(node),
                                start,
                            );
                        }
                    },
                    EventValue::Typed { event_type, payload } => {
                        let shared = SharedEvent {
                            batch: (start + nodes.len()) as isize,
                            event_type,
                            payload,
                        };
                        let added = nodes + fan_out(
                            shared,
                            all_responding(plan.systems, event_type),
                        );
                        lemma_fan_out_wf(plan, nodes, shared, start);
                        lemma_first_selectable(plan, main_thread, added, nodes.len() as int);
                        match first_selectable(plan, main_thread, added, nodes.len() as int) {
                            Some(k) => {
                                lemma_taken_wf(plan, added, start, k);
                            },
                            None => {
                                lemma_queue_wf(
                                    plan,
                                    main_thread,
                                    with_top(lists, rest),
                                    added,
                                    start,
                                );
                            },
                        }
                    },
                    _ => {},
                }
            }
        }
    }
}

/// Nodes make sense with an immediately-complete one at the end.
proof fn lemma_completed_node_wf(plan: Plan, nodes: Seq<NodeView>, node: NodeView, start: int)
    requires
        nodes.len() > 0,
        nodes_wf(plan, nodes, start),
        node.state == EventState::Complete,
        node.event is None,
    ensures
        nodes_wf(plan, nodes.push(node), start),
{
    let after = nodes.push(node);
    assert forall|k: int| 0 <= k < after.len() implies node_wf(
        plan,
        #[trigger] after[k],
        start + k,
    ) by {
        if k < nodes.len() {
            assert(after[k] == nodes[k]);
        }
    }
    assert forall|i: int, j: int| 0 <= i < j < after.len() implies #[trigger] precedes(
        after[i],
        after[j],
    ) by {
        if j < nodes.len() {
            assert(precedes(nodes[i], nodes[j]));
        }
    }
    assert forall|i: int, j: int|
        0 <= i < j < after.len() && (#[trigger] after[i]).state != EventState::Complete && (
        #[trigger] after[j]).state == EventState::Processing implies !conflict(
        plan.graph,
        after[i].handler.system_id as int,
        after[j].handler.system_id as int,
    ) by {
        assert(after[i] == nodes[i] && after[j] == nodes[j]);
    }
}

/// Nodes make sense with those of a new event at the end.
proof fn lemma_fan_out_wf(plan: Plan, nodes: Seq<NodeView>, event: SharedEvent, start: int)
    requires
        plan.systems.len() == plan.graph.len(),
        plan.systems.len() <= u16::MAX,
        nodes_wf(plan, nodes, start),
        event.batch == start + nodes.len(),
    ensures
        nodes_wf(
            plan,
            nodes + fan_out(event, all_responding(plan.systems, event.event_type)),
            start,
        ),
{
    let handlers = all_responding(plan.systems, event.event_type);
    let after = nodes + fan_out(event, handlers);
    let count = nodes.len() as int;
    law_handlers_in_system_order(plan.systems, event.event_type);
    assert forall|k: int| count <= k < after.len() implies #[trigger] after[k] == queued_node(
        event,
        handlers[k - count],
    ) by {}
    assert forall|k: int| 0 <= k < after.len() implies node_wf(
        plan,
        #[trigger] after[k],
        start + k,
    ) by {
        if k < count {
            assert(after[k] == nodes[k]);
        }
    }
    assert forall|i: int, j: int| 0 <= i < j < after.len() implies #[trigger] precedes(
        after[i],
        after[j],
    ) by {
        if j < count {
            assert(precedes(nodes[i], nodes[j]));
        } else if i < count {
            assert(after[i] == nodes[i]);
            assert(node_wf(plan, nodes[i], start + i));
            assert(after[j] == queued_node(event, handlers[j - count]));
        } else {
            assert(after[i] == queued_node(event, handlers[i - count]));
            assert(after[j] == queued_node(event, handlers[j - count]));
            assert(handlers[i - count].system_id <= handlers[j - count].system_id);
        }
    }
    assert forall|i: int, j: int|
        0 <= i < j < after.len() && (#[trigger] after[i]).state != EventState::Complete && (
        #[trigger] after[j]).state == EventState::Processing implies !conflict(
        plan.graph,
        after[i].handler.system_id as int,
        after[j].handler.system_id as int,
    ) by {
        assert(j < count);
        assert(after[i] == nodes[i] && after[j] == nodes[j]);
    }
}

/// The state of event processing still makes sense once a job has been asked for.
pub proof fn lemma_next_wf(plan: Plan, main_thread: bool, pipeline: Pipeline)
    requires
        plan.systems.len() == plan.graph.len(),
        plan.systems.len() <= u16::MAX,
        pipeline.wf(plan),
        pipeline.start + next(plan, main_thread, pipeline).0.nodes.len() < isize::MAX,
    ensures
        next(plan, main_thread, pipeline).0.wf(plan),
{
    match pipeline.blocked {
        Some(id) => {
            if main_thread {
                lemma_taken_wf(plan, pipeline.nodes, pipeline.start, id - pipeline.start);
            }
        },
        None => {
            lemma_first_selectable(plan, main_thread, pipeline.nodes, 0);
            match first_selectable(plan, main_thread, pipeline.nodes, 0) {
                Some(k) => {
                    lemma_taken_wf(plan, pipeline.nodes, pipeline.start, k);
                },
                None => {
                    if pipeline.clogged is None {
                        let queued = queue(
                            plan,
                            main_thread,
                            pipeline.lists,
                            pipeline.nodes,
                            pipeline.start,
                        );
                        lemma_queue_wf(
                            plan,
                            main_thread,
                            pipeline.lists,
                            pipeline.nodes,
                            pipeline.start,
                        );
                        lemma_first_ready(plan, queued.nodes, 0);
                    } else {
                        lemma_first_ready(plan, pipeline.nodes, 0);
                    }
                },
            }
        },
    }
}

/// How many nodes at the front are complete.
pub proof fn lemma_leading_complete(nodes: Seq<NodeView>, count: int)
    requires
        0 <= count <= nodes.len(),
        forall|i: int| 0 <= i < count ==> (#[trigger] nodes[i]).state == EventState::Complete,
        count < nodes.len() ==> nodes[count].state != EventState::Complete,
    ensures
        leading_complete(nodes) == count,
    decreases count,
{
    if count > 0 {
        let rest = nodes.drop_first();
        assert forall|i: int| 0 <= i < count - 1 implies (#[trigger] rest[i]).state
            == EventState::Complete by {
            assert(rest[i] == nodes[i + 1]);
        }
        lemma_leading_complete(rest, count - 1);
    }
}

/// The nodes at the front that count as complete are, and the one after them is not.
pub proof fn lemma_leading_complete_is(nodes: Seq<NodeView>)
    ensures
        leading_complete(nodes) <= nodes.len(),
        forall|i: int|
            0 <= i < leading_complete(nodes) ==> (#[trigger] nodes[i]).state
                == EventState::Complete,
        leading_complete(nodes) < nodes.len() ==> nodes[leading_complete(nodes) as int].state
            != EventState::Complete,
    decreases nodes.len(),
{
    if nodes.len() > 0 && nodes[0].state == EventState::Complete {
        let rest = nodes.drop_first();
        lemma_leading_complete_is(rest);
        assert forall|i: int| 0 <= i < leading_complete(nodes) implies (#[trigger] nodes[i]).state
            == EventState::Complete by {
            if i > 0 {
                assert(rest[i - 1] == nodes[i]);
            }
        }
    }
}

/// The state of event processing still makes sense once a job has been completed.
pub proof fn lemma_complete_wf(
    plan: Plan,
    pipeline: Pipeline,
    id: int,
    emitted: Seq<EventValue>,
)
    requires
        pipeline.wf(plan),
        pipeline.start <= id < pipeline.start + pipeline.nodes.len(),
        pipeline.nodes[id - pipeline.start].state == EventState::Processing,
    ensures
        complete(pipeline, id, emitted).wf(plan),
{
    let k = id - pipeline.start;
    let before = pipeline.nodes;
    let after = complete(pipeline, id, emitted);
    let done = before.update(k, NodeView { state: EventState::Complete, ..before[k] });
    lemma_leading_complete_is(done);
    let count = if before[k].event == before[0].event && k == 0 {
        leading_complete(done) as int
    } else {
        0
    };
    assert(after.start == pipeline.start + count);
    assert(after.nodes.len() == before.len() - count);
    assert forall|i: int| 0 <= i < after.nodes.len() implies {
        let was = before[i + count];
        let is = #[trigger] after.nodes[i];
        &&& is.event == was.event
        &&& is.handler == was.handler
        &&& is.state == if i + count == k {
            EventState::Complete
        } else {
            was.state
        }
    } by {}
    assert forall|i: int| 0 <= i < after.nodes.len() implies node_wf(
        plan,
        #[trigger] after.nodes[i],
        after.start + i,
    ) by {
        assert(node_wf(plan, before[i + count], pipeline.start + (i + count)));
    }
    assert forall|i: int, j: int| 0 <= i < j < after.nodes.len() implies #[trigger] precedes(
        after.nodes[i],
        after.nodes[j],
    ) by {
        assert(precedes(before[i + count], before[j + count]));
        assert(after.nodes[i].event == before[i + count].event);
        assert(after.nodes[j].event == before[j + count].event);
    }
    assert forall|i: int, j: int|
        0 <= i < j < after.nodes.len() && (#[trigger] after.nodes[i]).state
            != EventState::Complete && (#[trigger] after.nodes[j]).state
            == EventState::Processing implies !conflict(
        plan.graph,
        after.nodes[i].handler.system_id as int,
        after.nodes[j].handler.system_id as int,
    ) by {
        assert(before[i + count].state != EventState::Complete);
        assert(before[j + count].state == EventState::Processing);
    }
    if pipeline.blocked is Some {
        let b = pipeline.blocked->Some_0 - pipeline.start;
        assert(done[b].state == EventState::Queued);
        assert(count <= b);
        let system = before[b].handler.system_id as int;
        assert(after.nodes[b - count].handler == before[b].handler);
        if held_up(plan, after.nodes, b - count, system) {
            let j = choose|j: int|
                0 <= j < b - count && (#[trigger] after.nodes[j]).state != EventState::Complete
                    && conflict(plan.graph, after.nodes[j].handler.system_id as int, system);
            assert(before[j + count].state != EventState::Complete);
            assert(held_up(plan, before, b, system));
        }
    }
    if after.nodes.len() > 0 && count == 0 {
        assert(after.nodes[0].handler == before[0].handler);
        assert(k != 0) by {
            if k == 0 {
                assert(done[0].state == EventState::Complete);
                assert(leading_complete(done) >= 1);
            }
        }
    }
}

/// What one of the first nodes has emitted is a part of what all of them have.
pub proof fn lemma_emitted_within(nodes: Seq<NodeView>, count: int, j: int) -> (rest: Seq<EventValue>)
    requires
        0 <= j < count <= nodes.len(),
    ensures
        all_emitted(nodes.take(count)) == all_emitted(nodes.take(j)) + nodes[j].emitted + rest,
    decreases count,
{
    let first = nodes.take(count);
    assert(first.drop_last() =~= nodes.take(count - 1));
    assert(first.last() == nodes[count - 1]);
    if j == count - 1 {
        let rest = Seq::empty();
        assert(all_emitted(first) =~= all_emitted(nodes.take(j)) + nodes[j].emitted + rest);
        rest
    } else {
        let shorter = lemma_emitted_within(nodes, count - 1, j);
        let rest = shorter + nodes[count - 1].emitted;
        assert(all_emitted(first) =~= all_emitted(nodes.take(j)) + nodes[j].emitted + rest);
        rest
    }
}

/// Where the top queue of a stack is replaced, the queues below stay.
pub proof fn law_lower_queues_stay(lists: Seq<Seq<EventValue>>, top: Seq<EventValue>)
    requires
        lists.len() > 0,
    ensures
        with_top(lists, top) == lists.drop_last().push(top),
{
    assert(with_top(lists, top) =~= lists.drop_last().push(top));
}

} // verus!
