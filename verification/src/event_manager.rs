//! Organization of event handling: which handler runs next, and on which thread.
use crate::bits::bitmaps_exclusive;
use crate::bits::exclusive;
use crate::bits::Bits;
use crate::context::lemma_fits;
use crate::context::shareable;
use crate::context::ContextInner;
use crate::event_map::all_responding;
use crate::event_map::law_handlers_in_system_order;
use crate::event_map::EventHandlerEntry;
use crate::event_node::completed_node;
use crate::event_node::queued_node;
use crate::event_node::EventNode;
use crate::event_node::EventState;
use crate::event_node::NodeView;
use crate::event_node::SharedEvent;
use crate::events::clogs;
use crate::events::lemma_weight_first;
use crate::events::lemma_weight_push;
use crate::events::total_weight;
use crate::events::EventValue;
use crate::graph::reaches;
use crate::pipeline::all_emitted;
use crate::pipeline::complete;
use crate::pipeline::fan_out;
use crate::pipeline::first_ready;
use crate::pipeline::first_selectable;
use crate::pipeline::leading_complete;
use crate::pipeline::lemma_complete_wf;
use crate::pipeline::lemma_first_ready;
use crate::pipeline::lemma_first_selectable;
use crate::pipeline::lemma_leading_complete;
use crate::pipeline::lemma_next_wf;
use crate::pipeline::lemma_queue_grows;
use crate::pipeline::lemma_queue_wf;
use crate::pipeline::lemma_ready_prefix;
use crate::pipeline::lemma_working_exclusive;
use crate::pipeline::lemma_working_prefix;
use crate::pipeline::lemma_working_step;
use crate::pipeline::next;
use crate::pipeline::node_wf;
use crate::pipeline::queue;
use crate::pipeline::ready;
use crate::pipeline::related;
use crate::pipeline::rows_for;
use crate::pipeline::runnable;
use crate::pipeline::taken;
use crate::pipeline::with_top;
use crate::pipeline::working_for;
use crate::pipeline::EventJobError;
use crate::pipeline::Pipeline;
use crate::pipeline::Plan;
use crate::pipeline::Queued;
use crate::receiver::sent_by;
use crate::receiver::sent_by_others;
use crate::receiver::values_of;
use crate::receiver::Event;
use crate::receiver::EventReceiver;
use crate::small::EventLists;
use crate::stable_deque::counter_of;
use crate::stable_deque::NodeDeque;
use std::collections::VecDeque;
use vstd::prelude::*;

verus! {

/// The blocking index while no event requires the main thread.
pub const UNBLOCKED: isize = isize::MAX;

/// Denotes an event handler to execute.
#[derive(Copy, Clone, Debug)]
pub struct EventJob {
    /// The event that provoked this handler.
    pub event: SharedEvent,
    /// The handler to execute.
    pub handler: EventHandlerEntry,
    /// The ID of the job.
    pub id: isize,
}

/// Organizes the receipt and delegation of event handling.
pub struct EventManager {
    /// The index of the nearest blocking event that requires the main thread to execute it.
    pub blocked_main_event: isize,
    /// An event that has stalled the event pipeline, if any.
    pub clogged_event: Option<EventValue>,
    /// A stack of event queues, which holds events that have not yet entered the processing
    /// pipeline.
    pub event_lists: EventLists,
    /// The receiver that collates new events.
    pub receiver: EventReceiver,
    /// The queue of event nodes that are undergoing processing.
    pub in_progress: NodeDeque,
    /// A rolling list of systems that are dependents or dependencies of in-progress event nodes.
    pub working_transitive_dependencies_bi: Bits,
    /// A rolling list of systems that are mutably borrowed by in-progress event nodes.
    pub working_transitive_dependencies_mut: Bits,
}

/// The events of each queue of a stack.
pub open spec fn lists_view(lists: Seq<VecDeque<EventValue>>) -> Seq<Seq<EventValue>> {
    Seq::new(lists.len(), |i: int| lists[i]@)
}

/// What each of a sequence of nodes holds.
pub open spec fn nodes_view(nodes: Seq<EventNode>) -> Seq<NodeView> {
    Seq::new(nodes.len(), |i: int| nodes[i]@)
}

/// Whether a blocking index is that of the first node that is ready, among the first nodes.
pub open spec fn blocks_first(
    plan: Plan,
    nodes: Seq<NodeView>,
    count: int,
    start: int,
    blocked: isize,
) -> bool {
    if blocked == UNBLOCKED {
        forall|j: int| 0 <= j < count ==> !#[trigger] ready(plan, nodes, j)
    } else {
        let k = blocked - start;
        &&& 0 <= k < count
        &&& ready(plan, nodes, k)
        &&& forall|j: int| 0 <= j < k ==> !#[trigger] ready(plan, nodes, j)
    }
}

/// The job for a node.
pub open spec fn job_for(node: NodeView, id: int) -> EventJob {
    EventJob { event: node.event->Some_0, handler: node.handler, id: id as isize }
}

/// A list of flags, joined with another one of the same length.
pub open spec fn joined_flags(flags: Seq<bool>, others: Seq<bool>) -> Seq<bool> {
    Seq::new(flags.len(), |i: int| flags[i] || others[i])
}

/// Attempts to select the provided event node given constraints, creating an associated job if
/// possible.
fn try_select_job<V>(
    ctx: &ContextInner<V>,
    id: isize,
    start: isize,
    node: &mut EventNode,
    main_thread: bool,
    working_transitive_dependencies_bi: &mut Bits,
    working_transitive_dependencies_mut: &mut Bits,
    main_thread_required: &mut isize,
) -> (job: Option<EventJob>)
    requires
        ctx.wf(),
        old(node).handler.system_id < ctx.count(),
        old(node).state == EventState::Queued ==> old(node).event is Some,
        old(working_transitive_dependencies_bi)@.len() == ctx.count(),
        old(working_transitive_dependencies_mut)@.len() == ctx.count(),
    ensures
        ({
            let system = old(node).handler.system_id as int;
            let deps = ctx.transitive_dependencies_bi.row(system);
            let deps_mut = ctx.transitive_dependencies_mut.row(system);
            let free = old(node).state == EventState::Queued && (id == start || (exclusive(
                old(working_transitive_dependencies_bi)@,
                deps_mut,
            ) && exclusive(old(working_transitive_dependencies_mut)@, deps)));
            if free && (main_thread || ctx.sync_systems@[system]) {
                &&& job == Some(job_for(old(node)@, id as int))
                &&& *final(node) == (EventNode { state: EventState::Processing, ..*old(node) })
                &&& *final(main_thread_required) == *old(main_thread_required)
                &&& *final(working_transitive_dependencies_bi)
                    == *old(working_transitive_dependencies_bi)
                &&& *final(working_transitive_dependencies_mut)
                    == *old(working_transitive_dependencies_mut)
            } else {
                &&& job is None
                &&& *final(node) == *old(node)
                &&& *final(main_thread_required) == (if free && id < *old(
                    main_thread_required,
                ) {
                    id
                } else {
                    *old(main_thread_required)
                })
                &&& final(working_transitive_dependencies_bi)@ == joined_flags(
                    old(working_transitive_dependencies_bi)@,
                    deps,
                )
                &&& final(working_transitive_dependencies_mut)@ == joined_flags(
                    old(working_transitive_dependencies_mut)@,
                    deps_mut,
                )
            }
        }),
{
    let system: usize = node.handler.system_id as usize;
    let deps = ctx.transitive_dependencies_bi.get_unchecked(system);
    let deps_mut = ctx.transitive_dependencies_mut.get_unchecked(system);
    if node.state == EventState::Queued && (id == start || (bitmaps_exclusive(
        working_transitive_dependencies_bi,
        &deps_mut,
    ) && bitmaps_exclusive(working_transitive_dependencies_mut, &deps))) {
        if main_thread || ctx.sync_systems.get(system) {
            let job = EventJob { event: node.event.unwrap(), handler: node.handler, id };
            node.state = EventState::Processing;
            return Some(job);
        } else if id < *main_thread_required {
            *main_thread_required = id;
        }
    }
    working_transitive_dependencies_bi.or_at(0, deps.len(), &deps);
    working_transitive_dependencies_mut.or_at(0, deps_mut.len(), &deps_mut);
    None
}

/// Where the rolling lists account for the nodes before one that is not complete, that node is
/// ready exactly if its flags are apart from them; and joined with its flags they account for it
/// too.
proof fn lemma_selection<V>(
    ctx: &ContextInner<V>,
    nodes: Seq<NodeView>,
    k: int,
    working_bi: Seq<bool>,
    working_mut: Seq<bool>,
)
    requires
        ctx.wf(),
        0 <= k < nodes.len(),
        nodes[k].state != EventState::Complete,
        nodes[k].handler.system_id < ctx.count(),
        working_for(ctx.plan(), nodes, k, working_bi, working_mut),
    ensures
        ({
            let system = nodes[k].handler.system_id as int;
            let deps = ctx.transitive_dependencies_bi.row(system);
            let deps_mut = ctx.transitive_dependencies_mut.row(system);
            &&& ready(ctx.plan(), nodes, k) == (nodes[k].state == EventState::Queued && (k == 0
                || (exclusive(working_bi, deps_mut) && exclusive(working_mut, deps))))
            &&& runnable(ctx.plan(), false, nodes[k]) == ctx.sync_systems@[system]
            &&& working_for(
                ctx.plan(),
                nodes,
                k + 1,
                joined_flags(working_bi, deps),
                joined_flags(working_mut, deps_mut),
            )
        }),
{
    let system = nodes[k].handler.system_id as int;
    let deps = ctx.transitive_dependencies_bi.row(system);
    let deps_mut = ctx.transitive_dependencies_mut.row(system);
    lemma_rows(ctx, system, deps, deps_mut);
    lemma_working_exclusive(
        ctx.plan(),
        nodes,
        k,
        working_bi,
        working_mut,
        system,
        deps,
        deps_mut,
    );
    lemma_working_step(
        ctx.plan(),
        nodes,
        k,
        working_bi,
        working_mut,
        deps,
        deps_mut,
        joined_flags(working_bi, deps),
        joined_flags(working_mut, deps_mut),
    );
}

/// The rows of the tables of a context, in terms of its graph.
proof fn lemma_rows<V>(ctx: &ContextInner<V>, system: int, row_bi: Seq<bool>, row_mut: Seq<bool>)
    requires
        ctx.wf(),
        0 <= system < ctx.count(),
        row_bi == ctx.transitive_dependencies_bi.row(system),
        row_mut == ctx.transitive_dependencies_mut.row(system),
    ensures
        rows_for(ctx.plan(), system, row_bi, row_mut),
        ctx.sync_systems@[system] == shareable(ctx.plan().graph, ctx.plan().systems, system),
{
    let plan = ctx.plan();
    assert forall|s: int| 0 <= s < plan.graph.len() implies #[trigger] row_bi[s] == related(
        plan.graph,
        system,
        s,
    ) by {
        assert(ctx.transitive_dependencies_bi.flag(system, s) == row_bi[s]);
    }
    assert forall|s: int| 0 <= s < plan.graph.len() implies #[trigger] row_mut[s] == reaches(
        plan.graph,
        true,
        system,
        s,
    ) by {
        assert(ctx.transitive_dependencies_mut.flag(system, s) == row_mut[s]);
    }
}

impl EventManager {
    /// The events of each queue of the stack.
    pub open spec fn lists(&self) -> Seq<Seq<EventValue>> {
        lists_view(self.event_lists@)
    }

    /// The nodes in progress.
    pub open spec fn nodes(&self) -> Seq<NodeView> {
        nodes_view(self.in_progress@)
    }

    /// The index of the first node.
    pub open spec fn start(&self) -> int {
        counter_of(self.in_progress) as int
    }

    /// The state of event processing.
    pub open spec fn pipeline(&self) -> Pipeline {
        Pipeline {
            lists: self.lists(),
            nodes: self.nodes(),
            start: self.start(),
            blocked: if self.blocked_main_event == UNBLOCKED {
                None
            } else {
                Some(self.blocked_main_event as int)
            },
            clogged: self.clogged_event,
        }
    }

    /// Whether the manager has been configured for a context, and its state makes sense there.
    pub open spec fn wf<V>(&self, ctx: &ContextInner<V>) -> bool {
        &&& self.pipeline().wf(ctx.plan())
        &&& self.working_transitive_dependencies_bi@.len() == ctx.count()
        &&& self.working_transitive_dependencies_mut@.len() == ctx.count()
    }

    /// Creates a new, empty event manager.
    pub fn new() -> (manager: Self)
        ensures
            manager.lists().len() == 0,
            manager.nodes().len() == 0,
            manager.start() == 0,
            manager.pipeline().blocked is None,
            manager.clogged_event is None,
            manager.receiver.pending().len() == 0,
            manager.working_transitive_dependencies_bi@.len() == 0,
            manager.working_transitive_dependencies_mut@.len() == 0,
    {
        EventManager {
            blocked_main_event: UNBLOCKED,
            clogged_event: None,
            event_lists: EventLists::new(),
            receiver: EventReceiver::new(),
            in_progress: NodeDeque::new(),
            working_transitive_dependencies_bi: Bits::repeat(false, 0),
            working_transitive_dependencies_mut: Bits::repeat(false, 0),
        }
    }

    /// Attempts to select a job from the event nodes in the pipeline from the given index on. The
    /// rolling lists must account for the nodes before.
    fn select_from<V>(&mut self, ctx: &ContextInner<V>, main_thread: bool, first: isize) -> (job:
        Option<EventJob>)
        requires
            ctx.wf(),
            old(self).start() <= first <= old(self).start() + old(self).nodes().len(),
            old(self).start() + old(self).nodes().len() < isize::MAX,
            forall|k: int|
                0 <= k < old(self).nodes().len() ==> node_wf(
                    ctx.plan(),
                    #[trigger] old(self).nodes()[k],
                    old(self).start() + k,
                ),
            working_for(
                ctx.plan(),
                old(self).nodes(),
                first - old(self).start(),
                old(self).working_transitive_dependencies_bi@,
                old(self).working_transitive_dependencies_mut@,
            ),
            blocks_first(
                ctx.plan(),
                old(self).nodes(),
                first - old(self).start(),
                old(self).start(),
                old(self).blocked_main_event,
            ),
            main_thread ==> old(self).blocked_main_event == UNBLOCKED,
        ensures
            final(self).event_lists == old(self).event_lists,
            final(self).clogged_event == old(self).clogged_event,
            final(self).receiver == old(self).receiver,
            final(self).start() == old(self).start(),
            final(self).working_transitive_dependencies_bi@.len() == ctx.count(),
            final(self).working_transitive_dependencies_mut@.len() == ctx.count(),
            match first_selectable(
                ctx.plan(),
                main_thread,
                old(self).nodes(),
                first - old(self).start(),
            ) {
                Some(k) => {
                    &&& job == Some(job_for(old(self).nodes()[k], old(self).start() + k))
                    &&& final(self).nodes() == taken(old(self).nodes(), k)
                    &&& working_for(
                        ctx.plan(),
                        old(self).nodes(),
                        k,
                        final(self).working_transitive_dependencies_bi@,
                        final(self).working_transitive_dependencies_mut@,
                    )
                    &&& blocks_first(
                        ctx.plan(),
                        old(self).nodes(),
                        k,
                        old(self).start(),
                        final(self).blocked_main_event,
                    )
                    &&& main_thread ==> final(self).blocked_main_event == UNBLOCKED
                },
                None => {
                    &&& job is None
                    &&& final(self).nodes() == old(self).nodes()
                    &&& working_for(
                        ctx.plan(),
                        old(self).nodes(),
                        old(self).nodes().len() as int,
                        final(self).working_transitive_dependencies_bi@,
                        final(self).working_transitive_dependencies_mut@,
                    )
                    &&& blocks_first(
                        ctx.plan(),
                        old(self).nodes(),
                        old(self).nodes().len() as int,
                        old(self).start(),
                        final(self).blocked_main_event,
                    )
                    &&& main_thread ==> final(self).blocked_main_event == UNBLOCKED
                },
            },
    {
        let ghost plan = ctx.plan();
        let ghost nodes = self.nodes();
        let start: isize = self.in_progress.counter();
        let end: isize = self.in_progress.end_index();
        let mut id: isize = first;
        while id < end
            invariant
                ctx.wf(),
                plan == ctx.plan(),
                start == old(self).start(),
                end == start + nodes.len(),
                end < isize::MAX,
                first <= id <= end,
                start <= first,
                nodes == old(self).nodes(),
                self.start() == start,
                self.nodes() == nodes,
                self.event_lists == old(self).event_lists,
                self.clogged_event == old(self).clogged_event,
                self.receiver == old(self).receiver,
                forall|k: int|
                    0 <= k < nodes.len() ==> node_wf(plan, #[trigger] nodes[k], start + k),
                first_selectable(plan, main_thread, nodes, first - start) == first_selectable(
                    plan,
                    main_thread,
                    nodes,
                    id - start,
                ),
                working_for(
                    plan,
                    nodes,
                    id - start,
                    self.working_transitive_dependencies_bi@,
                    self.working_transitive_dependencies_mut@,
                ),
                blocks_first(plan, nodes, id - start, start as int, self.blocked_main_event),
                main_thread ==> self.blocked_main_event == UNBLOCKED,
            decreases end - id,
        {
            let ghost k = id - start;
            let ghost before = *self;
            let node = self.in_progress.get_mut(id);
            assert(node@ == nodes[k]);
            assert(node_wf(plan, nodes[k], start + k));
            if node.state != EventState::Complete {
                proof {
                    lemma_selection(
                        ctx,
                        nodes,
                        k,
                        before.working_transitive_dependencies_bi@,
                        before.working_transitive_dependencies_mut@,
                    );
                }
                let job = try_select_job(
                    ctx,
                    id,
                    start,
                    node,
                    main_thread,
                    &mut self.working_transitive_dependencies_bi,
                    &mut self.working_transitive_dependencies_mut,
                    &mut self.blocked_main_event,
                );
                if job.is_some() {
                    assert(self.nodes() =~= taken(nodes, k));
                    return job;
                }
                assert(self.nodes() =~= nodes);
            } else {
                proof {
                    lemma_working_step(
                        plan,
                        nodes,
                        k,
                        before.working_transitive_dependencies_bi@,
                        before.working_transitive_dependencies_mut@,
                        Seq::empty(),
                        Seq::empty(),
                        before.working_transitive_dependencies_bi@,
                        before.working_transitive_dependencies_mut@,
                    );
                }
                assert(self.nodes() =~= nodes);
            }
            id = id + 1;
        }
        None
    }
}

/// Replacing the queue at the top of a stack replaces its events.
proof fn lemma_lists_top(lists: Seq<VecDeque<EventValue>>, top: VecDeque<EventValue>)
    requires
        lists.len() > 0,
    ensures
        lists_view(lists.update(lists.len() - 1, top)) == with_top(lists_view(lists), top@),
        lists_view(lists).last() == lists.last()@,
{
    assert(lists_view(lists.update(lists.len() - 1, top)) =~= with_top(lists_view(lists), top@));
}

/// A blocking index stays that of the first node that is ready when nodes are added that are not
/// counted.
proof fn lemma_blocks_prefix(
    plan: Plan,
    a: Seq<NodeView>,
    b: Seq<NodeView>,
    count: int,
    start: int,
    blocked: isize,
)
    requires
        count <= a.len(),
        count <= b.len(),
        forall|j: int| 0 <= j < count ==> #[trigger] a[j] == b[j],
        blocks_first(plan, a, count, start, blocked),
    ensures
        blocks_first(plan, b, count, start, blocked),
{
    assert forall|j: int| 0 <= j < count implies #[trigger] ready(plan, b, j) == ready(
        plan,
        a,
        j,
    ) by {
        lemma_ready_prefix(plan, a, b, j);
    }
}

impl EventManager {
    /// Queues newly-received events into the event pipeline. The rolling lists must account for the
    /// nodes that are in the pipeline.
    pub fn queue_new_jobs<V>(&mut self, ctx: &ContextInner<V>, main_thread: bool) -> (job: Option<
        EventJob,
    >)
        requires
            ctx.wf(),
            old(self).clogged_event is None,
            forall|k: int|
                0 <= k < old(self).nodes().len() ==> node_wf(
                    ctx.plan(),
                    #[trigger] old(self).nodes()[k],
                    old(self).start() + k,
                ),
            old(self).start() + queue(
                ctx.plan(),
                main_thread,
                old(self).lists(),
                old(self).nodes(),
                old(self).start(),
            ).nodes.len() < isize::MAX,
            working_for(
                ctx.plan(),
                old(self).nodes(),
                old(self).nodes().len() as int,
                old(self).working_transitive_dependencies_bi@,
                old(self).working_transitive_dependencies_mut@,
            ),
            blocks_first(
                ctx.plan(),
                old(self).nodes(),
                old(self).nodes().len() as int,
                old(self).start(),
                old(self).blocked_main_event,
            ),
            main_thread ==> old(self).blocked_main_event == UNBLOCKED,
        ensures
            final(self).receiver == old(self).receiver,
            final(self).start() == old(self).start(),
            final(self).working_transitive_dependencies_bi@.len() == ctx.count(),
            final(self).working_transitive_dependencies_mut@.len() == ctx.count(),
            ({
                let queued = queue(
                    ctx.plan(),
                    main_thread,
                    old(self).lists(),
                    old(self).nodes(),
                    old(self).start(),
                );
                &&& final(self).lists() == queued.lists
                &&& final(self).nodes() == queued.nodes
                &&& final(self).clogged_event == queued.clogged
                &&& match queued.job {
                    Some(k) => {
                        &&& job == Some(job_for(queued.nodes[k], old(self).start() + k))
                        &&& working_for(
                            ctx.plan(),
                            queued.nodes,
                            k,
                            final(self).working_transitive_dependencies_bi@,
                            final(self).working_transitive_dependencies_mut@,
                        )
                        &&& blocks_first(
                            ctx.plan(),
                            queued.nodes,
                            k,
                            old(self).start(),
                            final(self).blocked_main_event,
                        )
                        &&& main_thread ==> final(self).blocked_main_event == UNBLOCKED
                    },
                    None => {
                        &&& job is None
                        &&& working_for(
                            ctx.plan(),
                            queued.nodes,
                            queued.nodes.len() as int,
                            final(self).working_transitive_dependencies_bi@,
                            final(self).working_transitive_dependencies_mut@,
                        )
                        &&& blocks_first(
                            ctx.plan(),
                            queued.nodes,
                            queued.nodes.len() as int,
                            old(self).start(),
                            final(self).blocked_main_event,
                        )
                        &&& main_thread ==> final(self).blocked_main_event == UNBLOCKED
                    },
                }
            }),
            ({
                let lists = old(self).lists();
                lists.len() > 0 && lists.last().len() > 0 && clogs(lists.last()[0]) ==> {
                    &&& final(self).working_transitive_dependencies_bi
                        == old(self).working_transitive_dependencies_bi
                    &&& final(self).working_transitive_dependencies_mut
                        == old(self).working_transitive_dependencies_mut
                    &&& final(self).blocked_main_event == old(self).blocked_main_event
                }
            }),
            ({
                let lists = old(self).lists();
                lists.len() > 0 && lists.last().len() > 0 && lists.last()[0] is Delayed
                    && old(self).nodes().len() == 0 ==> {
                    let queued = queue(
                        ctx.plan(),
                        main_thread,
                        with_top(
                            lists,
                            lists.last().drop_first().push(*lists.last()[0]->Delayed_0),
                        ),
                        old(self).nodes(),
                        old(self).start(),
                    );
                    &&& final(self).lists() == queued.lists
                    &&& final(self).nodes() == queued.nodes
                    &&& final(self).clogged_event == queued.clogged
                    &&& job == (match queued.job {
                        Some(k) => Some(job_for(queued.nodes[k], old(self).start() + k)),
                        None => None,
                    })
                }
            }),
    {
        let ghost plan = ctx.plan();
        let ghost start = self.start();
        let ghost goal = queue(plan, main_thread, self.lists(), self.nodes(), start);
        loop
            invariant
                ctx.wf(),
                plan == ctx.plan(),
                start == old(self).start(),
                goal == queue(
                    plan,
                    main_thread,
                    old(self).lists(),
                    old(self).nodes(),
                    old(self).start(),
                ),
                goal == queue(plan, main_thread, self.lists(), self.nodes(), start),
                old(self).lists().len() > 0 && old(self).lists().last().len() > 0 && clogs(
                    old(self).lists().last()[0],
                ) ==> *self == *old(self),
                start + goal.nodes.len() < isize::MAX,
                self.start() == start,
                self.receiver == old(self).receiver,
                self.clogged_event is None,
                forall|k: int|
                    0 <= k < self.nodes().len() ==> node_wf(
                        plan,
                        #[trigger] self.nodes()[k],
                        start + k,
                    ),
                working_for(
                    plan,
                    self.nodes(),
                    self.nodes().len() as int,
                    self.working_transitive_dependencies_bi@,
                    self.working_transitive_dependencies_mut@,
                ),
                blocks_first(
                    plan,
                    self.nodes(),
                    self.nodes().len() as int,
                    start,
                    self.blocked_main_event,
                ),
                main_thread ==> self.blocked_main_event == UNBLOCKED,
            decreases self.lists().len(), total_weight(self.lists().last()),
        {
            if self.event_lists.is_empty() {
                return None;
            }
            let ghost lists = self.lists();
            let ghost nodes = self.nodes();
            let ghost stack = self.event_lists@;
            let event = self.event_lists.last_mut().pop_front();
            proof {
                lemma_lists_top(stack, self.event_lists@.last());
                lemma_queue_grows(plan, main_thread, lists, nodes, start);
            }
            match event {
                Some(event) => {
                    let ghost rest = lists.last().drop_first();
                    proof {
                        assert(self.event_lists@.last()@ =~= rest);
                        lemma_weight_first(lists.last());
                    }
                    if event.clogging_event() {
                        self.clogged_event = Some(event);
                        return None;
                    }
                    match event {
                        EventValue::Delayed(inner) => {
                            if self.in_progress.is_empty() {
                                let ghost stack = self.event_lists@;
                                let ghost put_off = *inner;
                                self.event_lists.last_mut().push_back(*inner);
                                proof {
                                    lemma_lists_top(stack, self.event_lists@.last());
                                    lemma_weight_push(rest, put_off);
                                    assert(self.lists() =~= with_top(lists, rest.push(put_off)));
                                }
                            } else {
                                let ghost later = with_top(lists, rest);
                                let ghost node = completed_node(event);
                                proof {
                                    lemma_queue_grows(
                                        plan,
                                        main_thread,
                                        later,
                                        nodes.push(node),
                                        start,
                                    );
                                }
                                self.in_progress.push_back(
                                    EventNode::completed(EventValue::Delayed(inner)),
                                );
                                proof {
                                    assert(self.nodes() =~= nodes.push(node));
                                    lemma_completed_pushed(
                                        plan,
                                        nodes,
                                        node,
                                        start,
                                        self.working_transitive_dependencies_bi@,
                                        self.working_transitive_dependencies_mut@,
                                        self.blocked_main_event,
                                    );
                                }
                            }
                        },
                        EventValue::Typed { event_type, payload } => {
                            let end: isize = self.in_progress.end_index();
                            let shared = SharedEvent { batch: end, event_type, payload };
                            let ghost later = with_top(lists, rest);
                            let ghost handlers = all_responding(plan.systems, event_type);
                            let ghost added = nodes + fan_out(shared, handlers);
                            proof {
                                lemma_queue_grows(plan, main_thread, later, added, start);
                                lemma_first_selectable(
                                    plan,
                                    main_thread,
                                    added,
                                    nodes.len() as int,
                                );
                                assert((start + nodes.len()) as isize == end);
                                match first_selectable(
                                    plan,
                                    main_thread,
                                    added,
                                    nodes.len() as int,
                                ) {
                                    Some(k) => {
                                        assert(goal.nodes == taken(added, k));
                                    },
                                    None => {
                                        assert(goal == queue(
                                            plan,
                                            main_thread,
                                            later,
                                            added,
                                            start,
                                        ));
                                    },
                                }
                                assert(added.len() <= goal.nodes.len());
                            }
                            self.push_handlers(ctx, shared);
                            proof {
                                assert(self.nodes() =~= added);
                                lemma_handlers_pushed(
                                    ctx,
                                    nodes,
                                    shared,
                                    start,
                                    self.working_transitive_dependencies_bi@,
                                    self.working_transitive_dependencies_mut@,
                                    self.blocked_main_event,
                                );
                            }
                            let job = self.select_from(ctx, main_thread, end);
                            if job.is_some() {
                                proof {
                                    lemma_first_selectable(
                                        plan,
                                        main_thread,
                                        added,
                                        nodes.len() as int,
                                    );
                                    let k = first_selectable(
                                        plan,
                                        main_thread,
                                        added,
                                        nodes.len() as int,
                                    )->Some_0;
                                    lemma_working_prefix(
                                        plan,
                                        added,
                                        goal.nodes,
                                        k,
                                        self.working_transitive_dependencies_bi@,
                                        self.working_transitive_dependencies_mut@,
                                    );
                                    lemma_blocks_prefix(
                                        plan,
                                        added,
                                        goal.nodes,
                                        k,
                                        start,
                                        self.blocked_main_event,
                                    );
                                }
                                return job;
                            }
                        },
                        _ => {},
                    }
                },
                None => {
                    proof {
                        assert(self.lists() =~= lists);
                    }
                    if self.in_progress.is_empty() {
                        let _ = self.event_lists.pop();
                        proof {
                            assert(self.lists() =~= lists.drop_last());
                        }
                    } else {
                        return None;
                    }
                },
            }
        }
    }

    /// Adds a node for each handler that responds to an event to the pipeline.
    fn push_handlers<V>(&mut self, ctx: &ContextInner<V>, event: SharedEvent)
        requires
            ctx.wf(),
            old(self).start() + old(self).nodes().len() + all_responding(
                ctx.plan().systems,
                event.event_type,
            ).len() < isize::MAX,
        ensures
            *final(self) == (EventManager { in_progress: final(self).in_progress, ..*old(self) }),
            final(self).start() == old(self).start(),
            final(self).nodes() == old(self).nodes() + fan_out(
                event,
                all_responding(ctx.plan().systems, event.event_type),
            ),
    {
        let ghost nodes = self.nodes();
        let handlers = ctx.event_handlers.handlers(event.event_type);
        let ghost wanted = fan_out(event, handlers@);
        assert(handlers@ == all_responding(ctx.plan().systems, event.event_type));
        let mut i: usize = 0;
        assert(self.nodes() =~= nodes + wanted.take(0));
        while i < handlers.len()
            invariant
                i <= handlers@.len(),
                wanted == fan_out(event, handlers@),
                *self == (EventManager { in_progress: self.in_progress, ..*old(self) }),
                self.start() == old(self).start(),
                nodes == old(self).nodes(),
                self.nodes() == nodes + wanted.take(i as int),
                self.start() + nodes.len() + handlers@.len() < isize::MAX,
            decreases handlers@.len() - i,
        {
            assert(self.nodes().len() == self.in_progress@.len());
            assert(wanted.take(i as int).len() == i);
            let ghost before = self.nodes();
            self.in_progress.push_back(EventNode::new(event, handlers[i]));
            assert(wanted.take(i + 1) =~= wanted.take(i as int).push(wanted[i as int]));
            assert(self.nodes() =~= before.push(wanted[i as int]));
            i = i + 1;
            assert(self.nodes() =~= nodes + wanted.take(i as int));
        }
        assert(wanted.take(i as int) =~= wanted);
    }
}

/// An immediately-complete node at the end holds nothing up, and does not wait.
proof fn lemma_completed_pushed(
    plan: Plan,
    nodes: Seq<NodeView>,
    node: NodeView,
    start: int,
    working_bi: Seq<bool>,
    working_mut: Seq<bool>,
    blocked: isize,
)
    requires
        node.state == EventState::Complete,
        node.event is None,
        working_for(plan, nodes, nodes.len() as int, working_bi, working_mut),
        blocks_first(plan, nodes, nodes.len() as int, start, blocked),
        forall|k: int|
            0 <= k < nodes.len() ==> node_wf(plan, #[trigger] nodes[k], start + k),
    ensures
        working_for(plan, nodes.push(node), nodes.len() as int + 1, working_bi, working_mut),
        blocks_first(plan, nodes.push(node), nodes.len() as int + 1, start, blocked),
        forall|k: int|
            0 <= k < nodes.push(node).len() ==> node_wf(
                plan,
                #[trigger] nodes.push(node)[k],
                start + k,
            ),
{
    let longer = nodes.push(node);
    let count = nodes.len() as int;
    lemma_working_prefix(plan, nodes, longer, count, working_bi, working_mut);
    lemma_working_step(
        plan,
        longer,
        count,
        working_bi,
        working_mut,
        Seq::empty(),
        Seq::empty(),
        working_bi,
        working_mut,
    );
    lemma_blocks_prefix(plan, nodes, longer, count, start, blocked);
    assert(!ready(plan, longer, count));
    assert forall|k: int| 0 <= k < longer.len() implies node_wf(
        plan,
        #[trigger] longer[k],
        start + k,
    ) by {
        if k < count {
            assert(longer[k] == nodes[k]);
        }
    }
}

/// Nodes for an event at the end make sense, and leave what is known of those before.
proof fn lemma_handlers_pushed<V>(
    ctx: &ContextInner<V>,
    nodes: Seq<NodeView>,
    event: SharedEvent,
    start: int,
    working_bi: Seq<bool>,
    working_mut: Seq<bool>,
    blocked: isize,
)
    requires
        ctx.wf(),
        event.batch == start + nodes.len(),
        working_for(ctx.plan(), nodes, nodes.len() as int, working_bi, working_mut),
        blocks_first(ctx.plan(), nodes, nodes.len() as int, start, blocked),
        forall|k: int|
            0 <= k < nodes.len() ==> node_wf(ctx.plan(), #[trigger] nodes[k], start + k),
    ensures
        ({
            let added = nodes + fan_out(
                event,
                all_responding(ctx.plan().systems, event.event_type),
            );
            &&& working_for(ctx.plan(), added, nodes.len() as int, working_bi, working_mut)
            &&& blocks_first(ctx.plan(), added, nodes.len() as int, start, blocked)
            &&& forall|k: int|
                0 <= k < added.len() ==> node_wf(ctx.plan(), #[trigger] added[k], start + k)
        }),
{
    let plan = ctx.plan();
    let handlers = all_responding(plan.systems, event.event_type);
    let added = nodes + fan_out(event, handlers);
    let count = nodes.len() as int;
    lemma_working_prefix(plan, nodes, added, count, working_bi, working_mut);
    lemma_blocks_prefix(plan, nodes, added, count, start, blocked);
    law_handlers_in_system_order(plan.systems, event.event_type);
    assert forall|k: int| 0 <= k < added.len() implies node_wf(
        plan,
        #[trigger] added[k],
        start + k,
    ) by {
        if k < count {
            assert(added[k] == nodes[k]);
        } else {
            assert(added[k] == queued_node(event, handlers[k - count]));
        }
    }
}

/// A blocking index tells which node is the first that is ready.
proof fn lemma_blocks_first(plan: Plan, nodes: Seq<NodeView>, start: int, blocked: isize)
    requires
        blocks_first(plan, nodes, nodes.len() as int, start, blocked),
    ensures
        first_ready(plan, nodes, 0) == (if blocked == UNBLOCKED {
            None
        } else {
            Some(blocked - start)
        }),
{
    lemma_first_ready(plan, nodes, 0);
}

/// Appends events to a queue, in order.
fn extend_list(list: &mut VecDeque<EventValue>, events: Vec<EventValue>)
    ensures
        final(list)@ == old(list)@ + events@,
{
    let ghost before = list@;
    for event in iter: events
        invariant
            iter.seq() == events@,
            before == old(list)@,
            list@ == before + events@.take(iter.index() as int),
    {
        list.push_back(event);
        assert(list@ =~= before + events@.take(iter.index() + 1));
    }
    assert(events@.take(events@.len() as int) =~= events@);
}

/// Determines whether two nodes were made for the same event.
fn same_event(a: &Option<SharedEvent>, b: &Option<SharedEvent>) -> (result: bool)
    ensures
        result == (*a == *b),
{
    match (a, b) {
        (Some(a), Some(b)) => a.batch == b.batch && a.event_type.eq(&b.event_type) && a.payload
            == b.payload,
        (None, None) => true,
        _ => false,
    }
}

/// Represents the status of the event manager after finishing an event cycle.
pub enum EventManagerState {
    /// The cycle is complete, and all events have been processed.
    Complete,
    /// The cycle is clogged and requires individual processing of the given event.
    CycleClogged(EventValue),
}

impl EventManager {
    /// Configures this event manager for interaction with the given inner context.
    pub fn configure<V>(&mut self, ctx: &ContextInner<V>)
        requires
            ctx.wf(),
            old(self).nodes().len() == 0,
            old(self).pipeline().blocked is None,
        ensures
            final(self).wf(ctx),
            final(self).pipeline() == (Pipeline {
                start: isize::MIN as int,
                ..old(self).pipeline()
            }),
            final(self).receiver == old(self).receiver,
    {
        proof {
            lemma_fits(ctx.count());
        }
        self.in_progress.set_counter(isize::MIN);
        self.working_transitive_dependencies_bi.resize(ctx.systems.len(), false);
        self.working_transitive_dependencies_mut.resize(ctx.systems.len(), false);
        assert(self.nodes() =~= old(self).nodes());
    }

    /// Updates the state of this event manager and returns the reason that the event manager
    /// stopped processing.
    pub fn update_state(&mut self) -> (state: EventManagerState)
        ensures
            final(self).pipeline() == (Pipeline { clogged: None, ..old(self).pipeline() }),
            final(self).receiver == old(self).receiver,
            final(self).working_transitive_dependencies_bi
                == old(self).working_transitive_dependencies_bi,
            final(self).working_transitive_dependencies_mut
                == old(self).working_transitive_dependencies_mut,
            match old(self).clogged_event {
                Some(event) => state == EventManagerState::CycleClogged(event),
                None => state == EventManagerState::Complete,
            },
    {
        match self.clogged_event.take() {
            Some(event) => EventManagerState::CycleClogged(event),
            None => EventManagerState::Complete,
        }
    }

    /// Pushes all externally-raised events onto the top event queue.
    pub fn gather_external_events(&mut self)
        requires
            old(self).lists().len() > 0,
        ensures
            final(self).pipeline() == (Pipeline {
                lists: with_top(
                    old(self).lists(),
                    old(self).lists().last() + values_of(old(self).receiver.pending()),
                ),
                ..old(self).pipeline()
            }),
            final(self).receiver.pending() == Seq::<Event>::empty(),
            final(self).working_transitive_dependencies_bi
                == old(self).working_transitive_dependencies_bi,
            final(self).working_transitive_dependencies_mut
                == old(self).working_transitive_dependencies_mut,
    {
        let ghost stack = self.event_lists@;
        let events = self.receiver.get_all();
        extend_list(self.event_lists.last_mut(), events);
        proof {
            lemma_lists_top(stack, self.event_lists@.last());
        }
    }

    /// Begins a new externally-driven event cycle.
    pub fn push_external_event_cycle(&mut self)
        requires
            old(self).nodes().len() == 0,
        ensures
            final(self).pipeline() == (Pipeline {
                lists: old(self).lists().push(Seq::empty()),
                ..old(self).pipeline()
            }),
            final(self).receiver == old(self).receiver,
            final(self).working_transitive_dependencies_bi
                == old(self).working_transitive_dependencies_bi,
            final(self).working_transitive_dependencies_mut
                == old(self).working_transitive_dependencies_mut,
    {
        let ghost before = self.lists();
        self.event_lists.push(VecDeque::new());
        assert(self.lists() =~= before.push(Seq::empty()));
    }

    /// Pushes a new event cycle onto the pipeline stack with the given list of events.
    pub fn push_event_cycle(&mut self, events: Vec<EventValue>)
        requires
            old(self).nodes().len() == 0,
        ensures
            final(self).pipeline() == (Pipeline {
                lists: old(self).lists().push(events@),
                ..old(self).pipeline()
            }),
            final(self).receiver == old(self).receiver,
            final(self).working_transitive_dependencies_bi
                == old(self).working_transitive_dependencies_bi,
            final(self).working_transitive_dependencies_mut
                == old(self).working_transitive_dependencies_mut,
    {
        let ghost before = self.lists();
        self.event_lists.push(VecDeque::new());
        let ghost stack = self.event_lists@;
        extend_list(self.event_lists.last_mut(), events);
        proof {
            lemma_lists_top(stack, self.event_lists@.last());
            assert(self.lists() =~= before.push(events@));
        }
    }

    /// Attempts to select a new job from this pipeline, for the given thread.
    pub fn next_job<V>(&mut self, ctx: &ContextInner<V>, thread: u64) -> (result: Result<
        EventJob,
        EventJobError,
    >)
        requires
            ctx.wf(),
            old(self).wf(ctx),
            old(self).start() + next(
                ctx.plan(),
                thread == ctx.owning_thread,
                old(self).pipeline(),
            ).0.nodes.len() < isize::MAX,
        ensures
            final(self).wf(ctx),
            final(self).receiver == old(self).receiver,
            final(self).pipeline() == next(
                ctx.plan(),
                thread == ctx.owning_thread,
                old(self).pipeline(),
            ).0,
            match next(ctx.plan(), thread == ctx.owning_thread, old(self).pipeline()).1 {
                Ok(id) => result == Ok::<EventJob, EventJobError>(
                    job_for(final(self).nodes()[id - old(self).start()], id),
                ),
                Err(error) => result == Err::<EventJob, EventJobError>(error),
            },
    {
        let ghost plan = ctx.plan();
        let ghost before = self.pipeline();
        let main_thread: bool = thread == ctx.owning_thread;
        proof {
            lemma_next_wf(plan, main_thread, before);
        }
        if self.blocked_main_event < UNBLOCKED {
            if main_thread {
                let id: isize = self.blocked_main_event;
                let ghost nodes = self.nodes();
                let ghost k = id - self.start();
                assert(node_wf(plan, nodes[k], id as int));
                let node = self.in_progress.get_mut(id);
                let job = EventJob { event: node.event.unwrap(), handler: node.handler, id };
                node.state = EventState::Processing;
                self.blocked_main_event = UNBLOCKED;
                assert(self.nodes() =~= taken(nodes, k));
                return Ok(job);
            } else {
                return Err(EventJobError::MainThreadRequired);
            }
        }
        self.working_transitive_dependencies_bi.fill(false);
        self.working_transitive_dependencies_mut.fill(false);
        proof {
            assert(working_for(
                plan,
                self.nodes(),
                0,
                self.working_transitive_dependencies_bi@,
                self.working_transitive_dependencies_mut@,
            ));
            lemma_first_selectable(plan, main_thread, self.nodes(), 0);
        }
        let queued = self.get_queued_job(ctx, main_thread);
        if let Some(result) = queued {
            self.blocked_main_event = UNBLOCKED;
            return Ok(result);
        }
        if self.clogged_event.is_none() {
            proof {
                lemma_queue_wf(plan, main_thread, before.lists, before.nodes, before.start);
            }
            let new = self.queue_new_jobs(ctx, main_thread);
            if let Some(result) = new {
                self.blocked_main_event = UNBLOCKED;
                return Ok(result);
            }
        }
        proof {
            lemma_blocks_first(plan, self.nodes(), before.start, self.blocked_main_event);
        }
        if self.in_progress.is_empty() {
            Err(EventJobError::Complete)
        } else if self.blocked_main_event < UNBLOCKED {
            Err(EventJobError::MainThreadRequired)
        } else {
            Err(EventJobError::Busy)
        }
    }

    /// Attempts to select a job from the list of available event nodes in the event pipeline.
    fn get_queued_job<V>(&mut self, ctx: &ContextInner<V>, main_thread: bool) -> (job: Option<
        EventJob,
    >)
        requires
            ctx.wf(),
            old(self).start() + old(self).nodes().len() < isize::MAX,
            forall|k: int|
                0 <= k < old(self).nodes().len() ==> node_wf(
                    ctx.plan(),
                    #[trigger] old(self).nodes()[k],
                    old(self).start() + k,
                ),
            working_for(
                ctx.plan(),
                old(self).nodes(),
                0,
                old(self).working_transitive_dependencies_bi@,
                old(self).working_transitive_dependencies_mut@,
            ),
            old(self).blocked_main_event == UNBLOCKED,
        ensures
            final(self).event_lists == old(self).event_lists,
            final(self).clogged_event == old(self).clogged_event,
            final(self).receiver == old(self).receiver,
            final(self).start() == old(self).start(),
            final(self).working_transitive_dependencies_bi@.len() == ctx.count(),
            final(self).working_transitive_dependencies_mut@.len() == ctx.count(),
            match first_selectable(ctx.plan(), main_thread, old(self).nodes(), 0) {
                Some(k) => {
                    &&& job == Some(job_for(old(self).nodes()[k], old(self).start() + k))
                    &&& final(self).nodes() == taken(old(self).nodes(), k)
                    &&& working_for(
                        ctx.plan(),
                        old(self).nodes(),
                        k,
                        final(self).working_transitive_dependencies_bi@,
                        final(self).working_transitive_dependencies_mut@,
                    )
                    &&& blocks_first(
                        ctx.plan(),
                        old(self).nodes(),
                        k,
                        old(self).start(),
                        final(self).blocked_main_event,
                    )
                    &&& main_thread ==> final(self).blocked_main_event == UNBLOCKED
                },
                None => {
                    &&& job is None
                    &&& final(self).nodes() == old(self).nodes()
                    &&& working_for(
                        ctx.plan(),
                        old(self).nodes(),
                        old(self).nodes().len() as int,
                        final(self).working_transitive_dependencies_bi@,
                        final(self).working_transitive_dependencies_mut@,
                    )
                    &&& blocks_first(
                        ctx.plan(),
                        old(self).nodes(),
                        old(self).nodes().len() as int,
                        old(self).start(),
                        final(self).blocked_main_event,
                    )
                    &&& main_thread ==> final(self).blocked_main_event == UNBLOCKED
                },
            },
    {
        let start: isize = self.in_progress.counter();
        self.select_from(ctx, main_thread, start)
    }

    /// Marks the given job as complete, which the given thread has run.
    pub fn complete_job(&mut self, job: &EventJob, thread: u64)
        requires
            old(self).start() + old(self).nodes().len() < isize::MAX,
            old(self).lists().len() > 0,
            old(self).start() <= job.id < old(self).start() + old(self).nodes().len(),
            old(self).nodes()[job.id - old(self).start()].state == EventState::Processing,
        ensures
            final(self).pipeline() == complete(
                old(self).pipeline(),
                job.id as int,
                sent_by(old(self).receiver.pending(), thread),
            ),
            final(self).receiver.pending() == sent_by_others(
                old(self).receiver.pending(),
                thread,
            ),
            final(self).working_transitive_dependencies_bi
                == old(self).working_transitive_dependencies_bi,
            final(self).working_transitive_dependencies_mut
                == old(self).working_transitive_dependencies_mut,
            forall|plan: Plan| #[trigger]
                old(self).pipeline().wf(plan) ==> final(self).pipeline().wf(plan),
    {
        let ghost before = self.pipeline();
        let ghost nodes = self.nodes();
        let ghost k = job.id - self.start();
        let front_ev: Option<SharedEvent> = match self.in_progress.front() {
            Some(node) => node.event,
            None => None,
        };
        assert(front_ev == nodes[0].event);
        let emitted = self.receiver.get(thread);
        let ghost raised = emitted@;
        let value = self.in_progress.get_mut(job.id);
        value.state = EventState::Complete;
        let same: bool = same_event(&value.event, &front_ev);
        if !same {
            value.emitted_events.extend(emitted);
            assert(self.nodes() =~= nodes.update(
                k,
                NodeView {
                    state: EventState::Complete,
                    emitted: nodes[k].emitted + raised,
                    ..nodes[k]
                },
            ));
        } else {
            let ghost stack = self.event_lists@;
            extend_list(self.event_lists.last_mut(), emitted);
            proof {
                lemma_lists_top(stack, self.event_lists@.last());
            }
            assert(self.nodes() =~= nodes.update(
                k,
                NodeView { state: EventState::Complete, ..nodes[k] },
            ));
            if job.id == self.in_progress.counter() {
                self.drop_front();
            }
        }
        proof {
            assert(self.pipeline() =~= complete(before, job.id as int, raised));
            assert forall|plan: Plan| #[trigger] before.wf(plan) implies self.pipeline().wf(
                plan,
            ) by {
                lemma_complete_wf(plan, before, job.id as int, raised);
            }
        }
    }

    /// Drops all events at the front of the in-progress queue that have completed, adding their
    /// events to the emitted events list.
    pub fn drop_front(&mut self)
        requires
            old(self).start() + old(self).nodes().len() < isize::MAX,
            old(self).lists().len() > 0,
        ensures
            *final(self) == (EventManager {
                in_progress: final(self).in_progress,
                event_lists: final(self).event_lists,
                ..*old(self)
            }),
            final(self).nodes() == old(self).nodes().skip(
                leading_complete(old(self).nodes()) as int,
            ),
            final(self).start() == old(self).start() + leading_complete(old(self).nodes()),
            leading_complete(final(self).nodes()) == 0,
            leading_complete(old(self).nodes()) == 0 ==> *final(self) == *old(self),
            final(self).lists() == with_top(
                old(self).lists(),
                old(self).lists().last() + all_emitted(
                    old(self).nodes().take(leading_complete(old(self).nodes()) as int),
                ),
            ),
    {
        let ghost nodes = self.nodes();
        let ghost lists = self.lists();
        let ghost start = self.start();
        let ghost mut count: int = 0;
        proof {
            assert(nodes.skip(0) =~= nodes);
            assert(nodes.take(0) =~= Seq::empty());
            assert(with_top(lists, lists.last() + Seq::empty()) =~= lists) by {
                assert(lists.last() + Seq::<EventValue>::empty() =~= lists.last());
            }
        }
        loop
            invariant
                nodes == old(self).nodes(),
                lists == old(self).lists(),
                start == old(self).start(),
                start + nodes.len() < isize::MAX,
                lists.len() > 0,
                0 <= count <= nodes.len(),
                forall|i: int|
                    0 <= i < count ==> (#[trigger] nodes[i]).state == EventState::Complete,
                *self == (EventManager {
                    in_progress: self.in_progress,
                    event_lists: self.event_lists,
                    ..*old(self)
                }),
                count == 0 ==> *self == *old(self),
                self.nodes() == nodes.skip(count),
                self.start() == start + count,
                self.lists() == with_top(lists, lists.last() + all_emitted(nodes.take(count))),
            ensures
                leading_complete(nodes) == count,
                leading_complete(self.nodes()) == 0,
            decreases nodes.len() - count,
        {
            assert(self.in_progress@.len() == self.nodes().len());
            assert(self.event_lists@.len() == self.lists().len());
            let finished: bool = match self.in_progress.front() {
                Some(event) => {
                    assert(event@ == self.nodes()[0]);
                    event.state == EventState::Complete
                },
                None => false,
            };
            if !finished {
                proof {
                    if count < nodes.len() {
                        assert(nodes[count] == self.nodes()[0]);
                        assert(self.nodes()[0] == self.in_progress@[0]@);
                    }
                    lemma_leading_complete(nodes, count);
                }
                break ;
            }
            let ghost current = self.nodes();
            assert(nodes[count] == self.nodes()[0]);
            match self.in_progress.pop_front() {
                Some(event) => {
                    let ghost stack = self.event_lists@;
                    assert(event@ == nodes[count]);
                    extend_list(self.event_lists.last_mut(), event.emitted_events.into_vec());
                    proof {
                        lemma_lists_top(stack, self.event_lists@.last());
                        let longer = nodes.take(count + 1);
                        assert(longer.drop_last() =~= nodes.take(count));
                        assert(longer.last() == nodes[count]);
                        assert(self.nodes() =~= current.drop_first());
                        assert(current.drop_first() =~= nodes.skip(count + 1));
                        assert(lists.last() + all_emitted(longer) =~= lists.last() + all_emitted(
                            nodes.take(count),
                        ) + nodes[count].emitted);
                        assert(self.lists() =~= with_top(
                            lists,
                            lists.last() + all_emitted(longer),
                        ));
                        count = count + 1;
                    }
                },
                None => {},
            }
        }
    }
}

} // verus!
