//! What is right about the record of an event cycle, whatever happens in it.
use crate::cycle::bag;
use crate::cycle::bare;
use crate::cycle::begin;
use crate::cycle::handlers_for;
use crate::cycle::node_bag;
use crate::cycle::planned;
use crate::cycle::stack_bag;
use crate::cycle::undelayed;
use crate::cycle::Cycle;
use crate::cycle::Processed;
use crate::cycle::QueueLog;
use crate::cycle::Step;
use crate::cycle::Turn;
use crate::event_laws::law_events_execute_serially;
use crate::event_node::completed_node;
use crate::event_node::EventState;
use crate::event_node::NodeView;
use crate::events::clogs;
use crate::events::lemma_weight_first;
use crate::events::lemma_weight_push;
use crate::events::total_weight;
use crate::events::EventValue;
use crate::pipeline::all_emitted;
use crate::pipeline::first_selectable;
use crate::pipeline::leading_complete;
use crate::pipeline::lemma_complete_wf;
use crate::pipeline::lemma_emitted_within;
use crate::pipeline::lemma_first_selectable;
use crate::pipeline::lemma_leading_complete_is;
use crate::pipeline::lemma_next_wf;
use crate::pipeline::lemma_queue_keeps;
use crate::pipeline::next;
use crate::pipeline::queue;
use crate::pipeline::ready;
use crate::pipeline::related;
use crate::pipeline::running;
use crate::pipeline::with_top;
use crate::pipeline::Pipeline;
use crate::pipeline::Plan;
use vstd::multiset::Multiset;
use vstd::prelude::*;

verus! {

/// The events that wait in a queue, as far as they are not delayed.
pub open spec fn waiting(log: QueueLog) -> Seq<EventValue> {
    log.arrived.skip(log.taken.len() as int)
}

/// The events whose turn has come, in order.
pub open spec fn events_of(processed: Seq<Processed>) -> Seq<EventValue> {
    Seq::new(processed.len(), |i: int| processed[i].event)
}

impl Cycle {
    /// Whether the events that were taken from a queue are those that came into it first, in the
    /// same order.
    pub open spec fn queue_recorded(&self, log: QueueLog) -> bool {
        &&& log.taken.len() <= log.arrived.len()
        &&& forall|i: int|
            0 <= i < log.taken.len() ==> 0 <= #[trigger] log.taken[i] < self.processed.len()
                && self.processed[log.taken[i]].event == log.arrived[i]
        &&& forall|i: int, j: int|
            0 <= i < j < log.taken.len() ==> log.taken[i] < log.taken[j]
    }

    /// Whether the record of the queues is right.
    pub open spec fn queues_recorded(&self) -> bool {
        let lists = self.pipeline.lists;
        &&& self.open.len() == lists.len()
        &&& forall|l: int|
            0 <= l < self.open.len() ==> 0 <= #[trigger] self.open[l] < self.queues.len()
        &&& forall|l: int, m: int|
            0 <= l < m < self.open.len() ==> self.open[l] < self.open[m]
        &&& forall|u: int|
            0 <= u < self.queues.len() ==> self.queue_recorded(#[trigger] self.queues[u])
        &&& forall|l: int|
            0 <= l < self.open.len() ==> waiting(self.queues[#[trigger] self.open[l]])
                == undelayed(lists[l])
        &&& forall|u: int|
            0 <= u < self.queues.len() && !#[trigger] self.open.contains(u) ==> waiting(
                self.queues[u],
            ).len() == 0
    }

    /// Whether the record of a node in the pipeline is right.
    pub open spec fn node_recorded(&self, k: int) -> bool {
        let node = self.pipeline.nodes[k];
        let place = self.base() + k;
        let turn = self.turns[place];
        &&& turn.handler == node.handler
        &&& match turn.origin {
            Some(number) => {
                &&& 0 <= number < self.processed.len()
                &&& node.event is Some
                &&& self.processed[number].event == EventValue::Typed {
                    event_type: node.event->Some_0.event_type,
                    payload: node.event->Some_0.payload,
                }
                &&& self.processed[number].plan == self.plan
                &&& self.processed[number].epoch == self.carried.len()
                &&& self.given.contains(place) == (node.state != EventState::Queued)
                &&& self.finished.contains(place) == (node.state == EventState::Complete)
            },
            None => node.state == EventState::Complete && node.event is None,
        }
    }

    /// Whether the handlers for an event have got one turn each, one after the other.
    pub open spec fn event_recorded(&self, number: int) -> bool {
        let processed = self.processed[number];
        let handlers = handlers_for(processed);
        &&& processed.event !is Delayed
        &&& 0 <= processed.first
        &&& processed.first + handlers.len() <= self.turns.len()
        &&& forall|k: int|
            0 <= k < handlers.len() ==> #[trigger] self.turns[processed.first + k] == (Turn {
                origin: Some(number),
                handler: handlers[k],
            })
    }

    /// Whether a turn is one of those that the handlers for its event have got.
    pub open spec fn turn_recorded(&self, turn: Turn, place: int) -> bool {
        turn.origin matches Some(number) ==> {
            &&& 0 <= number < self.processed.len()
            &&& self.processed[number].first <= place < self.processed[number].first + handlers_for(
                self.processed[number],
            ).len()
        }
    }

    /// Whether the record of the turns is right.
    pub open spec fn turns_recorded(&self) -> bool {
        &&& 0 <= self.base()
        &&& forall|k: int| 0 <= k < self.pipeline.nodes.len() ==> #[trigger] self.node_recorded(k)
        &&& forall|h: int|
            0 <= h < self.base() && (#[trigger] self.turns[h]).origin is Some
                ==> self.given.contains(h) && self.finished.contains(h)
        &&& self.given.no_duplicates()
        &&& forall|i: int|
            0 <= i < self.given.len() ==> 0 <= #[trigger] self.given[i] < self.turns.len()
                && self.turns[self.given[i]].origin is Some
        &&& forall|h: int| #[trigger] self.finished.contains(h) ==> self.given.contains(h)
        &&& forall|o: int| 0 <= o < self.processed.len() ==> #[trigger] self.event_recorded(o)
        &&& forall|h: int|
            0 <= h < self.turns.len() ==> self.turn_recorded(#[trigger] self.turns[h], h)
        &&& forall|o: int, p: int|
            0 <= o < p < self.processed.len() ==> (#[trigger] self.processed[o]).first
                + handlers_for(self.processed[o]).len() <= (#[trigger] self.processed[p]).first
    }

    /// Whether no event was lost, made up or doubled.
    pub open spec fn balanced(&self) -> bool {
        bag(self.entered) == bag(events_of(self.processed)).add(
            stack_bag(self.pipeline.lists),
        ).add(node_bag(self.pipeline.nodes))
    }

    /// Whether the record of the requests is right.
    pub open spec fn requests_recorded(&self) -> bool {
        let last = self.processed.len() - 1;
        &&& self.carried.no_duplicates()
        &&& forall|i: int|
            0 <= i < self.carried.len() ==> 0 <= #[trigger] self.carried[i] < self.processed.len()
                && clogs(self.processed[self.carried[i]].event)
        &&& forall|o: int|
            0 <= o < self.processed.len() && clogs((#[trigger] self.processed[o]).event) ==> (
            self.carried.contains(o) || (self.pipeline.clogged is Some && o == last))
        &&& self.pipeline.clogged matches Some(event) ==> {
            &&& 0 <= last
            &&& self.processed[last].event == event
            &&& clogs(event)
            &&& !self.carried.contains(last)
        }
    }

    /// The event that a turn is for.
    pub open spec fn event_at(&self, place: int) -> Processed {
        self.processed[self.turns[place].origin->Some_0]
    }

    /// Whether a handler must wait for an earlier one: if a request was carried out between the
    /// turns of their events, or if one of their systems is the other one or depends on it.
    pub open spec fn waits_for(&self, later: int, earlier: int) -> bool {
        ||| self.event_at(earlier).epoch < self.event_at(later).epoch
        ||| related(
            self.event_at(later).plan.graph,
            self.turns[earlier].handler.system_id as int,
            self.turns[later].handler.system_id as int,
        )
    }

    /// Whether no handler was given to a thread before all earlier handlers for which it must wait
    /// have run to completion.
    pub open spec fn serial(&self) -> bool {
        forall|p: int, q: int|
            0 <= p < q < self.turns.len() && (#[trigger] self.turns[p]).origin is Some
                && #[trigger] self.given.contains(q) && self.waits_for(q, p)
                ==> self.finished.contains(p)
    }

    /// Whether the systems only change as requests are carried out.
    pub open spec fn epochs_recorded(&self) -> bool {
        &&& forall|o: int|
            0 <= o < self.processed.len() ==> {
                &&& planned((#[trigger] self.processed[o]).plan)
                &&& self.processed[o].epoch <= self.carried.len()
                &&& self.processed[o].epoch == self.carried.len() ==> self.processed[o].plan
                    == self.plan
            }
        &&& forall|o: int, p: int|
            0 <= o < p < self.processed.len() ==> {
                &&& (#[trigger] self.processed[o]).epoch <= (#[trigger] self.processed[p]).epoch
                &&& self.processed[o].epoch == self.processed[p].epoch ==> self.processed[o].plan
                    == self.processed[p].plan
            }
    }

    /// Whether events have come into a queue at a position, one behind the other.
    pub open spec fn came(&self, events: Seq<EventValue>, queue: int, at: int) -> bool {
        &&& 0 <= queue < self.queues.len()
        &&& 0 <= at <= at + events.len() <= self.queues[queue].arrived.len()
        &&& forall|i: int|
            0 <= i < events.len() ==> #[trigger] self.queues[queue].arrived[at + i] == events[i]
    }

    /// Whether the node of a turn keeps the events that were raised while its handler ran.
    pub open spec fn kept(&self, place: int) -> bool {
        &&& self.base() <= place < self.turns.len()
        &&& self.pipeline.nodes[place - self.base()].emitted == self.raised[place]
    }

    /// Whether the events that were raised while a handler ran have come into a queue, except while
    /// they are delayed, or are kept.
    pub open spec fn raise_recorded(&self, place: int) -> bool {
        self.kept(place) || exists|queue: int, at: int| #[trigger]
            self.came(undelayed(self.raised[place]), queue, at)
    }

    /// Whether the record of the raised events is right.
    pub open spec fn raises_recorded(&self) -> bool {
        &&& self.raised.dom() == self.finished
        &&& forall|h: int| #[trigger] self.finished.contains(h) ==> self.raise_recorded(h)
        &&& forall|k: int|
            0 <= k < self.pipeline.nodes.len() && (#[trigger] self.pipeline.nodes[k]).state
                != EventState::Complete ==> self.pipeline.nodes[k].emitted.len() == 0
    }

    /// Whether the record is right, except that it says nothing of the order of handlers.
    pub open spec fn recorded(&self) -> bool {
        &&& self.queues_recorded()
        &&& self.turns_recorded()
        &&& self.balanced()
        &&& self.requests_recorded()
    }

    /// Whether the cycle and its record make sense.
    pub open spec fn consistent(&self) -> bool {
        &&& planned(self.plan)
        &&& self.pipeline.wf(self.plan)
        &&& self.recorded()
        &&& self.serial()
        &&& self.raises_recorded()
        &&& self.epochs_recorded()
    }
}

/// Bags of joined sequences are joined.
proof fn lemma_bag_add(a: Seq<EventValue>, b: Seq<EventValue>)
    ensures
        bag(a + b) == bag(a).add(bag(b)),
    decreases b.len(),
{
    if b.len() == 0 {
        assert(a + b =~= a);
        assert(bag(a).add(bag(b)) =~= bag(a));
    } else {
        lemma_bag_add(a, b.drop_last());
        assert((a + b).drop_last() =~= a + b.drop_last());
        assert(bag(a + b) =~= bag(a).add(bag(b)));
    }
}

/// The bag of one event.
proof fn lemma_bag_one(event: EventValue)
    ensures
        bag(seq![event]) == Multiset::empty().insert(bare(event)),
{
    reveal_with_fuel(bag, 2);
    assert(seq![event].drop_last() =~= Seq::empty());
}

/// What is left of a sequence without the delayed events, of joined sequences.
pub proof fn lemma_undelayed_add(a: Seq<EventValue>, b: Seq<EventValue>)
    ensures
        undelayed(a + b) == undelayed(a) + undelayed(b),
    decreases b.len(),
{
    if b.len() == 0 {
        assert(a + b =~= a);
        assert(undelayed(a) + undelayed(b) =~= undelayed(a));
    } else {
        lemma_undelayed_add(a, b.drop_last());
        assert((a + b).drop_last() =~= a + b.drop_last());
        assert(undelayed(a + b) =~= undelayed(a) + undelayed(b));
    }
}

/// What is left of one event if it is not delayed.
proof fn lemma_undelayed_one(event: EventValue)
    ensures
        undelayed(seq![event]) == (if event is Delayed {
            Seq::empty()
        } else {
            seq![event]
        }),
{
    reveal_with_fuel(undelayed, 2);
    assert(seq![event].drop_last() =~= Seq::empty());
    assert(Seq::<EventValue>::empty().push(event) =~= seq![event]);
}

/// A sequence that is not empty, as its first event and the rest.
proof fn lemma_first(events: Seq<EventValue>)
    requires
        events.len() > 0,
    ensures
        bag(events) == bag(events.drop_first()).insert(bare(events[0])),
        undelayed(events) == (if events[0] is Delayed {
            undelayed(events.drop_first())
        } else {
            seq![events[0]] + undelayed(events.drop_first())
        }),
{
    let one = seq![events[0]];
    assert(events =~= one + events.drop_first());
    lemma_bag_add(one, events.drop_first());
    lemma_bag_one(events[0]);
    lemma_undelayed_add(one, events.drop_first());
    lemma_undelayed_one(events[0]);
    assert(bag(events) =~= bag(events.drop_first()).insert(bare(events[0])));
    assert(Seq::empty() + undelayed(events.drop_first()) =~= undelayed(events.drop_first()));
}

/// The bag of a stack whose top queue was replaced.
proof fn lemma_stack_top(lists: Seq<Seq<EventValue>>, top: Seq<EventValue>)
    requires
        lists.len() > 0,
    ensures
        stack_bag(with_top(lists, top)) == stack_bag(lists.drop_last()).add(bag(top)),
        stack_bag(lists) == stack_bag(lists.drop_last()).add(bag(lists.last())),
{
    assert(with_top(lists, top).drop_last() =~= lists.drop_last());
}

/// The bag of nodes rests only on what they emitted.
proof fn lemma_node_bag_same(a: Seq<NodeView>, b: Seq<NodeView>)
    requires
        a.len() == b.len(),
        forall|i: int| 0 <= i < a.len() ==> (#[trigger] a[i]).emitted == b[i].emitted,
    ensures
        node_bag(a) == node_bag(b),
    decreases a.len(),
{
    if a.len() > 0 {
        assert forall|i: int| 0 <= i < a.len() - 1 implies (#[trigger] a.drop_last()[i]).emitted
            == b.drop_last()[i].emitted by {
            assert(a[i].emitted == b[i].emitted);
        }
        lemma_node_bag_same(a.drop_last(), b.drop_last());
        assert(a[a.len() - 1].emitted == b[a.len() - 1].emitted);
    }
}

/// Nodes that emitted nothing add nothing to the bag.
proof fn lemma_node_bag_quiet(a: Seq<NodeView>, b: Seq<NodeView>)
    requires
        forall|i: int| 0 <= i < b.len() ==> (#[trigger] b[i]).emitted.len() == 0,
    ensures
        node_bag(a + b) == node_bag(a),
    decreases b.len(),
{
    if b.len() == 0 {
        assert(a + b =~= a);
    } else {
        lemma_node_bag_quiet(a, b.drop_last());
        assert((a + b).drop_last() =~= a + b.drop_last());
        assert((a + b).last() == b[b.len() - 1]);
        assert(node_bag(a + b) =~= node_bag(a));
    }
}

/// A node that has emitted more adds that to the bag.
proof fn lemma_node_bag_more(
    nodes: Seq<NodeView>,
    k: int,
    node: NodeView,
    emitted: Seq<EventValue>,
)
    requires
        0 <= k < nodes.len(),
        node.emitted == nodes[k].emitted + emitted,
    ensures
        node_bag(nodes.update(k, node)) == node_bag(nodes).add(bag(emitted)),
    decreases nodes.len(),
{
    let changed = nodes.update(k, node);
    if k == nodes.len() - 1 {
        assert(changed.drop_last() =~= nodes.drop_last());
        lemma_bag_add(nodes[k].emitted, emitted);
        assert(node_bag(changed) =~= node_bag(nodes).add(bag(emitted)));
    } else {
        lemma_node_bag_more(nodes.drop_last(), k, node, emitted);
        assert(changed.drop_last() =~= nodes.drop_last().update(k, node));
        assert(node_bag(changed) =~= node_bag(nodes).add(bag(emitted)));
    }
}

/// Nodes at the front hand over what they emitted.
proof fn lemma_node_bag_split(nodes: Seq<NodeView>, count: int)
    requires
        0 <= count <= nodes.len(),
    ensures
        node_bag(nodes) == bag(all_emitted(nodes.take(count))).add(node_bag(nodes.skip(count))),
    decreases nodes.len(),
{
    let total = bag(all_emitted(nodes.take(count))).add(node_bag(nodes.skip(count)));
    if nodes.len() == 0 {
        assert(nodes.take(count) =~= Seq::empty());
        assert(nodes.skip(count) =~= Seq::empty());
        assert(node_bag(nodes) =~= total);
    } else if count == nodes.len() {
        let shorter = nodes.drop_last();
        lemma_node_bag_split(shorter, count - 1);
        assert(shorter.take(count - 1) =~= shorter);
        assert(shorter.skip(count - 1) =~= Seq::empty());
        assert(nodes.take(count) =~= nodes);
        assert(nodes.skip(count) =~= Seq::empty());
        lemma_bag_add(all_emitted(shorter), nodes.last().emitted);
        assert(node_bag(nodes) =~= total);
    } else {
        let shorter = nodes.drop_last();
        lemma_node_bag_split(shorter, count);
        assert(shorter.take(count) =~= nodes.take(count));
        assert(nodes.skip(count).drop_last() =~= shorter.skip(count));
        assert(node_bag(nodes) =~= total);
    }
}

/// Replacing the queue at the top of the stack and its record keeps the record of the queues right.
proof fn lemma_queues_top(before: &Cycle, after: &Cycle, top: Seq<EventValue>, log: QueueLog)
    requires
        before.queues_recorded(),
        before.open.len() > 0,
        after.open == before.open,
        after.pipeline.lists == with_top(before.pipeline.lists, top),
        after.queues == before.queues.update(before.open.last(), log),
        before.processed.len() <= after.processed.len(),
        forall|o: int|
            0 <= o < before.processed.len() ==> #[trigger] after.processed[o]
                == before.processed[o],
        after.queue_recorded(log),
        waiting(log) == undelayed(top),
    ensures
        after.queues_recorded(),
{
    let top_id = before.open.last();
    assert(before.open[before.open.len() - 1] == top_id);
    assert forall|u: int| 0 <= u < after.queues.len() implies after.queue_recorded(
        #[trigger] after.queues[u],
    ) by {
        if u != top_id {
            let other = before.queues[u];
            assert(before.queue_recorded(other));
            assert forall|i: int| 0 <= i < other.taken.len() implies 0 <= #[trigger] other.taken[i]
                < after.processed.len() && after.processed[other.taken[i]].event
                == other.arrived[i] by {
                assert(after.processed[other.taken[i]] == before.processed[other.taken[i]]);
            }
        }
    }
    assert forall|l: int| 0 <= l < after.open.len() implies waiting(
        after.queues[#[trigger] after.open[l]],
    ) == undelayed(after.pipeline.lists[l]) by {
        if l < before.open.len() - 1 {
            assert(before.open[l] < before.open[before.open.len() - 1]);
        }
    }
    assert forall|u: int|
        0 <= u < after.queues.len() && !#[trigger] after.open.contains(u) implies waiting(
        after.queues[u],
    ).len() == 0 by {
        assert(!before.open.contains(u));
    }
}

/// The record of the queues stays right when events come into the top queue.
proof fn lemma_arriving(before: &Cycle, after: &Cycle, events: Seq<EventValue>)
    requires
        before.queues_recorded(),
        before.open.len() > 0,
        after.open == before.open,
        after.pipeline.lists == with_top(
            before.pipeline.lists,
            before.pipeline.lists.last() + events,
        ),
        after.queues == before.arriving(events),
        after.processed == before.processed,
    ensures
        after.queues_recorded(),
{
    let top = before.pipeline.lists.last();
    let old_log = before.queues[before.open.last()];
    let log = QueueLog { arrived: old_log.arrived + undelayed(events), ..old_log };
    assert(before.open[before.open.len() - 1] == before.open.last());
    assert(before.queue_recorded(old_log));
    lemma_undelayed_add(top, events);
    assert(waiting(log) =~= waiting(old_log) + undelayed(events));
    lemma_queues_top(before, after, top + events, log);
}

/// The record of the queues stays right when the first event of the top queue gets its number.
proof fn lemma_taking(before: &Cycle, after: &Cycle)
    requires
        before.queues_recorded(),
        before.open.len() > 0,
        before.pipeline.lists.last().len() > 0,
        before.pipeline.lists.last()[0] !is Delayed,
        after.open == before.open,
        after.pipeline.lists == with_top(
            before.pipeline.lists,
            before.pipeline.lists.last().drop_first(),
        ),
        after.queues == before.taking(),
        after.processed == before.processed.push(before.next_processed()),
    ensures
        after.queues_recorded(),
{
    let top = before.pipeline.lists.last();
    let number = before.processed.len() as int;
    let old_log = before.queues[before.open.last()];
    let log = QueueLog { taken: old_log.taken.push(number), ..old_log };
    assert(before.open[before.open.len() - 1] == before.open.last());
    assert(before.queue_recorded(old_log));
    lemma_first(top);
    assert(waiting(old_log) == seq![top[0]] + undelayed(top.drop_first()));
    assert(waiting(old_log).len() > 0);
    assert(waiting(old_log)[0] == old_log.arrived[old_log.taken.len() as int]);
    assert(waiting(log) =~= waiting(old_log).drop_first());
    assert(waiting(old_log).drop_first() =~= undelayed(top.drop_first()));
    assert(after.queue_recorded(log)) by {
        assert forall|i: int| 0 <= i < log.taken.len() implies 0 <= #[trigger] log.taken[i]
            < after.processed.len() && after.processed[log.taken[i]].event == log.arrived[i] by {
            if i < old_log.taken.len() {
                assert(log.taken[i] == old_log.taken[i]);
            }
        }
    }
    lemma_queues_top(before, after, top.drop_first(), log);
}

/// The record of the queues stays right when a delayed event leaves the front of the top queue,
/// while other events come into it.
proof fn lemma_undelaying(before: &Cycle, after: &Cycle, events: Seq<EventValue>)
    requires
        before.queues_recorded(),
        before.open.len() > 0,
        before.pipeline.lists.last().len() > 0,
        before.pipeline.lists.last()[0] is Delayed,
        after.open == before.open,
        after.pipeline.lists == with_top(
            before.pipeline.lists,
            before.pipeline.lists.last().drop_first() + events,
        ),
        after.queues == before.arriving(events),
        after.processed == before.processed,
    ensures
        after.queues_recorded(),
{
    let top = before.pipeline.lists.last();
    let old_log = before.queues[before.open.last()];
    let log = QueueLog { arrived: old_log.arrived + undelayed(events), ..old_log };
    assert(before.open[before.open.len() - 1] == before.open.last());
    assert(before.queue_recorded(old_log));
    lemma_first(top);
    lemma_undelayed_add(top.drop_first(), events);
    assert(waiting(log) =~= waiting(old_log) + undelayed(events));
    lemma_queues_top(before, after, top.drop_first() + events, log);
}

/// The record stays right when an empty queue is left.
pub proof fn lemma_left(cycle: &Cycle)
    requires
        cycle.recorded(),
        cycle.pipeline.lists.len() > 0,
        cycle.pipeline.lists.last().len() == 0,
    ensures
        cycle.left().recorded(),
{
    let after = cycle.left();
    let top = cycle.open.len() - 1;
    assert forall|u: int|
        0 <= u < after.queues.len() && !#[trigger] after.open.contains(u) implies waiting(
        after.queues[u],
    ).len() == 0 by {
        if cycle.open.contains(u) {
            let l = choose|l: int| 0 <= l < cycle.open.len() && cycle.open[l] == u;
            if l < top {
                assert(after.open[l] == u);
            }
            assert(waiting(cycle.queues[cycle.open[top]]) == undelayed(cycle.pipeline.lists[top]));
        }
    }
    assert forall|u: int| 0 <= u < after.queues.len() implies after.queue_recorded(
        #[trigger] after.queues[u],
    ) by {
        assert(cycle.queue_recorded(cycle.queues[u]));
    }
    assert forall|l: int| 0 <= l < after.open.len() implies waiting(
        after.queues[#[trigger] after.open[l]],
    ) == undelayed(after.pipeline.lists[l]) by {
        assert(cycle.open[l] == after.open[l]);
    }
    lemma_stack_top(cycle.pipeline.lists, Seq::empty());
    assert(bag(cycle.pipeline.lists.last()) =~= Multiset::empty());
    assert(stack_bag(after.pipeline.lists) =~= stack_bag(cycle.pipeline.lists));
    assert(after.turns_recorded()) by {
        lemma_turns_same(cycle, &after);
    }
}

/// The record of the turns does not rest on the queues.
proof fn lemma_turns_same(before: &Cycle, after: &Cycle)
    requires
        before.turns_recorded(),
        after.plan == before.plan,
        after.pipeline.nodes == before.pipeline.nodes,
        after.processed == before.processed,
        after.turns == before.turns,
        after.given == before.given,
        after.finished == before.finished,
        after.carried == before.carried,
    ensures
        after.turns_recorded(),
{
    assert forall|k: int| 0 <= k < after.pipeline.nodes.len() implies #[trigger] after.node_recorded(
        k,
    ) by {
        assert(before.node_recorded(k));
    }
    assert forall|o: int| 0 <= o < after.processed.len() implies #[trigger] after.event_recorded(
        o,
    ) by {
        assert(before.event_recorded(o));
    }
    assert forall|h: int| 0 <= h < after.turns.len() implies after.turn_recorded(
        #[trigger] after.turns[h],
        h,
    ) by {
        assert(before.turn_recorded(before.turns[h], h));
    }
}

/// The record of the requests does not rest on the queues or the nodes.
proof fn lemma_requests_same(before: &Cycle, after: &Cycle)
    requires
        before.requests_recorded(),
        after.pipeline.clogged == before.pipeline.clogged,
        after.processed == before.processed,
        after.carried == before.carried,
    ensures
        after.requests_recorded(),
{
}

/// The record stays right when a delayed event is put behind the others.
pub proof fn lemma_put_off(cycle: &Cycle, inner: EventValue)
    requires
        cycle.recorded(),
        cycle.pipeline.lists.len() > 0,
        cycle.pipeline.lists.last().len() > 0,
        cycle.pipeline.lists.last()[0] == EventValue::Delayed(Box::new(inner)),
    ensures
        cycle.put_off(inner).recorded(),
{
    let after = cycle.put_off(inner);
    let lists = cycle.pipeline.lists;
    let top = lists.last();
    assert(top.drop_first().push(inner) =~= top.drop_first() + seq![inner]);
    lemma_undelaying(cycle, &after, seq![inner]);
    lemma_turns_same(cycle, &after);
    lemma_requests_same(cycle, &after);
    lemma_stack_top(lists, top.drop_first().push(inner));
    lemma_first(top);
    lemma_bag_add(top.drop_first(), seq![inner]);
    lemma_bag_one(inner);
    assert(bare(top[0]) == bare(inner));
    assert(bag(top.drop_first().push(inner)) =~= bag(top));
}

/// The record stays right when a place is kept for a delayed event.
pub proof fn lemma_set_aside(cycle: &Cycle)
    requires
        cycle.recorded(),
        cycle.pipeline.lists.len() > 0,
        cycle.pipeline.lists.last().len() > 0,
        cycle.pipeline.lists.last()[0] is Delayed,
    ensures
        cycle.set_aside().recorded(),
{
    let after = cycle.set_aside();
    let lists = cycle.pipeline.lists;
    let top = lists.last();
    let node = completed_node(top[0]);
    let none = Seq::<EventValue>::empty();
    assert(top.drop_first() + none =~= top.drop_first());
    assert(after.queues =~= cycle.arriving(none)) by {
        assert(cycle.open[cycle.open.len() - 1] == cycle.open.last());
        let log = cycle.queues[cycle.open.last()];
        assert(log.arrived + undelayed(none) =~= log.arrived);
    }
    lemma_undelaying(cycle, &after, none);
    lemma_requests_same(cycle, &after);
    lemma_stack_top(lists, top.drop_first());
    lemma_first(top);
    lemma_bag_one(top[0]);
    assert(after.pipeline.nodes.drop_last() =~= cycle.pipeline.nodes);
    assert(stack_bag(after.pipeline.lists).add(node_bag(after.pipeline.nodes)) =~= stack_bag(
        lists,
    ).add(node_bag(cycle.pipeline.nodes)));
    assert(after.balanced()) by {
        let done = bag(events_of(cycle.processed));
        assert(done.add(stack_bag(lists)).add(node_bag(cycle.pipeline.nodes)) =~= done.add(
            stack_bag(lists).add(node_bag(cycle.pipeline.nodes)),
        ));
        assert(done.add(stack_bag(after.pipeline.lists)).add(node_bag(after.pipeline.nodes))
            =~= done.add(stack_bag(after.pipeline.lists).add(node_bag(after.pipeline.nodes))));
    }
    lemma_turns_grow(cycle, &after);
}

/// The record of the turns stays right when nodes and turns are added that belong together.
proof fn lemma_turns_grow(before: &Cycle, after: &Cycle)
    requires
        before.turns_recorded(),
        after.plan == before.plan,
        after.given == before.given,
        after.finished == before.finished,
        after.carried == before.carried,
        before.pipeline.nodes.len() <= after.pipeline.nodes.len(),
        after.turns.len() - before.turns.len() == after.pipeline.nodes.len()
            - before.pipeline.nodes.len(),
        forall|k: int|
            0 <= k < before.pipeline.nodes.len() ==> #[trigger] after.pipeline.nodes[k]
                == before.pipeline.nodes[k],
        forall|h: int|
            0 <= h < before.turns.len() ==> #[trigger] after.turns[h] == before.turns[h],
        before.processed.len() <= after.processed.len() <= before.processed.len() + 1,
        forall|o: int|
            0 <= o < before.processed.len() ==> #[trigger] after.processed[o]
                == before.processed[o],
        after.processed.len() > before.processed.len() ==> {
            let number = before.processed.len() as int;
            let processed = after.processed[number];
            &&& processed.event !is Delayed
            &&& processed.plan == after.plan
            &&& processed.epoch == after.carried.len()
            &&& processed.first == before.turns.len()
            &&& processed.first + handlers_for(processed).len() == after.turns.len()
            &&& forall|k: int|
                0 <= k < handlers_for(processed).len() ==> #[trigger] after.turns[processed.first
                    + k] == (Turn { origin: Some(number), handler: handlers_for(processed)[k] })
        },
        forall|h: int|
            before.turns.len() <= h < after.turns.len() ==> {
                let node = after.pipeline.nodes[h - after.base()];
                &&& (#[trigger] after.turns[h]).handler == node.handler
                &&& match after.turns[h].origin {
                    Some(number) => {
                        &&& number == before.processed.len()
                        &&& number < after.processed.len()
                        &&& node.state == EventState::Queued
                        &&& node.event is Some
                        &&& after.processed[number].event == EventValue::Typed {
                            event_type: node.event->Some_0.event_type,
                            payload: node.event->Some_0.payload,
                        }
                    },
                    None => node.state == EventState::Complete && node.event is None,
                }
            },
    ensures
        after.turns_recorded(),
{
    let count = before.pipeline.nodes.len();
    assert(after.base() == before.base());
    assert forall|h: int| before.turns.len() <= h implies !#[trigger] after.given.contains(h) by {
        if after.given.contains(h) {
            let i = choose|i: int| 0 <= i < before.given.len() && before.given[i] == h;
            assert(before.given[i] < before.turns.len());
        }
    }
    assert forall|k: int| 0 <= k < after.pipeline.nodes.len() implies #[trigger] after.node_recorded(
        k,
    ) by {
        let place = after.base() + k;
        if k < count {
            assert(before.node_recorded(k));
            assert(after.turns[place] == before.turns[place]);
            assert(after.pipeline.nodes[k] == before.pipeline.nodes[k]);
            if before.turns[place].origin is Some {
                let number = before.turns[place].origin->Some_0;
                assert(after.processed[number] == before.processed[number]);
            }
        } else {
            assert(before.turns.len() <= place < after.turns.len());
            assert(after.turns[place].handler == after.pipeline.nodes[place - after.base()].handler);
            assert(!after.given.contains(place));
            assert(!after.finished.contains(place));
        }
    }
    assert forall|o: int| 0 <= o < after.processed.len() implies #[trigger] after.event_recorded(
        o,
    ) by {
        if o < before.processed.len() {
            assert(before.event_recorded(o));
            assert(after.processed[o] == before.processed[o]);
            let processed = before.processed[o];
            assert forall|k: int|
                0 <= k < handlers_for(processed).len() implies #[trigger] after.turns[processed.first
                + k] == (Turn { origin: Some(o), handler: handlers_for(processed)[k] }) by {
                assert(before.turns[processed.first + k] == after.turns[processed.first + k]);
            }
        }
    }
    assert forall|h: int| 0 <= h < after.turns.len() implies after.turn_recorded(
        #[trigger] after.turns[h],
        h,
    ) by {
        if h < before.turns.len() {
            assert(before.turn_recorded(before.turns[h], h));
            if before.turns[h].origin is Some {
                let number = before.turns[h].origin->Some_0;
                assert(after.processed[number] == before.processed[number]);
            }
        }
    }
    assert forall|o: int, p: int| 0 <= o < p < after.processed.len() implies (
    #[trigger] after.processed[o]).first + handlers_for(after.processed[o]).len() <= (
    #[trigger] after.processed[p]).first by {
        assert(after.processed[o] == before.processed[o]);
        assert(before.event_recorded(o));
        if p < before.processed.len() {
            assert(after.processed[p] == before.processed[p]);
        }
    }
    assert forall|i: int| 0 <= i < after.given.len() implies 0 <= #[trigger] after.given[i]
        < after.turns.len() && after.turns[after.given[i]].origin is Some by {
        assert(before.given[i] < before.turns.len());
        assert(after.turns[before.given[i]] == before.turns[before.given[i]]);
    }
    assert forall|h: int|
        0 <= h < after.base() && (#[trigger] after.turns[h]).origin is Some implies after.given.contains(
    h) && after.finished.contains(h) by {
        assert(after.turns[h] == before.turns[h]);
    }
}

/// The record stays right when an event comes to its turn.
pub proof fn lemma_dispatched(cycle: &Cycle)
    requires
        cycle.recorded(),
        cycle.pipeline.clogged is None,
        cycle.pipeline.lists.len() > 0,
        cycle.pipeline.lists.last().len() > 0,
        cycle.pipeline.lists.last()[0] is Typed,
    ensures
        cycle.dispatched().recorded(),
{
    let after = cycle.dispatched();
    let lists = cycle.pipeline.lists;
    let top = lists.last();
    let handlers = handlers_for(cycle.next_processed());
    let count = cycle.pipeline.nodes.len();
    lemma_taking(cycle, &after);
    let added = after.pipeline.nodes.skip(count as int);
    assert(after.pipeline.nodes =~= cycle.pipeline.nodes + added);
    assert forall|i: int| 0 <= i < added.len() implies (#[trigger] added[i]).emitted.len() == 0 by {
        assert(added[i] == after.pipeline.nodes[count + i]);
    }
    lemma_node_bag_quiet(cycle.pipeline.nodes, added);
    lemma_processed_one(cycle, &after);
    assert(after.turns_recorded()) by {
        assert forall|h: int| cycle.turns.len() <= h < after.turns.len() implies ({
            let node = after.pipeline.nodes[h - after.base()];
            &&& (#[trigger] after.turns[h]).handler == node.handler
            &&& match after.turns[h].origin {
                Some(number) => {
                    &&& number == cycle.processed.len()
                    &&& number < after.processed.len()
                    &&& node.state == EventState::Queued
                    &&& node.event is Some
                    &&& after.processed[number].event == EventValue::Typed {
                        event_type: node.event->Some_0.event_type,
                        payload: node.event->Some_0.payload,
                    }
                },
                None => node.state == EventState::Complete && node.event is None,
            }
        }) by {
            assert(h - after.base() == count + (h - cycle.turns.len()));
        }
        lemma_turns_grow(cycle, &after);
    }
    lemma_requests_typed(cycle, &after);
}

/// No event is lost when one gets its number.
proof fn lemma_processed_one(before: &Cycle, after: &Cycle)
    requires
        before.balanced(),
        before.pipeline.lists.len() > 0,
        before.pipeline.lists.last().len() > 0,
        before.pipeline.lists.last()[0] !is Delayed,
        after.entered == before.entered,
        after.pipeline.lists == with_top(
            before.pipeline.lists,
            before.pipeline.lists.last().drop_first(),
        ),
        after.processed == before.processed.push(before.next_processed()),
        node_bag(after.pipeline.nodes) == node_bag(before.pipeline.nodes),
    ensures
        after.balanced(),
{
    let lists = before.pipeline.lists;
    let top = lists.last();
    lemma_stack_top(lists, top.drop_first());
    lemma_first(top);
    assert(bare(top[0]) == top[0]);
    assert(events_of(after.processed).drop_last() =~= events_of(before.processed));
    assert(events_of(after.processed).last() == top[0]);
    assert(bag(events_of(after.processed)) == bag(events_of(before.processed)).insert(top[0]));
    assert(bag(events_of(after.processed)).add(stack_bag(after.pipeline.lists)).add(
        node_bag(after.pipeline.nodes),
    ) =~= bag(events_of(before.processed)).add(stack_bag(lists)).add(
        node_bag(before.pipeline.nodes),
    ));
}

/// The record of the requests stays right when an event gets its number that is none.
proof fn lemma_requests_typed(before: &Cycle, after: &Cycle)
    requires
        before.requests_recorded(),
        before.pipeline.clogged is None,
        after.pipeline.clogged is None,
        after.carried == before.carried,
        after.processed == before.processed.push(before.next_processed()),
        !clogs(before.next_processed().event),
    ensures
        after.requests_recorded(),
{
    assert forall|i: int| 0 <= i < after.carried.len() implies 0 <= #[trigger] after.carried[i]
        < after.processed.len() && clogs(after.processed[after.carried[i]].event) by {
        assert(before.carried[i] < before.processed.len());
    }
    assert forall|o: int|
        0 <= o < after.processed.len() && clogs(
            (#[trigger] after.processed[o]).event,
        ) implies after.carried.contains(o) by {
        assert(o < before.processed.len());
        assert(after.processed[o] == before.processed[o]);
    }
}

/// The record stays right when a request stalls the pipeline.
pub proof fn lemma_stalled(cycle: &Cycle)
    requires
        cycle.recorded(),
        cycle.pipeline.clogged is None,
        cycle.pipeline.lists.len() > 0,
        cycle.pipeline.lists.last().len() > 0,
        clogs(cycle.pipeline.lists.last()[0]),
    ensures
        cycle.stalled().recorded(),
{
    let after = cycle.stalled();
    lemma_taking(cycle, &after);
    lemma_processed_one(cycle, &after);
    lemma_turns_grow(cycle, &after);
    let last = after.processed.len() - 1;
    assert forall|i: int| 0 <= i < after.carried.len() implies 0 <= #[trigger] after.carried[i]
        < after.processed.len() && clogs(after.processed[after.carried[i]].event) by {
        assert(cycle.carried[i] < cycle.processed.len());
    }
    assert forall|o: int|
        0 <= o < after.processed.len() && clogs((#[trigger] after.processed[o]).event) implies (
    after.carried.contains(o) || (after.pipeline.clogged is Some && o == last)) by {
        if o < last {
            assert(after.processed[o] == cycle.processed[o]);
        }
    }
    if after.carried.contains(last) {
        let i = choose|i: int| 0 <= i < cycle.carried.len() && cycle.carried[i] == last;
        assert(cycle.carried[i] < cycle.processed.len());
    }
}

/// A sequence to which an item was added holds that and what it held before.
pub proof fn lemma_push_contains(places: Seq<int>, place: int)
    ensures
        forall|h: int| #[trigger]
            places.push(place).contains(h) <==> (places.contains(h) || h == place),
{
    assert forall|h: int| #[trigger]
        places.push(place).contains(h) <==> (places.contains(h) || h == place) by {
        let longer = places.push(place);
        if places.contains(h) {
            let i = choose|i: int| 0 <= i < places.len() && places[i] == h;
            assert(longer[i] == h);
        }
        if h == place {
            assert(longer[places.len() as int] == h);
        }
        if longer.contains(h) && h != place {
            let i = choose|i: int| 0 <= i < longer.len() && longer[i] == h;
            assert(places[i] == h);
        }
    }
}

/// The record stays right when a handler that waits is given to a thread.
pub proof fn lemma_handed_out(cycle: &Cycle, k: int)
    requires
        cycle.recorded(),
        0 <= k < cycle.pipeline.nodes.len(),
        cycle.pipeline.nodes[k].state == EventState::Queued,
    ensures
        cycle.handed_out(k).recorded(),
{
    let after = cycle.handed_out(k);
    let place = cycle.base() + k;
    assert(cycle.node_recorded(k));
    lemma_push_contains(cycle.given, place);
    assert(after.base() == cycle.base());
    assert forall|j: int| 0 <= j < after.pipeline.nodes.len() implies #[trigger] after.node_recorded(
        j,
    ) by {
        assert(cycle.node_recorded(j));
    }
    assert forall|o: int| 0 <= o < after.processed.len() implies #[trigger] after.event_recorded(
        o,
    ) by {
        assert(cycle.event_recorded(o));
    }
    assert forall|h: int| 0 <= h < after.turns.len() implies after.turn_recorded(
        #[trigger] after.turns[h],
        h,
    ) by {
        assert(cycle.turn_recorded(cycle.turns[h], h));
    }
    assert(after.given.no_duplicates()) by {
        assert forall|i: int, j: int|
            0 <= i < after.given.len() && 0 <= j < after.given.len() && i
                != j implies after.given[i] != after.given[j] by {
            if i == cycle.given.len() {
                assert(cycle.given.contains(cycle.given[j]));
            } else if j == cycle.given.len() {
                assert(cycle.given.contains(cycle.given[i]));
            }
        }
    }
    lemma_node_bag_same(cycle.pipeline.nodes, after.pipeline.nodes);
    lemma_requests_same(cycle, &after);
    assert(after.queues_recorded()) by {
        lemma_queues_same(cycle, &after);
    }
}

/// The record of the queues does not rest on the nodes.
proof fn lemma_queues_same(before: &Cycle, after: &Cycle)
    requires
        before.queues_recorded(),
        after.pipeline.lists == before.pipeline.lists,
        after.processed == before.processed,
        after.queues == before.queues,
        after.open == before.open,
    ensures
        after.queues_recorded(),
{
    assert forall|u: int| 0 <= u < after.queues.len() implies after.queue_recorded(
        #[trigger] after.queues[u],
    ) by {
        assert(before.queue_recorded(before.queues[u]));
    }
}

/// Whether a sequence of events begins with another one.
pub open spec fn grown(before: Seq<EventValue>, after: Seq<EventValue>) -> bool {
    &&& before.len() <= after.len()
    &&& forall|i: int| 0 <= i < before.len() ==> #[trigger] after[i] == before[i]
}

/// Whether events have only come into queues behind those that had come before.
pub open spec fn logs_grown(before: Seq<QueueLog>, after: Seq<QueueLog>) -> bool {
    &&& before.len() <= after.len()
    &&& forall|u: int|
        0 <= u < before.len() ==> grown((#[trigger] before[u]).arrived, after[u].arrived)
}

/// Whether one cycle has come of another by moving events into the pipeline, and perhaps giving a
/// handler to a thread.
pub open spec fn moved_on(before: &Cycle, after: &Cycle) -> bool {
    &&& after.plan == before.plan
    &&& after.finished == before.finished
    &&& after.carried == before.carried
    &&& after.entered == before.entered
    &&& after.base() == before.base()
    &&& before.turns.len() <= after.turns.len()
    &&& forall|h: int|
        0 <= h < before.turns.len() ==> #[trigger] after.turns[h] == before.turns[h]
    &&& before.processed.len() <= after.processed.len()
    &&& forall|o: int|
        0 <= o < before.processed.len() ==> #[trigger] after.processed[o] == before.processed[o]
    &&& forall|o: int|
        before.processed.len() <= o < after.processed.len() ==> (#[trigger] after.processed[o]).plan
            == before.plan && after.processed[o].epoch == before.carried.len()
    &&& after.raised == before.raised
    &&& logs_grown(before.queues, after.queues)
    &&& before.pipeline.nodes.len() <= after.pipeline.nodes.len()
    &&& forall|k: int|
        0 <= k < before.pipeline.nodes.len() ==> (#[trigger] after.pipeline.nodes[k]).emitted
            == before.pipeline.nodes[k].emitted && (after.pipeline.nodes[k].state
            == EventState::Complete) == (before.pipeline.nodes[k].state == EventState::Complete)
    &&& forall|k: int|
        before.pipeline.nodes.len() <= k < after.pipeline.nodes.len() && (
        #[trigger] after.pipeline.nodes[k]).state != EventState::Complete
            ==> after.pipeline.nodes[k].emitted.len() == 0
}

/// Moving on twice is moving on.
pub proof fn lemma_moved_twice(first: &Cycle, second: &Cycle, third: &Cycle)
    requires
        moved_on(first, second),
        moved_on(second, third),
    ensures
        moved_on(first, third),
{
    assert forall|h: int| 0 <= h < first.turns.len() implies #[trigger] third.turns[h]
        == first.turns[h] by {
        assert(second.turns[h] == first.turns[h]);
    }
    assert forall|o: int| 0 <= o < third.processed.len() implies (o < first.processed.len()
        ==> third.processed[o] == first.processed[o]) && (first.processed.len() <= o ==> (
    #[trigger] third.processed[o]).plan == first.plan && third.processed[o].epoch
        == first.carried.len()) by {
        if o < second.processed.len() {
            assert(third.processed[o] == second.processed[o]);
        }
    }
    assert forall|u: int| 0 <= u < first.queues.len() implies grown(
        (#[trigger] first.queues[u]).arrived,
        third.queues[u].arrived,
    ) by {
        assert(grown(first.queues[u].arrived, second.queues[u].arrived));
        assert(grown(second.queues[u].arrived, third.queues[u].arrived));
        assert forall|i: int| 0 <= i < first.queues[u].arrived.len() implies
            #[trigger] third.queues[u].arrived[i] == first.queues[u].arrived[i] by {
            assert(second.queues[u].arrived[i] == first.queues[u].arrived[i]);
        }
    }
    assert forall|k: int| 0 <= k < third.pipeline.nodes.len() implies (k
        < first.pipeline.nodes.len() ==> (#[trigger] third.pipeline.nodes[k]).emitted
        == first.pipeline.nodes[k].emitted && (third.pipeline.nodes[k].state
        == EventState::Complete) == (first.pipeline.nodes[k].state == EventState::Complete)) && (
    first.pipeline.nodes.len() <= k && third.pipeline.nodes[k].state != EventState::Complete
        ==> third.pipeline.nodes[k].emitted.len() == 0) by {
        if k < second.pipeline.nodes.len() {
            assert(third.pipeline.nodes[k].emitted == second.pipeline.nodes[k].emitted);
            if k < first.pipeline.nodes.len() {
                assert(second.pipeline.nodes[k].emitted == first.pipeline.nodes[k].emitted);
            } else if third.pipeline.nodes[k].state != EventState::Complete {
                assert(second.pipeline.nodes[k].state != EventState::Complete);
            }
        }
    }
}

/// Events that have come into a queue stay at their position.
pub proof fn lemma_came_grown(
    before: &Cycle,
    after: &Cycle,
    events: Seq<EventValue>,
    queue: int,
    at: int,
)
    requires
        before.came(events, queue, at),
        logs_grown(before.queues, after.queues),
    ensures
        after.came(events, queue, at),
{
    assert(grown(before.queues[queue].arrived, after.queues[queue].arrived));
    assert forall|i: int| 0 <= i < events.len() implies
        #[trigger] after.queues[queue].arrived[at + i] == events[i] by {
        assert(before.queues[queue].arrived[at + i] == events[i]);
    }
}

/// Moving on keeps the record of the raised events right.
proof fn lemma_raises_moved(before: &Cycle, after: &Cycle)
    requires
        before.raises_recorded(),
        moved_on(before, after),
    ensures
        after.raises_recorded(),
{
    assert forall|h: int| #[trigger] after.finished.contains(h) implies after.raise_recorded(h) by {
        assert(before.raise_recorded(h));
        if before.kept(h) {
            let k = h - before.base();
            assert(after.pipeline.nodes[k].emitted == before.pipeline.nodes[k].emitted);
            assert(after.kept(h));
        } else {
            let (queue, at) = choose|queue: int, at: int| #[trigger]
                before.came(undelayed(before.raised[h]), queue, at);
            lemma_came_grown(before, after, undelayed(before.raised[h]), queue, at);
        }
    }
    assert forall|k: int|
        0 <= k < after.pipeline.nodes.len() && (#[trigger] after.pipeline.nodes[k]).state
            != EventState::Complete implies after.pipeline.nodes[k].emitted.len() == 0 by {
        if k < before.pipeline.nodes.len() {
            assert(before.pipeline.nodes[k].state != EventState::Complete);
        }
    }
}

/// Events that come into the top queue come in behind those that had come before.
pub proof fn lemma_arriving_grows(cycle: &Cycle, events: Seq<EventValue>)
    requires
        cycle.queues_recorded(),
        cycle.open.len() > 0,
    ensures
        logs_grown(cycle.queues, cycle.arriving(events)),
{
    assert(cycle.open[cycle.open.len() - 1] == cycle.open.last());
}

/// Nothing comes into a queue when an event is taken from it.
pub proof fn lemma_taking_grows(cycle: &Cycle)
    requires
        cycle.queues_recorded(),
        cycle.open.len() > 0,
    ensures
        logs_grown(cycle.queues, cycle.taking()),
{
    assert(cycle.open[cycle.open.len() - 1] == cycle.open.last());
}

/// Moving events into the pipeline keeps the record right, and does to the pipeline what it should.
pub proof fn lemma_pull(cycle: &Cycle, main_thread: bool)
    requires
        cycle.recorded(),
        cycle.pipeline.clogged is None,
    ensures
        ({
            let after = cycle.pull(main_thread);
            let queued = queue(
                cycle.plan,
                main_thread,
                cycle.pipeline.lists,
                cycle.pipeline.nodes,
                cycle.pipeline.start,
            );
            &&& after.recorded()
            &&& moved_on(cycle, &after)
            &&& after.pipeline == (Pipeline {
                lists: queued.lists,
                nodes: queued.nodes,
                clogged: queued.clogged,
                ..cycle.pipeline
            })
            &&& after.given == (match queued.job {
                Some(k) => cycle.given.push(cycle.base() + k),
                None => cycle.given,
            })
        }),
    decreases cycle.pipeline.lists.len(), total_weight(cycle.pipeline.lists.last()),
{
    let lists = cycle.pipeline.lists;
    let nodes = cycle.pipeline.nodes;
    if lists.len() > 0 {
        if lists.last().len() == 0 {
            if nodes.len() == 0 {
                let left = cycle.left();
                lemma_left(cycle);
                lemma_pull(&left, main_thread);
                assert(moved_on(cycle, &left));
                lemma_moved_twice(cycle, &left, &left.pull(main_thread));
            }
        } else {
            let event = lists.last()[0];
            let rest = lists.last().drop_first();
            lemma_weight_first(lists.last());
            if clogs(event) {
                lemma_stalled(cycle);
                lemma_taking_grows(cycle);
            } else {
                match event {
                    EventValue::Delayed(inner) => {
                        if nodes.len() == 0 {
                            lemma_weight_push(rest, *inner);
                            let put_off = cycle.put_off(*inner);
                            lemma_put_off(cycle, *inner);
                            lemma_pull(&put_off, main_thread);
                            lemma_arriving_grows(cycle, seq![*inner]);
                            assert(moved_on(cycle, &put_off));
                            lemma_moved_twice(cycle, &put_off, &put_off.pull(main_thread));
                        } else {
                            let aside = cycle.set_aside();
                            lemma_set_aside(cycle);
                            lemma_pull(&aside, main_thread);
                            assert(moved_on(cycle, &aside));
                            lemma_moved_twice(cycle, &aside, &aside.pull(main_thread));
                        }
                    },
                    EventValue::Typed { event_type, payload } => {
                        let added = cycle.dispatched();
                        lemma_dispatched(cycle);
                        lemma_taking_grows(cycle);
                        assert(moved_on(cycle, &added));
                        lemma_first_selectable(
                            cycle.plan,
                            main_thread,
                            added.pipeline.nodes,
                            nodes.len() as int,
                        );
                        match first_selectable(
                            cycle.plan,
                            main_thread,
                            added.pipeline.nodes,
                            nodes.len() as int,
                        ) {
                            Some(k) => {
                                lemma_handed_out(&added, k);
                                assert(moved_on(&added, &added.handed_out(k)));
                                lemma_moved_twice(cycle, &added, &added.handed_out(k));
                            },
                            None => {
                                lemma_pull(&added, main_thread);
                                lemma_moved_twice(cycle, &added, &added.pull(main_thread));
                            },
                        }
                    },
                    _ => {},
                }
            }
        }
    }
}

/// The record does not rest on where the nodes begin, nor on what blocks them.
proof fn lemma_recorded_same(before: &Cycle, after: &Cycle)
    requires
        before.recorded(),
        *after == (Cycle {
            pipeline: Pipeline {
                start: after.pipeline.start,
                blocked: after.pipeline.blocked,
                ..before.pipeline
            },
            ..*before
        }),
    ensures
        after.recorded(),
{
    lemma_queues_same(before, after);
    lemma_turns_same(before, after);
    lemma_requests_same(before, after);
}

/// A handler that is given to a thread keeps the order of handlers.
proof fn lemma_serial_given(before: &Cycle, after: &Cycle, k: int)
    requires
        before.serial(),
        before.recorded(),
        moved_on(before, after),
        after.recorded(),
        after.pipeline.wf(after.plan),
        after.given == before.given.push(after.base() + k),
        0 <= k < after.pipeline.nodes.len(),
        after.pipeline.nodes[k].state == EventState::Processing,
    ensures
        after.serial(),
{
    let place = after.base() + k;
    lemma_push_contains(before.given, place);
    assert forall|p: int, q: int|
        0 <= p < q < after.turns.len() && (#[trigger] after.turns[p]).origin is Some
            && #[trigger] after.given.contains(q) && after.waits_for(
            q,
            p,
        ) implies after.finished.contains(p) by {
        if q == place {
            assert(after.node_recorded(k));
            if p >= after.base() {
                let j = p - after.base();
                assert(after.node_recorded(j));
                law_events_execute_serially(after.plan, after.pipeline, j, k);
            }
        } else {
            lemma_serial_kept(before, after, p, q);
        }
    }
}

/// What was known of the order of two handlers stays so.
proof fn lemma_serial_kept(before: &Cycle, after: &Cycle, p: int, q: int)
    requires
        before.serial(),
        before.recorded(),
        moved_on(before, after),
        0 <= p < q,
        before.given.contains(q),
        after.turns[p].origin is Some,
        after.waits_for(q, p),
    ensures
        after.finished.contains(p),
{
    let i = choose|i: int| 0 <= i < before.given.len() && before.given[i] == q;
    assert(before.given[i] == q);
    assert(q < before.turns.len());
    assert(after.turns[q] == before.turns[q]);
    assert(after.turns[p] == before.turns[p]);
    assert(before.turn_recorded(before.turns[p], p));
    assert(before.turn_recorded(before.turns[q], q));
    let earlier = before.turns[p].origin->Some_0;
    let later = before.turns[q].origin->Some_0;
    assert(after.processed[earlier] == before.processed[earlier]);
    assert(after.processed[later] == before.processed[later]);
    assert(before.waits_for(q, p));
}

/// Where no handler is given to a thread, the order of handlers stays.
proof fn lemma_serial_same(before: &Cycle, after: &Cycle)
    requires
        before.serial(),
        before.recorded(),
        moved_on(before, after),
        after.given == before.given,
    ensures
        after.serial(),
{
    assert forall|p: int, q: int|
        0 <= p < q < after.turns.len() && (#[trigger] after.turns[p]).origin is Some
            && #[trigger] after.given.contains(q) && after.waits_for(
            q,
            p,
        ) implies after.finished.contains(p) by {
        lemma_serial_kept(before, after, p, q);
    }
}

/// A cycle stays consistent when a thread asks for a job.
pub proof fn lemma_asked(cycle: &Cycle, main_thread: bool)
    requires
        cycle.consistent(),
        cycle.allows(Step::Ask { main_thread }),
    ensures
        cycle.asked(main_thread).consistent(),
        moved_on(cycle, &cycle.asked(main_thread)),
        logs_grown(cycle.queues, cycle.asked(main_thread).queues),
{
    let after = cycle.asked(main_thread);
    let (pipeline, result) = next(cycle.plan, main_thread, cycle.pipeline);
    lemma_next_wf(cycle.plan, main_thread, cycle.pipeline);
    lemma_first_selectable(cycle.plan, main_thread, cycle.pipeline.nodes, 0);
    let selectable = first_selectable(cycle.plan, main_thread, cycle.pipeline.nodes, 0);
    match cycle.pipeline.blocked {
        Some(id) => {
            let k = id - cycle.pipeline.start;
            if main_thread {
                assert(ready(cycle.plan, cycle.pipeline.nodes, k));
                lemma_handed_out(cycle, k);
                lemma_recorded_same(&cycle.handed_out(k), &after);
                lemma_serial_given(cycle, &after, k);
            }
        },
        None => match selectable {
            Some(k) => {
                lemma_handed_out(cycle, k);
                assert(after =~= cycle.handed_out(k));
                lemma_serial_given(cycle, &after, k);
            },
            None => {
                if cycle.pipeline.clogged is None {
                    let moved = cycle.pull(main_thread);
                    lemma_pull(cycle, main_thread);
                    lemma_recorded_same(&moved, &after);
                    let queued = queue(
                        cycle.plan,
                        main_thread,
                        cycle.pipeline.lists,
                        cycle.pipeline.nodes,
                        cycle.pipeline.start,
                    );
                    match queued.job {
                        Some(k) => {
                            lemma_queue_keeps(
                                cycle.plan,
                                main_thread,
                                cycle.pipeline.lists,
                                cycle.pipeline.nodes,
                                cycle.pipeline.start,
                            );
                            lemma_serial_given(cycle, &after, k);
                        },
                        None => {
                            lemma_serial_same(cycle, &after);
                        },
                    }
                } else {
                    lemma_recorded_same(cycle, &after);
                    lemma_serial_same(cycle, &after);
                }
            },
        },
    }
    lemma_raises_moved(cycle, &after);
    lemma_epochs_moved(cycle, &after);
}

/// Moving on keeps the record of the systems right.
proof fn lemma_epochs_moved(before: &Cycle, after: &Cycle)
    requires
        planned(before.plan),
        before.epochs_recorded(),
        moved_on(before, after),
    ensures
        after.epochs_recorded(),
{
    assert forall|o: int| 0 <= o < after.processed.len() implies ({
        &&& planned((#[trigger] after.processed[o]).plan)
        &&& after.processed[o].epoch <= after.carried.len()
        &&& after.processed[o].epoch == after.carried.len() ==> after.processed[o].plan
            == after.plan
    }) by {
        if o < before.processed.len() {
            assert(after.processed[o] == before.processed[o]);
        }
    }
    assert forall|o: int, p: int| 0 <= o < p < after.processed.len() implies ({
        &&& (#[trigger] after.processed[o]).epoch <= (#[trigger] after.processed[p]).epoch
        &&& after.processed[o].epoch == after.processed[p].epoch ==> after.processed[o].plan
            == after.processed[p].plan
    }) by {
        if o < before.processed.len() {
            assert(after.processed[o] == before.processed[o]);
        }
        if p < before.processed.len() {
            assert(after.processed[p] == before.processed[p]);
        }
    }
}

/// The record of the turns stays right when a handler has run to completion.
proof fn lemma_turns_marked(before: &Cycle, after: &Cycle, k: int)
    requires
        before.turns_recorded(),
        0 <= k < before.pipeline.nodes.len(),
        before.pipeline.nodes[k].state == EventState::Processing,
        after.plan == before.plan,
        after.processed == before.processed,
        after.turns == before.turns,
        after.given == before.given,
        after.finished == before.finished.insert(before.base() + k),
        after.carried == before.carried,
        after.pipeline.nodes.len() == before.pipeline.nodes.len(),
        forall|j: int|
            0 <= j < before.pipeline.nodes.len() && j != k
                ==> #[trigger] after.pipeline.nodes[j] == before.pipeline.nodes[j],
        after.pipeline.nodes[k].handler == before.pipeline.nodes[k].handler,
        after.pipeline.nodes[k].event == before.pipeline.nodes[k].event,
        after.pipeline.nodes[k].state == EventState::Complete,
    ensures
        after.turns_recorded(),
{
    assert(after.base() == before.base());
    assert(before.node_recorded(k));
    assert forall|j: int| 0 <= j < after.pipeline.nodes.len() implies #[trigger] after.node_recorded(
        j,
    ) by {
        assert(before.node_recorded(j));
    }
    assert forall|o: int| 0 <= o < after.processed.len() implies #[trigger] after.event_recorded(
        o,
    ) by {
        assert(before.event_recorded(o));
    }
    assert forall|h: int| 0 <= h < after.turns.len() implies after.turn_recorded(
        #[trigger] after.turns[h],
        h,
    ) by {
        assert(before.turn_recorded(before.turns[h], h));
    }
}

/// The record of the turns stays right when complete nodes leave the front of the pipeline.
proof fn lemma_turns_dropped(before: &Cycle, after: &Cycle, count: int)
    requires
        before.turns_recorded(),
        0 <= count <= before.pipeline.nodes.len(),
        forall|j: int|
            0 <= j < count ==> (#[trigger] before.pipeline.nodes[j]).state
                == EventState::Complete,
        after.plan == before.plan,
        after.processed == before.processed,
        after.turns == before.turns,
        after.given == before.given,
        after.finished == before.finished,
        after.carried == before.carried,
        after.pipeline.nodes == before.pipeline.nodes.skip(count),
    ensures
        after.turns_recorded(),
{
    assert(after.base() == before.base() + count);
    assert forall|j: int| 0 <= j < after.pipeline.nodes.len() implies #[trigger] after.node_recorded(
        j,
    ) by {
        assert(before.node_recorded(count + j));
        assert(after.pipeline.nodes[j] == before.pipeline.nodes[count + j]);
    }
    assert forall|h: int|
        0 <= h < after.base() && (#[trigger] after.turns[h]).origin is Some implies after.given.contains(
    h) && after.finished.contains(h) by {
        if h >= before.base() {
            let j = h - before.base();
            assert(before.node_recorded(j));
            assert(before.pipeline.nodes[j].state == EventState::Complete);
        } else {
            assert(before.turns[h].origin is Some);
        }
    }
    assert forall|o: int| 0 <= o < after.processed.len() implies #[trigger] after.event_recorded(
        o,
    ) by {
        assert(before.event_recorded(o));
    }
    assert forall|h: int| 0 <= h < after.turns.len() implies after.turn_recorded(
        #[trigger] after.turns[h],
        h,
    ) by {
        assert(before.turn_recorded(before.turns[h], h));
    }
}

/// Events that come into the top queue among others have their position there.
pub proof fn lemma_landed(
    before: &Cycle,
    after: &Cycle,
    earlier: Seq<EventValue>,
    events: Seq<EventValue>,
    later: Seq<EventValue>,
)
    requires
        before.queues_recorded(),
        before.open.len() > 0,
        after.queues == before.arriving(earlier + events + later),
    ensures
        after.came(
            undelayed(events),
            before.open.last(),
            (before.queues[before.open.last()].arrived.len() + undelayed(earlier).len()) as int,
        ),
{
    let queue = before.open.last();
    let at = before.queues[queue].arrived.len() + undelayed(earlier).len();
    assert(before.open[before.open.len() - 1] == queue);
    lemma_undelayed_add(earlier + events, later);
    lemma_undelayed_add(earlier, events);
    assert forall|i: int| 0 <= i < undelayed(events).len() implies
        #[trigger] after.queues[queue].arrived[at + i] == undelayed(events)[i] by {
        assert(undelayed(earlier + events + later)[undelayed(earlier).len() + i] == undelayed(
            events,
        )[i]);
    }
    assert(after.came(undelayed(events), queue, at as int));
}

/// The record of the raised events stays right when a thread has run a job.
proof fn lemma_raises_ended(cycle: &Cycle, id: int, emitted: Seq<EventValue>)
    requires
        cycle.consistent(),
        running(cycle.pipeline, id),
    ensures
        cycle.ended(id, emitted).raises_recorded(),
{
    let after = cycle.ended(id, emitted);
    let k = id - cycle.pipeline.start;
    let place = cycle.base() + k;
    let nodes = cycle.pipeline.nodes;
    let node = nodes[k];
    let top = cycle.pipeline.lists.last();
    let none = Seq::<EventValue>::empty();
    let same = node.event == nodes[0].event;
    let marked = if same {
        nodes.update(k, NodeView { state: EventState::Complete, ..node })
    } else {
        nodes.update(
            k,
            NodeView { state: EventState::Complete, emitted: node.emitted + emitted, ..node },
        )
    };
    lemma_leading_complete_is(marked);
    let count = if same && k == 0 {
        leading_complete(marked) as int
    } else {
        0
    };
    let came = if !same {
        none
    } else if k == 0 {
        emitted + all_emitted(marked.take(count))
    } else {
        emitted
    };
    assert(after.pipeline.nodes =~= marked.skip(count));
    assert(after.base() == cycle.base() + count);
    assert(after.pipeline.lists.last() =~= top + came);
    assert(after.pipeline.lists.last().skip(top.len() as int) =~= came);
    assert(after.queues == cycle.arriving(came));
    lemma_arriving_grows(cycle, came);
    assert(after.raised.dom() =~= after.finished);
    assert forall|h: int| #[trigger] after.finished.contains(h) implies after.raise_recorded(h) by {
        let j = h - cycle.base();
        if h == place {
            if same {
                let later = if k == 0 {
                    all_emitted(marked.take(count))
                } else {
                    none
                };
                assert(none + emitted + later =~= came);
                lemma_landed(cycle, &after, none, emitted, later);
                assert(after.raised[h] == emitted);
            } else {
                assert(node.emitted + emitted =~= emitted);
                assert(after.pipeline.nodes[k] == marked[k]);
                assert(after.kept(h));
            }
        } else {
            assert(cycle.finished.contains(h));
            assert(cycle.raise_recorded(h));
            assert(after.raised[h] == cycle.raised[h]);
            if !cycle.kept(h) {
                let (queue, at) = choose|queue: int, at: int| #[trigger]
                    cycle.came(undelayed(cycle.raised[h]), queue, at);
                lemma_came_grown(cycle, &after, undelayed(cycle.raised[h]), queue, at);
                assert(after.came(undelayed(after.raised[h]), queue, at));
            } else if j >= count {
                assert(after.pipeline.nodes[j - count] == marked[j]);
                assert(after.kept(h));
            } else {
                let rest = lemma_emitted_within(marked, count, j);
                let earlier = emitted + all_emitted(marked.take(j));
                assert(earlier + marked[j].emitted + rest =~= came);
                assert(marked[j].emitted == after.raised[h]);
                lemma_landed(cycle, &after, earlier, marked[j].emitted, rest);
            }
        }
    }
    assert forall|j: int|
        0 <= j < after.pipeline.nodes.len() && (#[trigger] after.pipeline.nodes[j]).state
            != EventState::Complete implies after.pipeline.nodes[j].emitted.len() == 0 by {
        assert(after.pipeline.nodes[j] == marked[j + count]);
        assert(nodes[j + count].state != EventState::Complete);
    }
}

/// A cycle stays consistent when a thread has run a job.
pub proof fn lemma_ended(cycle: &Cycle, id: int, emitted: Seq<EventValue>)
    requires
        cycle.consistent(),
        running(cycle.pipeline, id),
    ensures
        cycle.ended(id, emitted).consistent(),
        logs_grown(cycle.queues, cycle.ended(id, emitted).queues),
{
    let after = cycle.ended(id, emitted);
    let k = id - cycle.pipeline.start;
    let nodes = cycle.pipeline.nodes;
    let node = nodes[k];
    let lists = cycle.pipeline.lists;
    let top = lists.last();
    lemma_complete_wf(cycle.plan, cycle.pipeline, id, emitted);
    lemma_raises_ended(cycle, id, emitted);
    lemma_arriving_grows(
        cycle,
        after.pipeline.lists.last().skip(cycle.pipeline.lists.last().len() as int),
    );
    lemma_requests_same(cycle, &after);
    lemma_bag_add(cycle.entered, emitted);
    let done = bag(events_of(cycle.processed));
    if node.event == nodes[0].event {
        let marked = nodes.update(k, NodeView { state: EventState::Complete, ..node });
        let middle = Cycle {
            pipeline: Pipeline { nodes: marked, ..cycle.pipeline },
            finished: after.finished,
            ..*cycle
        };
        lemma_turns_marked(cycle, &middle, k);
        lemma_node_bag_same(nodes, marked);
        lemma_leading_complete_is(marked);
        let count = if k == 0 {
            leading_complete(marked) as int
        } else {
            0
        };
        let came = if k == 0 {
            emitted + all_emitted(marked.take(count))
        } else {
            emitted
        };
        assert(marked.skip(0) =~= marked);
        lemma_turns_dropped(&middle, &after, count);
        assert(top + emitted + all_emitted(marked.take(count)) =~= top + (emitted + all_emitted(
            marked.take(count),
        )));
        assert(after.pipeline.lists == with_top(lists, top + came));
        assert(after.pipeline.lists.last().skip(top.len() as int) =~= came);
        lemma_arriving(cycle, &after, came);
        lemma_stack_top(lists, top + came);
        lemma_bag_add(top, came);
        lemma_node_bag_split(marked, count);
        lemma_bag_add(emitted, all_emitted(marked.take(count)));
        if k != 0 {
            assert(marked.take(0) =~= Seq::empty());
        }
        assert(after.balanced()) by {
            assert(bag(after.entered) =~= done.add(stack_bag(after.pipeline.lists)).add(
                node_bag(after.pipeline.nodes),
            ));
        }
    } else {
        let changed = NodeView {
            state: EventState::Complete,
            emitted: node.emitted + emitted,
            ..node
        };
        let none = Seq::<EventValue>::empty();
        lemma_turns_marked(cycle, &after, k);
        lemma_node_bag_more(nodes, k, changed, emitted);
        assert(top.skip(top.len() as int) =~= none);
        assert(top + none =~= top);
        assert(with_top(lists, top) =~= lists);
        lemma_arriving(cycle, &after, none);
        assert(after.balanced()) by {
            assert(bag(after.entered) =~= done.add(stack_bag(after.pipeline.lists)).add(
                node_bag(after.pipeline.nodes),
            ));
        }
    }
    assert(after.serial()) by {
        assert forall|p: int, q: int|
            0 <= p < q < after.turns.len() && (#[trigger] after.turns[p]).origin is Some
                && #[trigger] after.given.contains(q) && after.waits_for(
                q,
                p,
            ) implies after.finished.contains(p) by {
            assert(cycle.waits_for(q, p));
            assert(cycle.given.contains(q));
            assert(cycle.turns[p].origin is Some);
        }
    }
}

/// The record of the queues stays right when the events of an embedded cycle are put on the stack.
pub proof fn lemma_queues_embedded(cycle: &Cycle, events: Seq<EventValue>)
    requires
        cycle.queues_recorded(),
    ensures
        cycle.embedded(events).queues_recorded(),
{
    let after = cycle.embedded(events);
    let log = after.queues.last();
    let fresh = cycle.queues.len() as int;
    assert(waiting(log) =~= undelayed(events));
    assert forall|u: int| 0 <= u < after.queues.len() implies after.queue_recorded(
        #[trigger] after.queues[u],
    ) by {
        if u < fresh {
            assert(cycle.queue_recorded(cycle.queues[u]));
        }
    }
    assert forall|l: int| 0 <= l < after.open.len() implies waiting(
        after.queues[#[trigger] after.open[l]],
    ) == undelayed(after.pipeline.lists[l]) by {
        if l < cycle.open.len() {
            assert(cycle.open[l] == after.open[l]);
        }
    }
    assert forall|l: int| 0 <= l < after.open.len() implies 0 <= #[trigger] after.open[l]
        < after.queues.len() by {
        if l < cycle.open.len() {
            assert(cycle.open[l] == after.open[l]);
        }
    }
    assert forall|l: int, m: int| 0 <= l < m < after.open.len() implies after.open[l]
        < after.open[m] by {
        assert(cycle.open[l] == after.open[l]);
        if m < cycle.open.len() {
            assert(cycle.open[m] == after.open[m]);
        }
    }
    assert forall|u: int|
        0 <= u < after.queues.len() && !#[trigger] after.open.contains(u) implies waiting(
        after.queues[u],
    ).len() == 0 by {
        lemma_push_contains(cycle.open, fresh);
        assert(!cycle.open.contains(u));
    }
}

/// The record stays right when the events of an embedded cycle are put on the stack.
proof fn lemma_embedded(cycle: &Cycle, events: Seq<EventValue>)
    requires
        cycle.recorded(),
    ensures
        cycle.embedded(events).recorded(),
{
    let after = cycle.embedded(events);
    lemma_turns_same(cycle, &after);
    lemma_requests_same(cycle, &after);
    lemma_queues_embedded(cycle, events);
    lemma_bag_add(cycle.entered, events);
    assert(after.pipeline.lists.drop_last() =~= cycle.pipeline.lists);
    assert(after.balanced()) by {
        assert(bag(after.entered) =~= bag(events_of(cycle.processed)).add(
            stack_bag(after.pipeline.lists),
        ).add(node_bag(after.pipeline.nodes)));
    }
}

/// The record stays right when events that were raised come into the top queue.
proof fn lemma_gathered(cycle: &Cycle, raised: Seq<EventValue>)
    requires
        cycle.recorded(),
        cycle.pipeline.lists.len() > 0,
    ensures
        cycle.gathered(raised).recorded(),
{
    let after = cycle.gathered(raised);
    let lists = cycle.pipeline.lists;
    let top = lists.last();
    lemma_turns_same(cycle, &after);
    lemma_requests_same(cycle, &after);
    lemma_arriving(cycle, &after, raised);
    lemma_bag_add(cycle.entered, raised);
    lemma_stack_top(lists, top + raised);
    lemma_bag_add(top, raised);
    assert(after.balanced()) by {
        assert(bag(after.entered) =~= bag(events_of(cycle.processed)).add(
            stack_bag(after.pipeline.lists),
        ).add(node_bag(after.pipeline.nodes)));
    }
}

/// A cycle stays consistent when a request was carried out.
pub proof fn lemma_resumed(cycle: &Cycle, plan: Plan, start: int, raised: Seq<EventValue>)
    requires
        cycle.consistent(),
        cycle.allows(Step::CarryOut { plan, start, raised }),
    ensures
        cycle.resumed(plan, start, raised).consistent(),
        logs_grown(cycle.queues, cycle.resumed(plan, start, raised).queues),
{
    let after = cycle.resumed(plan, start, raised);
    let last = cycle.processed.len() - 1;
    let done = Cycle {
        plan,
        pipeline: Pipeline { clogged: None, start, ..cycle.pipeline },
        carried: cycle.carried.push(last),
        ..*cycle
    };
    lemma_queues_same(cycle, &done);
    lemma_push_contains(cycle.carried, last);
    assert(done.turns_recorded()) by {
        assert forall|o: int| 0 <= o < done.processed.len() implies #[trigger] done.event_recorded(
            o,
        ) by {
            assert(cycle.event_recorded(o));
        }
        assert forall|h: int| 0 <= h < done.turns.len() implies done.turn_recorded(
            #[trigger] done.turns[h],
            h,
        ) by {
            assert(cycle.turn_recorded(cycle.turns[h], h));
        }
    }
    assert(done.requests_recorded()) by {
        assert forall|i: int, j: int|
            0 <= i < done.carried.len() && 0 <= j < done.carried.len() && i
                != j implies done.carried[i] != done.carried[j] by {
            if i == cycle.carried.len() {
                assert(cycle.carried.contains(cycle.carried[j]));
            } else if j == cycle.carried.len() {
                assert(cycle.carried.contains(cycle.carried[i]));
            }
        }
    }
    match cycle.pipeline.clogged {
        Some(EventValue::Flush(buffer)) => {
            let opened = done.embedded(buffer.events@);
            lemma_embedded(&done, buffer.events@);
            lemma_gathered(&opened, raised);
            lemma_arriving_grows(&opened, raised);
            assert(logs_grown(cycle.queues, after.queues)) by {
                assert forall|u: int| 0 <= u < cycle.queues.len() implies grown(
                    (#[trigger] cycle.queues[u]).arrived,
                    after.queues[u].arrived,
                ) by {
                    assert(opened.queues[u] == cycle.queues[u]);
                }
            }
        },
        _ => {
            lemma_gathered(&done, raised);
            lemma_arriving_grows(&done, raised);
        },
    }
    assert forall|h: int| #[trigger] after.finished.contains(h) implies after.raise_recorded(h) by {
        assert(cycle.finished.contains(h));
        assert(cycle.raise_recorded(h));
        assert(!cycle.kept(h));
        let (queue, at) = choose|queue: int, at: int| #[trigger]
            cycle.came(undelayed(cycle.raised[h]), queue, at);
        lemma_came_grown(cycle, &after, undelayed(cycle.raised[h]), queue, at);
        assert(after.came(undelayed(after.raised[h]), queue, at));
    }
    assert(after.serial()) by {
        assert forall|p: int, q: int|
            0 <= p < q < after.turns.len() && (#[trigger] after.turns[p]).origin is Some
                && #[trigger] after.given.contains(q) && after.waits_for(
                q,
                p,
            ) implies after.finished.contains(p) by {
            assert(cycle.waits_for(q, p));
            assert(cycle.given.contains(q));
            assert(cycle.turns[p].origin is Some);
        }
    }
}

/// Whatever happens in an event cycle, it stays consistent.
pub proof fn lemma_cycles_are_consistent(
    plan: Plan,
    start: int,
    events: Seq<EventValue>,
    steps: Seq<Step>,
)
    requires
        planned(plan),
        isize::MIN <= start < isize::MAX,
        begin(plan, start, events).allows_all(steps),
    ensures
        begin(plan, start, events).after(steps).consistent(),
    decreases steps.len(),
{
    let first = begin(plan, start, events);
    if steps.len() == 0 {
        let none = Seq::<Seq<EventValue>>::empty();
        assert(waiting(first.queues[0]) =~= undelayed(events));
        assert(first.pipeline.lists.drop_last() =~= none);
        assert(first.open.contains(0)) by {
            assert(first.open[0] == 0);
        }
        assert(events_of(first.processed) =~= Seq::empty());
        assert(stack_bag(first.pipeline.lists) == stack_bag(none).add(bag(events)));
        assert(bag(first.entered) =~= bag(events_of(first.processed)).add(
            stack_bag(first.pipeline.lists),
        ).add(node_bag(first.pipeline.nodes)));
        assert(first.consistent());
    } else {
        lemma_cycles_are_consistent(plan, start, events, steps.drop_last());
        let before = first.after(steps.drop_last());
        match steps.last() {
            Step::Ask { main_thread } => {
                lemma_asked(&before, main_thread);
            },
            Step::Finish { id, emitted } => {
                lemma_ended(&before, id, emitted);
            },
            Step::CarryOut { plan, start, raised } => {
                lemma_resumed(&before, plan, start, raised);
            },
        }
    }
}

} // verus!
