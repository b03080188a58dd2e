//! What is right about the order in which raised events come into the queues of an event cycle.
use crate::cycle::begin;
use crate::cycle::handlers_for;
use crate::cycle::planned;
use crate::cycle::undelayed;
use crate::cycle::Cycle;
use crate::cycle::Step;
use crate::cycle_record::lemma_arriving_grows;
use crate::cycle_record::lemma_asked;
use crate::cycle_record::lemma_came_grown;
use crate::cycle_record::lemma_cycles_are_consistent;
use crate::cycle_record::lemma_dispatched;
use crate::cycle_record::lemma_ended;
use crate::cycle_record::lemma_landed;
use crate::cycle_record::lemma_left;
use crate::cycle_record::lemma_pull;
use crate::cycle_record::lemma_put_off;
use crate::cycle_record::lemma_resumed;
use crate::cycle_record::lemma_set_aside;
use crate::cycle_record::lemma_undelayed_add;
use crate::cycle_record::logs_grown;
use crate::event_node::EventState;
use crate::event_node::NodeView;
use crate::events::clogs;
use crate::events::lemma_weight_first;
use crate::events::lemma_weight_push;
use crate::events::total_weight;
use crate::events::EventValue;
use crate::pipeline::all_emitted;
use crate::pipeline::first_selectable;
use crate::pipeline::leading_complete;
use crate::pipeline::lemma_emitted_within;
use crate::pipeline::lemma_first_selectable;
use crate::pipeline::lemma_leading_complete_is;
use crate::pipeline::running;
use crate::pipeline::Plan;
use vstd::prelude::*;

verus! {

impl Cycle {
    /// Whether the nodes in the pipeline bear the index of the first node for their event.
    pub open spec fn batched(&self) -> bool {
        forall|k: int|
            0 <= k < self.pipeline.nodes.len() ==> {
                let turn = #[trigger] self.turns[self.base() + k];
                turn.origin matches Some(number) ==> self.pipeline.nodes[k].event->Some_0.batch
                    == self.pipeline.start + self.processed[number].first - self.base()
            }
    }

    /// Whether the events that were raised in one turn have come into their queue before those that
    /// were raised in another, unless they came into different queues.
    pub open spec fn came_before(&self, p: int, q: int) -> bool {
        exists|u: int, a: int, v: int, b: int|
            {
                &&& #[trigger] self.came(undelayed(self.raised[p]), u, a)
                &&& #[trigger] self.came(undelayed(self.raised[q]), v, b)
                &&& u == v ==> a + undelayed(self.raised[p]).len() <= b
            }
    }

    /// Whether events were raised in order: only for the event at the front, they come into a queue
    /// while its nodes are in the pipeline; and what was raised for an event comes before what was
    /// raised for later ones.
    pub open spec fn raises_ordered(&self) -> bool {
        &&& self.batched()
        &&& forall|h: int|
            self.base() <= h && #[trigger] self.finished.contains(h) && !self.kept(h)
                ==> self.turns[h].origin == self.turns[self.base()].origin
        &&& forall|p: int, q: int| #[trigger]
            self.finished.contains(p) && #[trigger] self.finished.contains(q)
                && self.turns[p].origin->Some_0 < self.turns[q].origin->Some_0 && !self.kept(q)
                ==> self.came_before(p, q)
    }
}

/// Turns come in the order of the events that they are for.
proof fn lemma_turns_in_order(cycle: &Cycle, p: int, q: int)
    requires
        cycle.turns_recorded(),
        0 <= p < cycle.turns.len(),
        0 <= q < cycle.turns.len(),
        cycle.turns[p].origin is Some,
        cycle.turns[q].origin is Some,
    ensures
        p <= q ==> cycle.turns[p].origin->Some_0 <= cycle.turns[q].origin->Some_0,
        cycle.processed[cycle.turns[p].origin->Some_0].first
            == cycle.processed[cycle.turns[q].origin->Some_0].first ==> cycle.turns[p].origin
            == cycle.turns[q].origin,
{
    assert(cycle.turn_recorded(cycle.turns[p], p));
    assert(cycle.turn_recorded(cycle.turns[q], q));
    let m = cycle.turns[p].origin->Some_0;
    let n = cycle.turns[q].origin->Some_0;
    if m < n {
        assert(cycle.processed[m].first + handlers_for(cycle.processed[m]).len()
            <= cycle.processed[n].first);
    } else if n < m {
        assert(cycle.processed[n].first + handlers_for(cycle.processed[n]).len()
            <= cycle.processed[m].first);
    }
}

/// A handler that has run to completion had a turn for an event.
proof fn lemma_finished_turn(cycle: &Cycle, h: int)
    requires
        cycle.turns_recorded(),
        cycle.finished.contains(h),
    ensures
        0 <= h < cycle.turns.len(),
        cycle.turns[h].origin is Some,
{
    assert(cycle.given.contains(h));
    let i = choose|i: int| 0 <= i < cycle.given.len() && cycle.given[i] == h;
    assert(cycle.given[i] == h);
}

/// Nodes bear the right index after events were moved into the pipeline.
proof fn lemma_batched_pull(cycle: &Cycle, main_thread: bool)
    requires
        cycle.recorded(),
        cycle.batched(),
        cycle.pipeline.clogged is None,
        isize::MIN <= cycle.pipeline.start,
        cycle.pipeline.start + cycle.pull(main_thread).pipeline.nodes.len() < isize::MAX,
    ensures
        cycle.pull(main_thread).batched(),
    decreases cycle.pipeline.lists.len(), total_weight(cycle.pipeline.lists.last()),
{
    let lists = cycle.pipeline.lists;
    let nodes = cycle.pipeline.nodes;
    if lists.len() > 0 {
        if lists.last().len() == 0 {
            if nodes.len() == 0 {
                lemma_left(cycle);
                lemma_batched_pull(&cycle.left(), main_thread);
            }
        } else {
            let event = lists.last()[0];
            lemma_weight_first(lists.last());
            if clogs(event) {
                let after = cycle.stalled();
                lemma_batched_same(cycle, &after);
            } else {
                match event {
                    EventValue::Delayed(inner) => {
                        if nodes.len() == 0 {
                            lemma_weight_push(lists.last().drop_first(), *inner);
                            lemma_put_off(cycle, *inner);
                            lemma_batched_pull(&cycle.put_off(*inner), main_thread);
                        } else {
                            let after = cycle.set_aside();
                            lemma_set_aside(cycle);
                            assert(after.batched()) by {
                                assert forall|k: int| 0 <= k < after.pipeline.nodes.len() implies ({
                                    let turn = #[trigger] after.turns[after.base() + k];
                                    turn.origin matches Some(number)
                                        ==> after.pipeline.nodes[k].event->Some_0.batch
                                        == after.pipeline.start + after.processed[number].first
                                        - after.base()
                                }) by {
                                    if k < nodes.len() {
                                        assert(after.turns[after.base() + k]
                                            == cycle.turns[cycle.base() + k]);
                                    }
                                }
                            }
                            lemma_batched_pull(&after, main_thread);
                        }
                    },
                    EventValue::Typed { event_type, payload } => {
                        let added = cycle.dispatched();
                        lemma_dispatched(cycle);
                        let chosen = first_selectable(
                            cycle.plan,
                            main_thread,
                            added.pipeline.nodes,
                            nodes.len() as int,
                        );
                        lemma_first_selectable(
                            cycle.plan,
                            main_thread,
                            added.pipeline.nodes,
                            nodes.len() as int,
                        );
                        if chosen is None {
                            lemma_pull(&added, main_thread);
                        }
                        assert(cycle.pipeline.start + nodes.len() < isize::MAX);
                        lemma_batched_dispatched(cycle);
                        match chosen {
                            Some(k) => {
                                lemma_batched_same(&added, &added.handed_out(k));
                            },
                            None => {
                                lemma_batched_pull(&added, main_thread);
                            },
                        }
                    },
                    _ => {},
                }
            }
        }
    }
}

/// Nodes bear the right index after an event has come to its turn.
proof fn lemma_batched_dispatched(cycle: &Cycle)
    requires
        cycle.recorded(),
        cycle.batched(),
        isize::MIN <= cycle.pipeline.start,
        cycle.pipeline.start + cycle.pipeline.nodes.len() < isize::MAX,
    ensures
        cycle.dispatched().batched(),
{
    let added = cycle.dispatched();
    let nodes = cycle.pipeline.nodes;
    assert forall|k: int| 0 <= k < added.pipeline.nodes.len() implies ({
        let turn = #[trigger] added.turns[added.base() + k];
        turn.origin matches Some(number) ==> added.pipeline.nodes[k].event->Some_0.batch
            == added.pipeline.start + added.processed[number].first - added.base()
    }) by {
        if k < nodes.len() {
            assert(added.turns[added.base() + k] == cycle.turns[cycle.base() + k]);
            assert(cycle.node_recorded(k));
        }
    }
}

/// Nodes bear the right index as long as these, the turns and the events for them stay.
proof fn lemma_batched_same(before: &Cycle, after: &Cycle)
    requires
        before.turns_recorded(),
        before.batched(),
        after.turns == before.turns,
        after.pipeline.start == before.pipeline.start,
        after.pipeline.nodes.len() == before.pipeline.nodes.len(),
        forall|k: int|
            0 <= k < before.pipeline.nodes.len() ==> (#[trigger] after.pipeline.nodes[k]).event
                == before.pipeline.nodes[k].event,
        before.processed.len() <= after.processed.len(),
        forall|o: int|
            0 <= o < before.processed.len() ==> #[trigger] after.processed[o]
                == before.processed[o],
    ensures
        after.batched(),
{
    assert forall|k: int| 0 <= k < after.pipeline.nodes.len() implies ({
        let turn = #[trigger] after.turns[after.base() + k];
        turn.origin matches Some(number) ==> after.pipeline.nodes[k].event->Some_0.batch
            == after.pipeline.start + after.processed[number].first - after.base()
    }) by {
        assert(before.turns[before.base() + k] == after.turns[after.base() + k]);
        assert(before.node_recorded(k));
        assert(after.pipeline.nodes[k].event == before.pipeline.nodes[k].event);
    }
}

/// What came before something else still did.
proof fn lemma_came_before_grown(before: &Cycle, after: &Cycle, p: int, q: int)
    requires
        before.came_before(p, q),
        logs_grown(before.queues, after.queues),
        after.raised[p] == before.raised[p],
        after.raised[q] == before.raised[q],
    ensures
        after.came_before(p, q),
{
    let first = undelayed(before.raised[p]);
    let second = undelayed(before.raised[q]);
    let (u, a, v, b) = choose|u: int, a: int, v: int, b: int|
        {
            &&& #[trigger] before.came(first, u, a)
            &&& #[trigger] before.came(second, v, b)
            &&& u == v ==> a + first.len() <= b
        };
    lemma_came_grown(before, after, first, u, a);
    lemma_came_grown(before, after, second, v, b);
    assert(after.came(undelayed(after.raised[p]), u, a));
    assert(after.came(undelayed(after.raised[q]), v, b));
}

/// Events stay in order when a thread asks for a job.
proof fn lemma_ordered_asked(cycle: &Cycle, main_thread: bool)
    requires
        cycle.consistent(),
        cycle.raises_ordered(),
        cycle.allows(Step::Ask { main_thread }),
    ensures
        cycle.asked(main_thread).raises_ordered(),
{
    let after = cycle.asked(main_thread);
    lemma_asked(cycle, main_thread);
    lemma_first_selectable(cycle.plan, main_thread, cycle.pipeline.nodes, 0);
    if cycle.pipeline.blocked is None && first_selectable(
        cycle.plan,
        main_thread,
        cycle.pipeline.nodes,
        0,
    ) is None && cycle.pipeline.clogged is None {
        lemma_pull(cycle, main_thread);
        lemma_batched_pull(cycle, main_thread);
        lemma_batched_same(&cycle.pull(main_thread), &after);
    } else {
        lemma_batched_same(cycle, &after);
    }
    assert forall|h: int| #[trigger] after.finished.contains(h) implies after.kept(h)
        == cycle.kept(h) by {
        lemma_finished_turn(cycle, h);
        if cycle.base() <= h {
            let k = h - cycle.base();
            assert(after.pipeline.nodes[k].emitted == cycle.pipeline.nodes[k].emitted);
        }
    }
    assert forall|h: int|
        after.base() <= h && #[trigger] after.finished.contains(h) && !after.kept(
            h,
        ) implies after.turns[h].origin == after.turns[after.base()].origin by {
        lemma_finished_turn(cycle, h);
        assert(cycle.finished.contains(h));
        assert(after.turns[h] == cycle.turns[h]);
        assert(after.turns[cycle.base()] == cycle.turns[cycle.base()]);
    }
    assert forall|p: int, q: int| #[trigger]
        after.finished.contains(p) && #[trigger] after.finished.contains(q)
            && after.turns[p].origin->Some_0 < after.turns[q].origin->Some_0 && !after.kept(
            q,
        ) implies after.came_before(p, q) by {
        lemma_finished_turn(cycle, p);
        lemma_finished_turn(cycle, q);
        assert(cycle.finished.contains(p) && cycle.finished.contains(q));
        assert(after.turns[p] == cycle.turns[p]);
        assert(after.turns[q] == cycle.turns[q]);
        lemma_came_before_grown(cycle, &after, p, q);
    }
}

/// Events stay in order when a request was carried out.
proof fn lemma_ordered_resumed(cycle: &Cycle, plan: Plan, start: int, raised: Seq<EventValue>)
    requires
        cycle.consistent(),
        cycle.raises_ordered(),
        cycle.allows(Step::CarryOut { plan, start, raised }),
    ensures
        cycle.resumed(plan, start, raised).raises_ordered(),
{
    let after = cycle.resumed(plan, start, raised);
    lemma_resumed(cycle, plan, start, raised);
    assert forall|h: int| #[trigger] after.finished.contains(h) implies h < after.base() by {
        lemma_finished_turn(cycle, h);
    }
    assert forall|p: int, q: int| #[trigger]
        after.finished.contains(p) && #[trigger] after.finished.contains(q)
            && after.turns[p].origin->Some_0 < after.turns[q].origin->Some_0 && !after.kept(
            q,
        ) implies after.came_before(p, q) by {
        assert(cycle.finished.contains(p) && cycle.finished.contains(q));
        lemma_came_before_grown(cycle, &after, p, q);
    }
}

/// What has come into the pipeline and into the queue when a thread has run a job.
pub struct Ending {
    /// The nodes, once that of the job is marked as complete.
    pub marked: Seq<NodeView>,
    /// The number of nodes that leave the pipeline.
    pub count: int,
    /// The events that come into the queue at once.
    pub at_once: Seq<EventValue>,
    /// The events that nodes which leave had kept.
    pub released: Seq<EventValue>,
}

impl Ending {
    /// Whether this is what happens when a thread has run the given job.
    pub open spec fn follows_from(&self, cycle: &Cycle, id: int, emitted: Seq<EventValue>) -> bool {
        let after = cycle.ended(id, emitted);
        let nodes = cycle.pipeline.nodes;
        let k = id - cycle.pipeline.start;
        let same = nodes[k].event == nodes[0].event;
        &&& 0 <= self.count <= nodes.len()
        &&& self.count > 0 <==> k == 0
        &&& self.marked.len() == nodes.len()
        &&& forall|j: int|
            0 <= j < nodes.len() && j != k ==> #[trigger] self.marked[j] == nodes[j]
        &&& self.marked[k].event == nodes[k].event
        &&& self.marked[k].emitted == (if same {
            Seq::<EventValue>::empty()
        } else {
            emitted
        })
        &&& after.pipeline.nodes == self.marked.skip(self.count)
        &&& after.pipeline.start == cycle.pipeline.start + self.count
        &&& after.base() == cycle.base() + self.count
        &&& self.at_once == (if same {
            emitted
        } else {
            Seq::empty()
        })
        &&& self.released == all_emitted(self.marked.take(self.count))
        &&& after.queues == cycle.arriving(self.at_once + self.released)
    }
}

/// What happens to nodes and events when a thread has run a job.
proof fn lemma_ending(cycle: &Cycle, id: int, emitted: Seq<EventValue>) -> (ending: Ending)
    requires
        cycle.consistent(),
        running(cycle.pipeline, id),
    ensures
        ending.follows_from(cycle, id, emitted),
{
    let after = cycle.ended(id, emitted);
    let k = id - cycle.pipeline.start;
    let nodes = cycle.pipeline.nodes;
    let node = nodes[k];
    let top = cycle.pipeline.lists.last();
    let none = Seq::<EventValue>::empty();
    let same = node.event == nodes[0].event;
    let marked = if same {
        nodes.update(k, NodeView { state: EventState::Complete, ..node })
    } else {
        nodes.update(
            k,
            NodeView { state: EventState::Complete, emitted: node.emitted + emitted, ..node },
        )
    };
    lemma_leading_complete_is(marked);
    let count = if k == 0 {
        leading_complete(marked) as int
    } else {
        0
    };
    let at_once = if same {
        emitted
    } else {
        none
    };
    assert(node.emitted =~= none);
    assert(node.emitted + emitted =~= emitted);
    assert(marked.take(0) =~= Seq::empty());
    assert(marked.skip(0) =~= marked);
    let released = all_emitted(marked.take(count));
    assert(after.pipeline.nodes =~= marked.skip(count));
    assert(after.pipeline.lists.last() =~= top + (at_once + released));
    assert(after.pipeline.lists.last().skip(top.len() as int) =~= at_once + released);
    Ending { marked, count, at_once, released }
}

/// The events that were raised in two turns, for an event and for a later one, come in that order
/// if the latter come into the queue when a thread has run a job.
proof fn lemma_ordered_pair(
    cycle: &Cycle,
    id: int,
    emitted: Seq<EventValue>,
    ending: Ending,
    p: int,
    q: int,
)
    requires
        cycle.consistent(),
        cycle.raises_ordered(),
        running(cycle.pipeline, id),
        ending.follows_from(cycle, id, emitted),
        cycle.ended(id, emitted).finished.contains(p),
        cycle.ended(id, emitted).finished.contains(q),
        cycle.turns[p].origin->Some_0 < cycle.turns[q].origin->Some_0,
        p < q,
        ({
            let nodes = cycle.pipeline.nodes;
            let k = id - cycle.pipeline.start;
            let place = cycle.base() + k;
            let same = nodes[k].event == nodes[0].event;
            &&& q == place ==> same
            &&& q != place ==> cycle.kept(q) && q - cycle.base() < ending.count
            &&& same ==> cycle.turns[place].origin == cycle.turns[cycle.base()].origin
        }),
    ensures
        cycle.ended(id, emitted).came_before(p, q),
{
    let after = cycle.ended(id, emitted);
    let base = cycle.base();
    let k = id - cycle.pipeline.start;
    let place = base + k;
    let none = Seq::<EventValue>::empty();
    let marked = ending.marked;
    let count = ending.count;
    let at_once = ending.at_once;
    let released = ending.released;
    let queue = cycle.open.last();
    let len = cycle.queues[queue].arrived.len() as int;
    lemma_arriving_grows(cycle, at_once + released);
    assert(cycle.node_recorded(0));
    assert(cycle.node_recorded(k));
    // The later ones.
    let (first, rest) = if q == place {
        (none, released)
    } else {
        let more = lemma_emitted_within(marked, count, q - base);
        (at_once + all_emitted(marked.take(q - base)), more)
    };
    assert(first + after.raised[q] + rest =~= at_once + released);
    lemma_landed(cycle, &after, first, after.raised[q], rest);
    let b = len + undelayed(first).len();
    assert(after.came(undelayed(after.raised[q]), queue, b));
    // The earlier ones.
    if p != place && !cycle.kept(p) {
        assert(cycle.finished.contains(p));
        assert(cycle.raise_recorded(p));
        let (u, a) = choose|u: int, a: int| #[trigger]
            cycle.came(undelayed(cycle.raised[p]), u, a);
        lemma_came_grown(cycle, &after, undelayed(cycle.raised[p]), u, a);
        assert(after.came(undelayed(after.raised[p]), u, a));
    } else {
        lemma_finished_turn(cycle, q);
        if q == place {
            lemma_turns_in_order(cycle, base, p);
            assert(false);
        }
        assert(k == 0);
        if p == place {
            assert(none + emitted + released =~= at_once + released);
            lemma_landed(cycle, &after, none, emitted, released);
            lemma_undelayed_add(at_once, all_emitted(marked.take(q - base)));
            assert(after.came(undelayed(after.raised[p]), queue, len));
        } else {
            let j = p - base;
            let more = lemma_emitted_within(marked, count, j);
            let before = at_once + all_emitted(marked.take(j));
            assert(before + after.raised[p] + more =~= at_once + released);
            lemma_landed(cycle, &after, before, after.raised[p], more);
            let a = len + undelayed(before).len();
            assert(after.came(undelayed(after.raised[p]), queue, a));
            // What is released before the later ones holds the earlier ones.
            let between = lemma_emitted_within(marked, q - base, j);
            assert(first =~= before + after.raised[p] + between);
            lemma_undelayed_add(before + after.raised[p], between);
            lemma_undelayed_add(before, after.raised[p]);
        }
    }
}

/// Where the nodes of two turns are for the same event, so are the turns.
proof fn lemma_same_event(cycle: &Cycle, k: int)
    requires
        cycle.consistent(),
        cycle.batched(),
        0 <= k < cycle.pipeline.nodes.len(),
        cycle.pipeline.nodes[k].state != EventState::Complete,
    ensures
        cycle.turns[cycle.base()].origin is Some,
        cycle.turns[cycle.base() + k].origin is Some,
        cycle.pipeline.nodes[k].event == cycle.pipeline.nodes[0].event
            ==> cycle.turns[cycle.base() + k].origin == cycle.turns[cycle.base()].origin,
{
    assert(cycle.node_recorded(0));
    assert(cycle.node_recorded(k));
    assert(cycle.turns[cycle.base() + 0].origin is Some);
    assert(cycle.turns[cycle.base() + k].origin is Some);
    lemma_turns_in_order(cycle, cycle.base(), cycle.base() + k);
}

/// Nodes bear the right index after a thread has run a job.
proof fn lemma_batched_ended(cycle: &Cycle, id: int, emitted: Seq<EventValue>, ending: Ending)
    requires
        cycle.batched(),
        running(cycle.pipeline, id),
        ending.follows_from(cycle, id, emitted),
    ensures
        cycle.ended(id, emitted).batched(),
{
    let after = cycle.ended(id, emitted);
    let nodes = cycle.pipeline.nodes;
    let k = id - cycle.pipeline.start;
    let marked = ending.marked;
    let count = ending.count;
    assert forall|j: int| 0 <= j < after.pipeline.nodes.len() implies ({
        let turn = #[trigger] after.turns[after.base() + j];
        turn.origin matches Some(number) ==> after.pipeline.nodes[j].event->Some_0.batch
            == after.pipeline.start + after.processed[number].first - after.base()
    }) by {
        assert(after.pipeline.nodes[j] == marked[count + j]);
        assert(cycle.turns[cycle.base() + (count + j)] == after.turns[after.base() + j]);
        if count + j != k {
            assert(marked[count + j] == nodes[count + j]);
        }
    }
}

/// Which events are kept after a thread has run a job.
proof fn lemma_kept_ended(
    cycle: &Cycle,
    id: int,
    emitted: Seq<EventValue>,
    ending: Ending,
    h: int,
)
    requires
        cycle.consistent(),
        running(cycle.pipeline, id),
        ending.follows_from(cycle, id, emitted),
        cycle.ended(id, emitted).finished.contains(h),
        !cycle.ended(id, emitted).kept(h),
    ensures
        ({
            let place = cycle.base() + id - cycle.pipeline.start;
            let nodes = cycle.pipeline.nodes;
            &&& h == place ==> nodes[place - cycle.base()].event == nodes[0].event
            &&& h != place ==> cycle.finished.contains(h) && (!cycle.kept(h) || h - cycle.base()
                < ending.count)
        }),
{
    let after = cycle.ended(id, emitted);
    let nodes = cycle.pipeline.nodes;
    let k = id - cycle.pipeline.start;
    let j = h - cycle.base();
    if j == k {
        if nodes[k].event != nodes[0].event {
            assert(after.pipeline.nodes[k] == ending.marked[k]);
        }
    } else if cycle.kept(h) && ending.count <= j {
        assert(after.pipeline.nodes[j - ending.count] == ending.marked[j]);
        assert(ending.marked[j] == nodes[j]);
    }
}

/// After a thread has run a job, only what was raised for the event at the front has come into a
/// queue while its node is in the pipeline.
proof fn lemma_front_ended(
    cycle: &Cycle,
    id: int,
    emitted: Seq<EventValue>,
    ending: Ending,
    h: int,
)
    requires
        cycle.consistent(),
        cycle.raises_ordered(),
        running(cycle.pipeline, id),
        ending.follows_from(cycle, id, emitted),
        cycle.ended(id, emitted).consistent(),
        cycle.ended(id, emitted).base() <= h,
        cycle.ended(id, emitted).finished.contains(h),
        !cycle.ended(id, emitted).kept(h),
    ensures
        cycle.turns[h].origin == cycle.turns[cycle.ended(id, emitted).base()].origin,
{
    let after = cycle.ended(id, emitted);
    let k = id - cycle.pipeline.start;
    let place = cycle.base() + k;
    lemma_same_event(cycle, k);
    lemma_finished_turn(&after, h);
    lemma_kept_ended(cycle, id, emitted, ending, h);
    if h != place {
        assert(cycle.finished.contains(h));
        assert(after.node_recorded(0));
        assert(after.turns[after.base() + 0].origin is Some);
        lemma_turns_in_order(cycle, cycle.base(), after.base());
        lemma_turns_in_order(cycle, after.base(), h);
    }
}

/// Events stay in order when a thread has run a job.
proof fn lemma_ordered_ended(cycle: &Cycle, id: int, emitted: Seq<EventValue>)
    requires
        cycle.consistent(),
        cycle.raises_ordered(),
        running(cycle.pipeline, id),
    ensures
        cycle.ended(id, emitted).raises_ordered(),
{
    let after = cycle.ended(id, emitted);
    let base = cycle.base();
    let k = id - cycle.pipeline.start;
    let place = base + k;
    let ending = lemma_ending(cycle, id, emitted);
    lemma_ended(cycle, id, emitted);
    lemma_batched_ended(cycle, id, emitted, ending);
    lemma_same_event(cycle, k);
    assert forall|h: int|
        after.base() <= h && #[trigger] after.finished.contains(h) && !after.kept(
            h,
        ) implies after.turns[h].origin == after.turns[after.base()].origin by {
        lemma_front_ended(cycle, id, emitted, ending, h);
    }
    assert forall|p: int, q: int| #[trigger]
        after.finished.contains(p) && #[trigger] after.finished.contains(q)
            && after.turns[p].origin->Some_0 < after.turns[q].origin->Some_0 && !after.kept(
            q,
        ) implies after.came_before(p, q) by {
        lemma_finished_turn(&after, p);
        lemma_finished_turn(&after, q);
        lemma_turns_in_order(cycle, q, p);
        lemma_kept_ended(cycle, id, emitted, ending, q);
        assert(p < q);
        if q != place && !cycle.kept(q) {
            if base <= p {
                lemma_turns_in_order(cycle, base, p);
                assert(cycle.turns[q].origin == cycle.turns[base].origin);
                assert(false);
            }
            assert(cycle.finished.contains(p));
            lemma_came_before_grown(cycle, &after, p, q);
        } else {
            lemma_ordered_pair(cycle, id, emitted, ending, p, q);
        }
    }
}

/// Whatever happens in an event cycle, raised events come into its queues in order.
pub proof fn lemma_cycles_are_ordered(
    plan: Plan,
    start: int,
    events: Seq<EventValue>,
    steps: Seq<Step>,
)
    requires
        planned(plan),
        isize::MIN <= start < isize::MAX,
        begin(plan, start, events).allows_all(steps),
    ensures
        begin(plan, start, events).after(steps).raises_ordered(),
    decreases steps.len(),
{
    let first = begin(plan, start, events);
    if steps.len() > 0 {
        let before = first.after(steps.drop_last());
        lemma_cycles_are_consistent(plan, start, events, steps.drop_last());
        lemma_cycles_are_ordered(plan, start, events, steps.drop_last());
        match steps.last() {
            Step::Ask { main_thread } => {
                lemma_ordered_asked(&before, main_thread);
            },
            Step::Finish { id, emitted } => {
                lemma_ordered_ended(&before, id, emitted);
            },
            Step::CarryOut { plan, start, raised } => {
                lemma_ordered_resumed(&before, plan, start, raised);
            },
        }
    }
}

} // verus!
