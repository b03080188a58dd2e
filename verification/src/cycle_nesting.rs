//! What is right about the record of embedded event cycles.
use crate::cycle::begin;
use crate::cycle::planned;
use crate::cycle::undelayed;
use crate::cycle::Cycle;
use crate::cycle::QueueLog;
use crate::cycle::Step;
use crate::cycle_record::grown;
use crate::cycle_record::lemma_arriving_grows;
use crate::cycle_record::lemma_cycles_are_consistent;
use crate::cycle_record::lemma_dispatched;
use crate::cycle_record::lemma_left;
use crate::cycle_record::lemma_pull;
use crate::cycle_record::lemma_push_contains;
use crate::cycle_record::lemma_put_off;
use crate::cycle_record::lemma_queues_embedded;
use crate::cycle_record::lemma_set_aside;
use crate::events::clogs;
use crate::events::lemma_weight_first;
use crate::events::lemma_weight_push;
use crate::events::total_weight;
use crate::events::EventValue;
use crate::pipeline::first_selectable;
use crate::pipeline::running;
use crate::pipeline::Pipeline;
use crate::pipeline::Plan;
use vstd::prelude::*;

verus! {

impl Cycle {
    /// Whether all handlers for an event have run to completion.
    pub open spec fn event_finished(&self, number: int) -> bool {
        forall|h: int|
            0 <= h < self.turns.len() && (#[trigger] self.turns[h]).origin == Some(number)
                ==> self.finished.contains(h)
    }

    /// Whether all handlers for the events that were taken from a queue have run to completion.
    pub open spec fn queue_finished(&self, queue: int) -> bool {
        forall|x: int| #[trigger]
            self.queues[queue].taken.contains(x) ==> self.event_finished(x)
    }

    /// Whether the record of how a queue came onto the stack is right: it was put above the queue
    /// that was on top by a request which had been taken from that queue, it holds the events of
    /// the request first, and what is taken from it gets a number above that of the request.
    pub open spec fn log_nested(&self, queue: int) -> bool {
        let log = self.queues[queue];
        &&& forall|i: int| 0 <= i < log.beneath.len() ==> 0 <= #[trigger] log.beneath[i] < queue
        &&& match log.request {
            None => log.beneath.len() == 0,
            Some(request) => {
                let below = log.beneath.last();
                &&& log.beneath.len() > 0
                &&& log.beneath == self.queues[below].beneath.push(below)
                &&& 0 <= request < self.processed.len()
                &&& self.queues[below].taken.contains(request)
                &&& self.processed[request].event is Flush
                &&& grown(
                    undelayed(self.processed[request].event->Flush_0.events@),
                    log.arrived,
                )
                &&& forall|i: int| 0 <= i < log.taken.len() ==> request < #[trigger] log.taken[i]
            },
        }
    }

    /// Whether what is taken from a queue below another one, after that was put on the stack, comes
    /// after all that is taken from the upper one, and whether the latter has been dealt with.
    pub open spec fn apart(&self, upper: int, lower: int) -> bool {
        forall|x: int, y: int| #[trigger]
            self.queues[upper].taken.contains(x) && #[trigger] self.queues[lower].taken.contains(y)
                && self.queues[upper].request->Some_0 < y ==> x < y && self.event_finished(x)
    }

    /// Whether nothing was taken from a queue since another one was put on the stack above it.
    pub open spec fn at_rest(&self, upper: int, lower: int) -> bool {
        forall|y: int| #[trigger]
            self.queues[lower].taken.contains(y) ==> y <= self.queues[upper].request->Some_0
    }

    /// Whether the record of embedded cycles is right.
    pub open spec fn nested(&self) -> bool {
        &&& forall|u: int| 0 <= u < self.queues.len() ==> #[trigger] self.log_nested(u)
        &&& forall|l: int|
            0 <= l < self.open.len() ==> self.queues[#[trigger] self.open[l]].beneath
                == self.open.take(l)
        &&& forall|u: int, v: int|
            0 <= u < self.queues.len() && #[trigger] self.queues[u].beneath.contains(v)
                ==> self.apart(u, v)
        &&& forall|u: int|
            0 <= u < self.queues.len() && !#[trigger] self.open.contains(u)
                ==> self.queue_finished(u)
        &&& forall|m: int, l: int|
            0 <= m < l < self.open.len() ==> self.at_rest(
                #[trigger] self.open[l],
                #[trigger] self.open[m],
            )
        &&& self.pipeline.clogged is Some ==> {
            &&& self.open.len() > 0
            &&& self.queues[self.open.last()].taken.contains(self.processed.len() - 1)
        }
    }
}

/// What is beneath a queue is beneath all queues above it.
pub proof fn lemma_beneath_all(cycle: &Cycle, below: int, queue: int, above: int)
    requires
        cycle.nested(),
        0 <= above < cycle.queues.len(),
        cycle.queues[above].beneath.contains(queue),
        cycle.queues[queue].beneath.contains(below),
    ensures
        cycle.queues[above].beneath.contains(below),
    decreases above,
{
    assert(cycle.log_nested(above));
    let next_below = cycle.queues[above].beneath.last();
    let rest = cycle.queues[next_below].beneath;
    assert(cycle.queues[above].beneath[cycle.queues[above].beneath.len() - 1] == next_below);
    lemma_push_contains(rest, next_below);
    if next_below != queue {
        lemma_beneath_all(cycle, below, queue, next_below);
    }
}

/// The numbers that were given out so far are below the next one.
proof fn lemma_taken_below(cycle: &Cycle, u: int, x: int)
    requires
        cycle.queues_recorded(),
        0 <= u < cycle.queues.len(),
        cycle.queues[u].taken.contains(x),
    ensures
        0 <= x < cycle.processed.len(),
{
    assert(cycle.queue_recorded(cycle.queues[u]));
    let i = choose|i: int| 0 <= i < cycle.queues[u].taken.len() && cycle.queues[u].taken[i] == x;
    assert(cycle.queues[u].taken[i] == x);
}

/// Whether a cycle has gone on, without that an event whose turn had come got more turns, or that
/// handlers which had run to completion did so no more.
pub open spec fn continued(before: &Cycle, after: &Cycle) -> bool {
    &&& before.processed.len() <= after.processed.len()
    &&& forall|o: int|
        0 <= o < before.processed.len() ==> #[trigger] after.processed[o] == before.processed[o]
    &&& before.turns.len() <= after.turns.len()
    &&& forall|h: int|
        0 <= h < before.turns.len() ==> #[trigger] after.turns[h] == before.turns[h]
    &&& forall|h: int|
        before.turns.len() <= h < after.turns.len() ==> ((
        #[trigger] after.turns[h]).origin matches Some(number) ==> before.processed.len()
            <= number)
    &&& forall|h: int| #[trigger] before.finished.contains(h) ==> after.finished.contains(h)
}

/// Handlers that have run to completion stay so.
proof fn lemma_finished_stays(before: &Cycle, after: &Cycle, number: int)
    requires
        continued(before, after),
        number < before.processed.len(),
        before.event_finished(number),
    ensures
        after.event_finished(number),
{
    assert forall|h: int|
        0 <= h < after.turns.len() && (#[trigger] after.turns[h]).origin == Some(
            number,
        ) implies after.finished.contains(h) by {
        assert(h < before.turns.len());
        assert(before.turns[h].origin == Some(number));
    }
}

/// Whether only the events that came into queues differ.
pub open spec fn same_nesting(before: Seq<QueueLog>, after: Seq<QueueLog>) -> bool {
    &&& after.len() == before.len()
    &&& forall|u: int|
        0 <= u < before.len() ==> {
            &&& (#[trigger] after[u]).taken == before[u].taken
            &&& after[u].beneath == before[u].beneath
            &&& after[u].request == before[u].request
            &&& grown(before[u].arrived, after[u].arrived)
        }
}

/// The record of embedded cycles stays right while no queue is put on the stack, left or taken from.
proof fn lemma_nested_same(before: &Cycle, after: &Cycle)
    requires
        before.queues_recorded(),
        before.nested(),
        continued(before, after),
        after.open == before.open,
        same_nesting(before.queues, after.queues),
        after.pipeline.clogged is Some ==> before.pipeline.clogged is Some
            && after.processed.len() == before.processed.len(),
    ensures
        after.nested(),
{
    assert forall|u: int| 0 <= u < after.queues.len() implies #[trigger] after.log_nested(u) by {
        assert(before.log_nested(u));
        assert(after.queues[u].beneath == before.queues[u].beneath);
        if before.queues[u].request is Some {
            let below = before.queues[u].beneath.last();
            let request = before.queues[u].request->Some_0;
            assert(below == before.queues[u].beneath[before.queues[u].beneath.len() - 1]);
            assert(after.queues[below].taken == before.queues[below].taken);
            assert(after.processed[request] == before.processed[request]);
            let events = undelayed(after.processed[request].event->Flush_0.events@);
            assert(grown(events, after.queues[u].arrived)) by {
                assert forall|i: int| 0 <= i < events.len() implies
                    #[trigger] after.queues[u].arrived[i] == events[i] by {
                    assert(before.queues[u].arrived[i] == events[i]);
                }
            }
        }
    }
    assert forall|u: int, v: int|
        0 <= u < after.queues.len() && #[trigger] after.queues[u].beneath.contains(
            v,
        ) implies after.apart(u, v) by {
        assert(before.queues[u].beneath.contains(v));
        assert(before.apart(u, v));
        assert(before.log_nested(u));
        let i = choose|i: int|
            0 <= i < before.queues[u].beneath.len() && before.queues[u].beneath[i] == v;
        assert(0 <= before.queues[u].beneath[i] < u);
        assert(after.queues[v].taken == before.queues[v].taken);
        assert forall|x: int, y: int| #[trigger]
            after.queues[u].taken.contains(x) && #[trigger] after.queues[v].taken.contains(y)
                && after.queues[u].request->Some_0 < y implies x < y && after.event_finished(x) by {
            assert(before.queues[u].taken.contains(x));
            assert(before.queues[v].taken.contains(y));
            lemma_taken_below(before, u, x);
            lemma_finished_stays(before, after, x);
        }
    }
    assert forall|u: int|
        0 <= u < after.queues.len() && !#[trigger] after.open.contains(
            u,
        ) implies after.queue_finished(u) by {
        assert(!before.open.contains(u));
        assert(before.queue_finished(u));
        assert forall|x: int| #[trigger]
            after.queues[u].taken.contains(x) implies after.event_finished(x) by {
            assert(before.queues[u].taken.contains(x));
            lemma_taken_below(before, u, x);
            lemma_finished_stays(before, after, x);
        }
    }
    assert forall|l: int| 0 <= l < after.open.len() implies
        after.queues[#[trigger] after.open[l]].beneath == after.open.take(l) by {
        assert(before.queues[before.open[l]].beneath == before.open.take(l));
    }
    assert forall|m: int, l: int| 0 <= m < l < after.open.len() implies after.at_rest(
        #[trigger] after.open[l],
        #[trigger] after.open[m],
    ) by {
        assert(before.at_rest(before.open[l], before.open[m]));
        assert forall|y: int| #[trigger]
            after.queues[after.open[m]].taken.contains(y) implies y
            <= after.queues[after.open[l]].request->Some_0 by {
            assert(before.queues[before.open[m]].taken.contains(y));
        }
    }
    if after.pipeline.clogged is Some {
        assert(before.open[before.open.len() - 1] == before.open.last());
    }
}

/// The record of embedded cycles stays right when an empty queue is left while nothing is in
/// progress.
proof fn lemma_nested_left(cycle: &Cycle)
    requires
        cycle.recorded(),
        cycle.nested(),
        cycle.pipeline.clogged is None,
        cycle.pipeline.lists.len() > 0,
        cycle.pipeline.nodes.len() == 0,
    ensures
        cycle.left().nested(),
{
    let after = cycle.left();
    assert forall|u: int| 0 <= u < after.queues.len() implies #[trigger] after.log_nested(u) by {
        assert(cycle.log_nested(u));
    }
    assert forall|l: int| 0 <= l < after.open.len() implies
        after.queues[#[trigger] after.open[l]].beneath == after.open.take(l) by {
        assert(cycle.queues[cycle.open[l]].beneath == cycle.open.take(l));
        assert(cycle.open.take(l) =~= after.open.take(l));
    }
    assert forall|u: int, v: int|
        0 <= u < after.queues.len() && #[trigger] after.queues[u].beneath.contains(
            v,
        ) implies after.apart(u, v) by {
        assert(cycle.queues[u].beneath.contains(v));
        assert(cycle.apart(u, v));
        assert forall|x: int, y: int| #[trigger]
            after.queues[u].taken.contains(x) && #[trigger] after.queues[v].taken.contains(y)
                && after.queues[u].request->Some_0 < y implies x < y && after.event_finished(x) by {
            assert(cycle.queues[u].taken.contains(x) && cycle.queues[v].taken.contains(y));
            assert(cycle.event_finished(x));
            lemma_finished_stays(cycle, &after, x);
        }
    }
    assert forall|u: int|
        0 <= u < after.queues.len() && !#[trigger] after.open.contains(
            u,
        ) implies after.queue_finished(u) by {
        assert forall|x: int| #[trigger]
            after.queues[u].taken.contains(x) implies after.event_finished(x) by {
            assert forall|h: int|
                0 <= h < after.turns.len() && (#[trigger] after.turns[h]).origin == Some(
                    x,
                ) implies after.finished.contains(h) by {
                assert(cycle.turns[h].origin is Some);
            }
        }
    }
    assert forall|m: int, l: int| 0 <= m < l < after.open.len() implies after.at_rest(
        #[trigger] after.open[l],
        #[trigger] after.open[m],
    ) by {
        assert(cycle.at_rest(cycle.open[l], cycle.open[m]));
        assert forall|y: int| #[trigger]
            after.queues[after.open[m]].taken.contains(y) implies y
            <= after.queues[after.open[l]].request->Some_0 by {
            assert(cycle.queues[cycle.open[m]].taken.contains(y));
        }
    }
}

/// The record of embedded cycles stays right when the first event of the top queue gets its number.
proof fn lemma_nested_taking(before: &Cycle, after: &Cycle)
    requires
        before.queues_recorded(),
        before.nested(),
        before.open.len() > 0,
        continued(before, after),
        after.open == before.open,
        after.queues == before.taking(),
        after.processed.len() == before.processed.len() + 1,
    ensures
        after.nested(),
{
    let top = before.open.last();
    let number = before.processed.len() as int;
    assert(before.open[before.open.len() - 1] == top);
    lemma_push_contains(before.queues[top].taken, number);
    assert forall|u: int| 0 <= u < after.queues.len() implies #[trigger] after.log_nested(u) by {
        assert(before.log_nested(u));
        if before.queues[u].request is Some {
            let below = before.queues[u].beneath.last();
            let request = before.queues[u].request->Some_0;
            assert(below == before.queues[u].beneath[before.queues[u].beneath.len() - 1]);
            assert(after.queues[below].taken.contains(request));
            assert(after.queues[below].beneath == before.queues[below].beneath);
            assert(after.processed[request] == before.processed[request]);
            assert forall|i: int| 0 <= i < after.queues[u].taken.len() implies request
                < #[trigger] after.queues[u].taken[i] by {
                if i < before.queues[u].taken.len() {
                    assert(before.queues[u].taken[i] == after.queues[u].taken[i]);
                }
            }
        }
    }
    assert forall|l: int| 0 <= l < after.open.len() implies
        after.queues[#[trigger] after.open[l]].beneath == after.open.take(l) by {
        assert(before.queues[before.open[l]].beneath == before.open.take(l));
    }
    assert forall|u: int, v: int|
        0 <= u < after.queues.len() && #[trigger] after.queues[u].beneath.contains(
            v,
        ) implies after.apart(u, v) by {
        assert(before.queues[u].beneath.contains(v));
        assert(before.apart(u, v));
        assert(before.log_nested(u));
        let i = choose|i: int|
            0 <= i < before.queues[u].beneath.len() && before.queues[u].beneath[i] == v;
        assert(0 <= before.queues[u].beneath[i] < u);
        assert forall|x: int, y: int| #[trigger]
            after.queues[u].taken.contains(x) && #[trigger] after.queues[v].taken.contains(y)
                && after.queues[u].request->Some_0 < y implies x < y && after.event_finished(x) by {
            if u == top {
                // Nothing was taken from a queue below since the top one was put on the stack.
                let l = before.open.len() - 1;
                assert(before.queues[before.open[l]].beneath == before.open.take(l));
                let m = choose|m: int|
                    0 <= m < before.open.take(l).len() && before.open.take(l)[m] == v;
                assert(before.open[m] == v);
                assert(before.at_rest(before.open[l], before.open[m]));
                assert(before.queues[v].taken.contains(y));
            } else {
                assert(before.queues[u].taken.contains(x));
                lemma_taken_below(before, u, x);
                if v == top && y == number {
                    // The upper queue was left, as the one that is below it is on top.
                    if before.open.contains(u) {
                        let l = choose|l: int| 0 <= l < before.open.len() && before.open[l] == u;
                        assert(before.queues[before.open[l]].beneath == before.open.take(l));
                        let m = choose|m: int|
                            0 <= m < before.open.take(l).len() && before.open.take(l)[m] == v;
                        assert(before.open[m] == v);
                        assert(before.open[m] < before.open[before.open.len() - 1]);
                    }
                    assert(before.queue_finished(u));
                } else {
                    assert(before.queues[v].taken.contains(y));
                }
                lemma_finished_stays(before, after, x);
            }
        }
    }
    assert forall|u: int|
        0 <= u < after.queues.len() && !#[trigger] after.open.contains(
            u,
        ) implies after.queue_finished(u) by {
        assert(!before.open.contains(u));
        assert(before.open.contains(top));
        assert(before.queue_finished(u));
        assert forall|x: int| #[trigger]
            after.queues[u].taken.contains(x) implies after.event_finished(x) by {
            assert(before.queues[u].taken.contains(x));
            lemma_taken_below(before, u, x);
            lemma_finished_stays(before, after, x);
        }
    }
    assert forall|m: int, l: int| 0 <= m < l < after.open.len() implies after.at_rest(
        #[trigger] after.open[l],
        #[trigger] after.open[m],
    ) by {
        assert(before.at_rest(before.open[l], before.open[m]));
        assert(before.open[m] < before.open[before.open.len() - 1]);
        assert forall|y: int| #[trigger]
            after.queues[after.open[m]].taken.contains(y) implies y
            <= after.queues[after.open[l]].request->Some_0 by {
            assert(before.queues[before.open[m]].taken.contains(y));
        }
    }
    assert(after.queues[after.open.last()].taken.contains(number));
}

/// The record of embedded cycles stays right when a request puts its events on the stack.
proof fn lemma_nested_embedded(cycle: &Cycle)
    requires
        cycle.queues_recorded(),
        cycle.nested(),
        cycle.pipeline.clogged is None,
        cycle.open.len() > 0,
        cycle.processed.len() > 0,
        cycle.processed.last().event is Flush,
        cycle.queues[cycle.open.last()].taken.contains(cycle.processed.len() - 1),
    ensures
        cycle.embedded(cycle.processed.last().event->Flush_0.events@).nested(),
{
    let events = cycle.processed.last().event->Flush_0.events@;
    let after = cycle.embedded(events);
    let fresh = cycle.queues.len() as int;
    let top = cycle.open.len() - 1;
    assert(continued(cycle, &after));
    assert(cycle.open[top] == cycle.open.last());
    assert forall|u: int| 0 <= u < after.queues.len() implies #[trigger] after.log_nested(u) by {
        if u < fresh {
            assert(cycle.log_nested(u));
            assert(after.queues[u] == cycle.queues[u]);
            if cycle.queues[u].request is Some {
                let below = cycle.queues[u].beneath.last();
                assert(below == cycle.queues[u].beneath[cycle.queues[u].beneath.len() - 1]);
                assert(after.queues[below] == cycle.queues[below]);
            }
        } else {
            assert(cycle.queues[cycle.open[top]].beneath == cycle.open.take(top));
            assert(cycle.open =~= cycle.open.take(top).push(cycle.open[top]));
        }
    }
    assert forall|l: int| 0 <= l < after.open.len() implies
        after.queues[#[trigger] after.open[l]].beneath == after.open.take(l) by {
        if l < cycle.open.len() {
            assert(cycle.queues[cycle.open[l]].beneath == cycle.open.take(l));
            assert(cycle.open.take(l) =~= after.open.take(l));
        } else {
            assert(after.open.take(l) =~= cycle.open);
        }
    }
    assert forall|u: int, v: int|
        0 <= u < after.queues.len() && #[trigger] after.queues[u].beneath.contains(
            v,
        ) implies after.apart(u, v) by {
        if u < fresh {
            assert(cycle.queues[u].beneath.contains(v));
            assert(cycle.apart(u, v));
            assert(cycle.log_nested(u));
            let i = choose|i: int|
                0 <= i < cycle.queues[u].beneath.len() && cycle.queues[u].beneath[i] == v;
            assert(0 <= cycle.queues[u].beneath[i] < u);
            assert forall|x: int, y: int| #[trigger]
                after.queues[u].taken.contains(x) && #[trigger] after.queues[v].taken.contains(y)
                    && after.queues[u].request->Some_0 < y implies x < y && after.event_finished(
                x,
            ) by {
                assert(cycle.queues[u].taken.contains(x) && cycle.queues[v].taken.contains(y));
                lemma_taken_below(cycle, u, x);
                lemma_finished_stays(cycle, &after, x);
            }
        }
    }
    assert forall|u: int|
        0 <= u < after.queues.len() && !#[trigger] after.open.contains(
            u,
        ) implies after.queue_finished(u) by {
        lemma_push_contains(cycle.open, fresh);
        assert(!cycle.open.contains(u));
        assert(cycle.queue_finished(u));
        assert forall|x: int| #[trigger]
            after.queues[u].taken.contains(x) implies after.event_finished(x) by {
            assert(cycle.queues[u].taken.contains(x));
            lemma_taken_below(cycle, u, x);
            lemma_finished_stays(cycle, &after, x);
        }
    }
    assert forall|m: int, l: int| 0 <= m < l < after.open.len() implies after.at_rest(
        #[trigger] after.open[l],
        #[trigger] after.open[m],
    ) by {
        assert(after.open[m] == cycle.open[m]);
        assert(0 <= cycle.open[m] < fresh);
        assert forall|y: int| #[trigger]
            after.queues[after.open[m]].taken.contains(y) implies y
            <= after.queues[after.open[l]].request->Some_0 by {
            assert(cycle.queues[cycle.open[m]].taken.contains(y));
            lemma_taken_below(cycle, cycle.open[m], y);
            if l < cycle.open.len() {
                assert(cycle.at_rest(cycle.open[l], cycle.open[m]));
                assert(after.open[l] == cycle.open[l]);
            }
        }
    }
}

/// Moving events into the pipeline keeps the record of embedded cycles right.
proof fn lemma_nested_pull(cycle: &Cycle, main_thread: bool)
    requires
        cycle.recorded(),
        cycle.nested(),
        cycle.pipeline.clogged is None,
    ensures
        cycle.pull(main_thread).nested(),
    decreases cycle.pipeline.lists.len(), total_weight(cycle.pipeline.lists.last()),
{
    let lists = cycle.pipeline.lists;
    let nodes = cycle.pipeline.nodes;
    if lists.len() > 0 {
        assert(cycle.open[cycle.open.len() - 1] == cycle.open.last());
        if lists.last().len() == 0 {
            if nodes.len() == 0 {
                lemma_left(cycle);
                lemma_nested_left(cycle);
                lemma_nested_pull(&cycle.left(), main_thread);
            }
        } else {
            let event = lists.last()[0];
            lemma_weight_first(lists.last());
            if clogs(event) {
                assert(continued(cycle, &cycle.stalled()));
                lemma_nested_taking(cycle, &cycle.stalled());
            } else {
                match event {
                    EventValue::Delayed(inner) => {
                        if nodes.len() == 0 {
                            let after = cycle.put_off(*inner);
                            lemma_weight_push(lists.last().drop_first(), *inner);
                            lemma_put_off(cycle, *inner);
                            lemma_nested_same(cycle, &after);
                            lemma_nested_pull(&after, main_thread);
                        } else {
                            let after = cycle.set_aside();
                            lemma_set_aside(cycle);
                            assert(continued(cycle, &after));
                            lemma_nested_same(cycle, &after);
                            lemma_nested_pull(&after, main_thread);
                        }
                    },
                    EventValue::Typed { event_type, payload } => {
                        let added = cycle.dispatched();
                        lemma_dispatched(cycle);
                        assert(continued(cycle, &added));
                        lemma_nested_taking(cycle, &added);
                        match first_selectable(
                            cycle.plan,
                            main_thread,
                            added.pipeline.nodes,
                            nodes.len() as int,
                        ) {
                            Some(k) => {
                                lemma_nested_same(&added, &added.handed_out(k));
                            },
                            None => {
                                lemma_nested_pull(&added, main_thread);
                            },
                        }
                    },
                    _ => {},
                }
            }
        }
    }
}

/// The record of embedded cycles stays right when a thread asks for a job.
proof fn lemma_nested_asked(cycle: &Cycle, main_thread: bool)
    requires
        cycle.recorded(),
        cycle.nested(),
    ensures
        cycle.asked(main_thread).nested(),
{
    let after = cycle.asked(main_thread);
    if cycle.pipeline.blocked is None && first_selectable(
        cycle.plan,
        main_thread,
        cycle.pipeline.nodes,
        0,
    ) is None && cycle.pipeline.clogged is None {
        lemma_pull(cycle, main_thread);
        lemma_nested_pull(cycle, main_thread);
        lemma_nested_same(&cycle.pull(main_thread), &after);
    } else {
        lemma_nested_same(cycle, &after);
    }
}

/// The record of embedded cycles stays right when a thread has run a job.
proof fn lemma_nested_ended(cycle: &Cycle, id: int, emitted: Seq<EventValue>)
    requires
        cycle.consistent(),
        cycle.nested(),
        running(cycle.pipeline, id),
    ensures
        cycle.ended(id, emitted).nested(),
{
    let after = cycle.ended(id, emitted);
    assert(cycle.open[cycle.open.len() - 1] == cycle.open.last());
    lemma_arriving_grows(
        cycle,
        after.pipeline.lists.last().skip(cycle.pipeline.lists.last().len() as int),
    );
    assert(same_nesting(cycle.queues, after.queues));
    lemma_nested_same(cycle, &after);
}

/// The record of embedded cycles stays right when a request was carried out.
proof fn lemma_nested_resumed(cycle: &Cycle, plan: Plan, start: int, raised: Seq<EventValue>)
    requires
        cycle.consistent(),
        cycle.nested(),
        cycle.allows(Step::CarryOut { plan, start, raised }),
    ensures
        cycle.resumed(plan, start, raised).nested(),
{
    let after = cycle.resumed(plan, start, raised);
    let done = Cycle {
        plan,
        pipeline: Pipeline { clogged: None, start, ..cycle.pipeline },
        carried: cycle.carried.push(cycle.processed.len() - 1),
        ..*cycle
    };
    assert(cycle.open[cycle.open.len() - 1] == cycle.open.last());
    assert(same_nesting(cycle.queues, done.queues));
    lemma_nested_same(cycle, &done);
    assert forall|u: int| 0 <= u < done.queues.len() implies done.queue_recorded(
        #[trigger] done.queues[u],
    ) by {
        assert(cycle.queue_recorded(cycle.queues[u]));
    }
    assert(done.queues_recorded());
    match cycle.pipeline.clogged {
        Some(EventValue::Flush(buffer)) => {
            let opened = done.embedded(buffer.events@);
            lemma_nested_embedded(&done);
            lemma_queues_embedded(&done, buffer.events@);
            assert(opened.open[opened.open.len() - 1] == opened.open.last());
            lemma_arriving_grows(&opened, raised);
            assert(same_nesting(opened.queues, after.queues));
            lemma_nested_same(&opened, &after);
        },
        _ => {
            lemma_arriving_grows(&done, raised);
            assert(same_nesting(done.queues, after.queues));
            lemma_nested_same(&done, &after);
        },
    }
}

/// Whatever happens in an event cycle, the record of embedded cycles is right.
pub proof fn lemma_cycles_are_nested(
    plan: Plan,
    start: int,
    events: Seq<EventValue>,
    steps: Seq<Step>,
)
    requires
        planned(plan),
        isize::MIN <= start < isize::MAX,
        begin(plan, start, events).allows_all(steps),
    ensures
        begin(plan, start, events).after(steps).nested(),
    decreases steps.len(),
{
    let first = begin(plan, start, events);
    if steps.len() == 0 {
        assert(first.open[0] == 0);
        assert(first.open.contains(0));
        assert(first.open.take(0) =~= Seq::empty());
        assert(first.log_nested(0));
    } else {
        let before = first.after(steps.drop_last());
        lemma_cycles_are_consistent(plan, start, events, steps.drop_last());
        lemma_cycles_are_nested(plan, start, events, steps.drop_last());
        match steps.last() {
            Step::Ask { main_thread } => {
                lemma_nested_asked(&before, main_thread);
            },
            Step::Finish { id, emitted } => {
                lemma_nested_ended(&before, id, emitted);
            },
            Step::CarryOut { plan, start, raised } => {
                lemma_nested_resumed(&before, plan, start, raised);
            },
        }
    }
}

} // verus!
