//! Limits on the number of systems and of event nodes.
use crate::const_type_id::ConstTypeId;
use crate::context::fits;
use crate::context::key_at;
use crate::event_manager::lists_view;
use crate::event_map::all_responding;
use crate::event_map::responding;
use crate::event_node::completed_node;
use crate::event_node::NodeView;
use crate::event_node::SharedEvent;
use crate::events::clogs;
use crate::events::lemma_weight_first;
use crate::events::lemma_weight_push;
use crate::events::total_weight;
use crate::events::weight;
use crate::events::EventValue;
use crate::geese_context::GeeseContext;
use crate::pipeline::fan_out;
use crate::pipeline::first_selectable;
use crate::pipeline::lemma_first_selectable;
use crate::pipeline::next;
use crate::pipeline::queue;
use crate::pipeline::with_top;
use crate::pipeline::Pipeline;
use crate::pipeline::Plan;
use crate::system::NO_ID;
use crate::traits::follows;
use crate::traits::EventHandler;
use crate::traits::SystemDescriptor;
use std::collections::VecDeque;
use vstd::prelude::*;

verus! {

/// Determines whether that many systems can be loaded.
pub fn within_limits(count: usize) -> (result: bool)
    ensures
        result == fits(count as int),
        result == (count < u16::MAX && count * count <= usize::MAX / 8),
{
    if count >= NO_ID as usize {
        return false;
    }
    match count.checked_mul(count) {
        Some(flags) => flags <= usize::MAX / 8,
        None => false,
    }
}

/// The sum of the weights of the events in all queues of a stack.
pub open spec fn stack_weight(lists: Seq<Seq<EventValue>>) -> nat
    decreases lists.len(),
{
    if lists.len() == 0 {
        0
    } else {
        stack_weight(lists.drop_last()) + total_weight(lists.last())
    }
}

/// The number of event handlers that systems have.
pub open spec fn handler_count(systems: Seq<SystemDescriptor>) -> nat
    decreases systems.len(),
{
    if systems.len() == 0 {
        0
    } else {
        handler_count(systems.drop_last()) + systems.last().event_handlers@.len()
    }
}

/// How many nodes can be in progress at most, before new events are raised.
pub open spec fn node_bound(systems: Seq<SystemDescriptor>, pipeline: Pipeline) -> nat {
    pipeline.nodes.len() + stack_weight(pipeline.lists) * (handler_count(systems) + 1)
}

/// Replacing the top queue of a stack changes the sum by what the queue changes.
proof fn lemma_stack_weight(lists: Seq<Seq<EventValue>>, top: Seq<EventValue>)
    requires
        lists.len() > 0,
    ensures
        stack_weight(with_top(lists, top)) + total_weight(lists.last()) == stack_weight(lists)
            + total_weight(top),
{
    assert(with_top(lists, top).drop_last() =~= lists.drop_last());
}

/// No more handlers respond to an event than there are.
proof fn lemma_responding_bound(systems: Seq<SystemDescriptor>, event: ConstTypeId)
    ensures
        all_responding(systems, event).len() <= handler_count(systems),
    decreases systems.len(),
{
    if systems.len() > 0 {
        lemma_responding_bound(systems.drop_last(), event);
        lemma_responding_one(
            systems.last().event_handlers@,
            (systems.len() - 1) as u16,
            event,
        );
    }
}

/// No more handlers of a system respond to an event than it has.
proof fn lemma_responding_one(handlers: Seq<EventHandler>, system_id: u16, event: ConstTypeId)
    ensures
        responding(handlers, system_id, event).len() <= handlers.len(),
    decreases handlers.len(),
{
    if handlers.len() > 0 {
        lemma_responding_one(handlers.drop_last(), system_id, event);
    }
}

/// A step that takes weight away and adds no more nodes than it may leaves the bound as it is.
proof fn lemma_bound_step(nodes: nat, weight: nat, per: nat, new_nodes: nat, new_weight: nat)
    requires
        new_weight < weight,
        new_nodes <= nodes + per,
        per >= 1,
    ensures
        new_nodes + new_weight * per <= nodes + weight * per,
{
    assert(new_weight * per + per <= weight * per) by (nonlinear_arith)
        requires
            new_weight + 1 <= weight,
            per >= 1,
    ;
}

/// Moving events into the pipeline makes no more nodes than the bound says.
proof fn lemma_queue_bound(
    plan: Plan,
    main_thread: bool,
    lists: Seq<Seq<EventValue>>,
    nodes: Seq<NodeView>,
    start: int,
)
    ensures
        queue(plan, main_thread, lists, nodes, start).nodes.len() <= nodes.len() + stack_weight(
            lists,
        ) * (handler_count(plan.systems) + 1),
    decreases lists.len(), total_weight(lists.last()),
{
    let per = handler_count(plan.systems) + 1;
    let weighed = stack_weight(lists);
    assert(0 <= weighed * per) by (nonlinear_arith)
        requires
            0 <= weighed,
            0 <= per,
    ;
    if lists.len() > 0 {
        if lists.last().len() == 0 {
            if nodes.len() == 0 {
                lemma_queue_bound(plan, main_thread, lists.drop_last(), nodes, start);
            }
        } else {
            let event = lists.last()[0];
            let rest = lists.last().drop_first();
            lemma_weight_first(lists.last());
            if !clogs(event) {
                match event {
                    EventValue::Delayed(inner) => {
                        if nodes.len() == 0 {
                            let later = with_top(lists, rest.push(*inner));
                            lemma_weight_push(rest, *inner);
                            lemma_stack_weight(lists, rest.push(*inner));
                            lemma_queue_bound(plan, main_thread, later, nodes, start);
                            lemma_bound_step(
                                nodes.len(),
                                weighed,
                                per,
                                nodes.len(),
                                stack_weight(later),
                            );
                        } else {
                            let later = with_top(lists, rest);
                            let longer = nodes.push(completed_node(event));
                            lemma_stack_weight(lists, rest);
                            lemma_queue_bound(plan, main_thread, later, longer, start);
                            lemma_bound_step(
                                nodes.len(),
                                weighed,
                                per,
                                longer.len(),
                                stack_weight(later),
                            );
                        }
                    },
                    EventValue::Typed { event_type, payload } => {
                        let later = with_top(lists, rest);
                        let added = nodes + fan_out(
                            SharedEvent {
                                batch: (start + nodes.len()) as isize,
                                event_type,
                                payload,
                            },
                            all_responding(plan.systems, event_type),
                        );
                        lemma_responding_bound(plan.systems, event_type);
                        lemma_stack_weight(lists, rest);
                        lemma_first_selectable(plan, main_thread, added, nodes.len() as int);
                        lemma_bound_step(
                            nodes.len(),
                            weighed,
                            per,
                            added.len(),
                            stack_weight(later),
                        );
                        let left = stack_weight(later);
                        assert(0 <= left * per) by (nonlinear_arith)
                            requires
                                0 <= left,
                                0 <= per,
                        ;
                        if first_selectable(
                            plan,
                            main_thread,
                            added,
                            nodes.len() as int,
                        ) is None {
                            lemma_queue_bound(plan, main_thread, later, added, start);
                        }
                    },
                    _ => {},
                }
            }
        }
    }
}

/// Asking for a job makes no more nodes than the bound says.
pub proof fn lemma_next_bound(plan: Plan, main_thread: bool, pipeline: Pipeline)
    requires
        pipeline.wf(plan),
    ensures
        next(plan, main_thread, pipeline).0.nodes.len() <= node_bound(plan.systems, pipeline),
{
    let per = handler_count(plan.systems) + 1;
    let weighed = stack_weight(pipeline.lists);
    assert(0 <= weighed * per) by (nonlinear_arith)
        requires
            0 <= weighed,
            0 <= per,
    ;
    lemma_first_selectable(plan, main_thread, pipeline.nodes, 0);
    lemma_queue_bound(plan, main_thread, pipeline.lists, pipeline.nodes, pipeline.start);
}

/// Adds two numbers, each of which is missing if it is too large.
fn checked_sum(a: Option<u128>, b: Option<u128>, Ghost(x): Ghost<nat>, Ghost(y): Ghost<nat>) -> (sum:
    Option<u128>)
    requires
        is_counted(a, x),
        is_counted(b, y),
    ensures
        is_counted(sum, x + y),
{
    match (a, b) {
        (Some(a), Some(b)) => a.checked_add(b),
        _ => None,
    }
}

/// Whether a machine integer is a number, or is missing because the number is too large.
spec fn is_counted(value: Option<u128>, number: nat) -> bool {
    match value {
        Some(value) => value == number,
        None => number > u128::MAX,
    }
}

/// Determines the weight of an event.
fn weigh(event: &EventValue) -> (result: Option<u128>)
    ensures
        is_counted(result, weight(*event)),
    decreases event,
{
    match event {
        EventValue::Delayed(inner) => {
            let inner_weight: Option<u128> = weigh(inner);
            checked_sum(Some(1), inner_weight, Ghost(1), Ghost(weight(**inner)))
        },
        _ => Some(1),
    }
}

/// Determines the sum of the weights of the events in a queue.
fn weigh_queue(queue: &VecDeque<EventValue>) -> (result: Option<u128>)
    ensures
        is_counted(result, total_weight(queue@)),
{
    let mut result: Option<u128> = Some(0);
    let mut i: usize = 0;
    assert(queue@.take(0) =~= Seq::empty());
    while i < queue.len()
        invariant
            i <= queue@.len(),
            is_counted(result, total_weight(queue@.take(i as int))),
        decreases queue@.len() - i,
    {
        let ghost before = queue@.take(i as int);
        let own: Option<u128> = weigh(&queue[i]);
        proof {
            assert(queue@.take(i + 1) =~= before.push(queue@[i as int]));
            lemma_weight_push(before, queue@[i as int]);
        }
        result =
        checked_sum(result, own, Ghost(total_weight(before)), Ghost(weight(queue@[i as int])));
        i = i + 1;
    }
    assert(queue@.take(i as int) =~= queue@);
    result
}

impl<V> GeeseContext<V> {
    /// Determines whether there are indices for all nodes that could come about before new events
    /// are raised.
    pub fn has_room(&self) -> (result: bool)
        requires
            self.wf(),
        ensures
            result == (self.manager.start() + node_bound(
                self.inner.descriptors(),
                self.manager.pipeline(),
            ) < isize::MAX),
            result ==> self.roomy(true) && self.roomy(false),
    {
        let ghost lists = self.manager.lists();
        let ghost systems = self.inner.descriptors();
        proof {
            lemma_next_bound(self.inner.plan(), true, self.manager.pipeline());
            lemma_next_bound(self.inner.plan(), false, self.manager.pipeline());
        }
        let queues = self.manager.event_lists.as_slice();
        let mut weighed: Option<u128> = Some(0);
        let mut i: usize = 0;
        assert(lists.take(0) =~= Seq::empty());
        while i < queues.len()
            invariant
                lists == lists_view(queues@),
                i <= queues@.len(),
                is_counted(weighed, stack_weight(lists.take(i as int))),
            decreases queues@.len() - i,
        {
            let own: Option<u128> = weigh_queue(&queues[i]);
            proof {
                assert(lists.take(i + 1).drop_last() =~= lists.take(i as int));
                assert(lists.take(i + 1).last() == lists[i as int]);
            }
            weighed =
            checked_sum(
                weighed,
                own,
                Ghost(stack_weight(lists.take(i as int))),
                Ghost(total_weight(lists[i as int])),
            );
            i = i + 1;
        }
        assert(lists.take(i as int) =~= lists);
        let mut handlers: Option<u128> = Some(0);
        let mut s: usize = 0;
        assert(systems.take(0) =~= Seq::empty());
        while s < self.inner.systems.len()
            invariant
                self.wf(),
                systems == self.inner.descriptors(),
                s <= systems.len(),
                is_counted(handlers, handler_count(systems.take(s as int))),
            decreases systems.len() - s,
        {
            proof {
                let key = key_at(self.inner.systems@, s as int);
                assert(self.inner.system_initializers@.dom().contains(key));
                assert(follows(
                    self.inner.catalog@.take(key as int),
                    self.inner.catalog@[key as int],
                ));
                assert(systems.take(s + 1).drop_last() =~= systems.take(s as int));
                assert(systems.take(s + 1).last() == systems[s as int]);
            }
            let descriptor = self.inner.catalog.descriptor(self.inner.systems[s].system_id);
            let own: usize = descriptor.event_handlers().as_inner().len();
            handlers =
            checked_sum(
                handlers,
                Some(own as u128),
                Ghost(handler_count(systems.take(s as int))),
                Ghost(systems[s as int].event_handlers@.len()),
            );
            s = s + 1;
        }
        assert(systems.take(s as int) =~= systems);
        let ghost total = stack_weight(lists);
        let ghost per = handler_count(systems) + 1;
        let each: Option<u128> = checked_sum(
            handlers,
            Some(1),
            Ghost(handler_count(systems)),
            Ghost(1),
        );
        let product: Option<u128> = match (weighed, each) {
            (Some(a), Some(b)) => a.checked_mul(b),
            (Some(0), None) => Some(0),
            _ => None,
        };
        proof {
            lemma_product_counted(weighed, each, total, per, product);
        }
        let nodes: usize = self.manager.in_progress.len();
        let all: Option<u128> = checked_sum(
            product,
            Some(nodes as u128),
            Ghost(total * per),
            Ghost(self.manager.nodes().len()),
        );
        let start: isize = self.manager.in_progress.counter();
        match all {
            Some(all) => {
                if all > u64::MAX as u128 {
                    false
                } else {
                    (start as i128) + (all as i128) < isize::MAX as i128
                }
            },
            None => false,
        }
    }
}

/// The product of two numbers that were counted, where the second is not zero.
proof fn lemma_product_counted(
    a: Option<u128>,
    b: Option<u128>,
    x: nat,
    y: nat,
    product: Option<u128>,
)
    requires
        is_counted(a, x),
        is_counted(b, y),
        y >= 1,
        match (a, b) {
            (Some(a), Some(b)) => match product {
                Some(p) => p == a * b,
                None => a * b > u128::MAX,
            },
            (Some(0), None) => product == Some(0u128),
            _ => product is None,
        },
    ensures
        is_counted(product, x * y),
{
    if a is None {
        assert(x * y >= x) by (nonlinear_arith)
            requires
                y >= 1,
        ;
    } else if b is None {
        if x == 0 {
            assert(x * y == 0) by (nonlinear_arith)
                requires
                    x == 0,
            ;
        } else {
            assert(x * y >= y) by (nonlinear_arith)
                requires
                    x >= 1,
            ;
        }
    }
}

/// The bound on the number of nodes counts each node that is there, and for each event in a queue that
/// is not delayed all handlers and one more.
pub proof fn law_bound_counts_nodes_and_events(
    systems: Seq<SystemDescriptor>,
    pipeline: Pipeline,
    event: EventValue,
)
    requires
        pipeline.lists.len() > 0,
        !(event is Delayed),
    ensures
        node_bound(systems, Pipeline { lists: Seq::empty(), ..pipeline }) == pipeline.nodes.len(),
        ({
            let more = Pipeline {
                lists: with_top(pipeline.lists, pipeline.lists.last().push(event)),
                ..pipeline
            };
            node_bound(systems, more) == node_bound(systems, pipeline) + handler_count(systems) + 1
        }),
{
    let lists = pipeline.lists;
    let longer = with_top(lists, lists.last().push(event));
    let per = handler_count(systems) + 1;
    assert(longer.drop_last() =~= lists.drop_last());
    lemma_weight_push(lists.last(), event);
    let weight = stack_weight(lists);
    assert(stack_weight(longer) == weight + 1);
    assert((weight + 1) * per == weight * per + per) by (nonlinear_arith);
    assert(0 * per == 0);
}

} // verus!
