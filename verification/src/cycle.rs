//! Whole event cycles: a record of what happens to each event and to each handler, from the moment
//! at which a cycle begins.
//!
//! A cycle begins with the events that `GeeseContext::flush_buffer` puts into the queue. Its steps
//! are those that a context takes: `flush_step` and `process_step` ask for a job, `finish_job` ends
//! one, and `run_clogged_event` and what follows it, up to `resume`, carry a request out. The state
//! of event processing is the same on both sides: that which `next` and `complete` lead to, and after
//! a request that in which nothing is in progress and the raised events are queued.
use crate::event_map::all_responding;
use crate::event_map::EventHandlerEntry;
use crate::event_node::completed_node;
use crate::event_node::NodeView;
use crate::event_node::SharedEvent;
use crate::events::clogs;
use crate::events::lemma_weight_first;
use crate::events::lemma_weight_push;
use crate::events::total_weight;
use crate::events::EventValue;
use crate::pipeline::complete;
use crate::pipeline::fan_out;
use crate::pipeline::first_selectable;
use crate::pipeline::next;
use crate::pipeline::running;
use crate::pipeline::taken;
use crate::pipeline::with_top;
use crate::pipeline::Pipeline;
use crate::pipeline::Plan;
use vstd::multiset::Multiset;
use vstd::prelude::*;

verus! {

/// An event whose turn has come.
pub struct Processed {
    /// The event.
    pub event: EventValue,
    /// The systems that were loaded at its turn.
    pub plan: Plan,
    /// The number of requests that had been carried out by then.
    pub epoch: int,
    /// The place of the first turn that its handlers get.
    pub first: int,
}

/// The turn of a handler, or a place that is kept for a delayed event.
pub struct Turn {
    /// The number of the event to handle, if any.
    pub origin: Option<int>,
    /// The handler.
    pub handler: EventHandlerEntry,
}

/// What has happened to one queue.
pub struct QueueLog {
    /// The events that came into the queue, in order, except while they were delayed.
    pub arrived: Seq<EventValue>,
    /// The numbers that those of them got whose turn has come, in order.
    pub taken: Seq<int>,
    /// The queues that were on the stack when this one was put there, from the bottom to the top.
    pub beneath: Seq<int>,
    /// The number of the request that put the queue on the stack, if any.
    pub request: Option<int>,
}

/// An event cycle, with a record of what has happened in it.
pub struct Cycle {
    /// The systems that are loaded.
    pub plan: Plan,
    /// The state of event processing.
    pub pipeline: Pipeline,
    /// All events that the cycle began with, that were raised in it, or that were held by an
    /// embedded cycle.
    pub entered: Seq<EventValue>,
    /// What has happened to each queue.
    pub queues: Seq<QueueLog>,
    /// Which queues are on the stack.
    pub open: Seq<int>,
    /// The events whose turn has come, in order.
    pub processed: Seq<Processed>,
    /// The turns of handlers, in order.
    pub turns: Seq<Turn>,
    /// The turns whose handlers were given to threads, in order.
    pub given: Seq<int>,
    /// The turns whose handlers have run to completion.
    pub finished: Set<int>,
    /// The events that were raised while each of these handlers ran, in order.
    pub raised: Map<int, Seq<EventValue>>,
    /// The numbers of the requests that were carried out, in order.
    pub carried: Seq<int>,
}

/// What may happen in a cycle.
pub enum Step {
    /// A thread asks for a job, or for what is to be done if there is none.
    Ask {
        /// Whether the thread is the main one.
        main_thread: bool,
    },
    /// A thread has run a job.
    Finish {
        /// The index of the job's node.
        id: int,
        /// The events that were raised meanwhile.
        emitted: Seq<EventValue>,
    },
    /// The request that has stalled the pipeline was carried out.
    CarryOut {
        /// The systems that are loaded from then on.
        plan: Plan,
        /// The index of the next node.
        start: int,
        /// The events that were raised meanwhile.
        raised: Seq<EventValue>,
    },
}

/// An event without the delays around it.
pub open spec fn bare(event: EventValue) -> EventValue
    decreases event,
{
    match event {
        EventValue::Delayed(inner) => bare(*inner),
        _ => event,
    }
}

/// How often each event occurs, whether delayed or not.
pub open spec fn bag(events: Seq<EventValue>) -> Multiset<EventValue>
    decreases events.len(),
{
    if events.len() == 0 {
        Multiset::empty()
    } else {
        bag(events.drop_last()).insert(bare(events.last()))
    }
}

/// How often each event occurs in the queues of a stack.
pub open spec fn stack_bag(lists: Seq<Seq<EventValue>>) -> Multiset<EventValue>
    decreases lists.len(),
{
    if lists.len() == 0 {
        Multiset::empty()
    } else {
        stack_bag(lists.drop_last()).add(bag(lists.last()))
    }
}

/// How often each event occurs among those that nodes keep until they come to the front.
pub open spec fn node_bag(nodes: Seq<NodeView>) -> Multiset<EventValue>
    decreases nodes.len(),
{
    if nodes.len() == 0 {
        Multiset::empty()
    } else {
        node_bag(nodes.drop_last()).add(bag(nodes.last().emitted))
    }
}

/// The events of a sequence that are not delayed, in order.
pub open spec fn undelayed(events: Seq<EventValue>) -> Seq<EventValue>
    decreases events.len(),
{
    if events.len() == 0 {
        Seq::empty()
    } else {
        let rest = undelayed(events.drop_last());
        if events.last() is Delayed {
            rest
        } else {
            rest.push(events.last())
        }
    }
}

/// The handlers that get a turn for an event.
pub open spec fn handlers_for(processed: Processed) -> Seq<EventHandlerEntry> {
    match processed.event {
        EventValue::Typed { event_type, payload } => all_responding(
            processed.plan.systems,
            event_type,
        ),
        _ => Seq::empty(),
    }
}

impl Cycle {
    /// The first turn that is still in the pipeline.
    pub open spec fn base(&self) -> int {
        self.turns.len() - self.pipeline.nodes.len()
    }

    /// The queue at the top of the stack, as events come into it.
    pub open spec fn arriving(&self, events: Seq<EventValue>) -> Seq<QueueLog> {
        let log = self.queues[self.open.last()];
        self.queues.update(
            self.open.last(),
            QueueLog { arrived: log.arrived + undelayed(events), ..log },
        )
    }

    /// The queue at the top of the stack, as an event is taken from it that gets the next number.
    pub open spec fn taking(&self) -> Seq<QueueLog> {
        let log = self.queues[self.open.last()];
        self.queues.update(
            self.open.last(),
            QueueLog { taken: log.taken.push(self.processed.len() as int), ..log },
        )
    }

    /// The cycle after the queue at the top of the stack has run empty and was left.
    pub open spec fn left(&self) -> Cycle {
        Cycle {
            pipeline: Pipeline { lists: self.pipeline.lists.drop_last(), ..self.pipeline },
            open: self.open.drop_last(),
            ..*self
        }
    }

    /// The cycle after a delayed event was put behind the others in its queue.
    pub open spec fn put_off(&self, inner: EventValue) -> Cycle {
        let lists = self.pipeline.lists;
        Cycle {
            pipeline: Pipeline {
                lists: with_top(lists, lists.last().drop_first().push(inner)),
                ..self.pipeline
            },
            queues: self.arriving(seq![inner]),
            ..*self
        }
    }

    /// The cycle after a place was kept for a delayed event.
    pub open spec fn set_aside(&self) -> Cycle {
        let lists = self.pipeline.lists;
        let node = completed_node(lists.last()[0]);
        Cycle {
            pipeline: Pipeline {
                lists: with_top(lists, lists.last().drop_first()),
                nodes: self.pipeline.nodes.push(node),
                ..self.pipeline
            },
            turns: self.turns.push(Turn { origin: None, handler: node.handler }),
            ..*self
        }
    }

    /// The event at the front of the top queue, with the number that it gets.
    pub open spec fn next_processed(&self) -> Processed {
        Processed {
            event: self.pipeline.lists.last()[0],
            plan: self.plan,
            epoch: self.carried.len() as int,
            first: self.turns.len() as int,
        }
    }

    /// The cycle after an event has come to its turn.
    pub open spec fn dispatched(&self) -> Cycle {
        let lists = self.pipeline.lists;
        let event = lists.last()[0];
        let number = self.processed.len() as int;
        let handlers = handlers_for(self.next_processed());
        let shared = SharedEvent {
            batch: (self.pipeline.start + self.pipeline.nodes.len()) as isize,
            event_type: event->event_type,
            payload: event->payload,
        };
        Cycle {
            pipeline: Pipeline {
                lists: with_top(lists, lists.last().drop_first()),
                nodes: self.pipeline.nodes + fan_out(shared, handlers),
                ..self.pipeline
            },
            queues: self.taking(),
            processed: self.processed.push(self.next_processed()),
            turns: self.turns + Seq::new(
                handlers.len(),
                |k: int| Turn { origin: Some(number), handler: handlers[k] },
            ),
            ..*self
        }
    }

    /// The cycle after a request has stalled the pipeline.
    pub open spec fn stalled(&self) -> Cycle {
        let lists = self.pipeline.lists;
        Cycle {
            pipeline: Pipeline {
                lists: with_top(lists, lists.last().drop_first()),
                clogged: Some(lists.last()[0]),
                ..self.pipeline
            },
            queues: self.taking(),
            processed: self.processed.push(self.next_processed()),
            ..*self
        }
    }

    /// The cycle after the handler of a node was given to a thread.
    pub open spec fn handed_out(&self, k: int) -> Cycle {
        Cycle {
            pipeline: Pipeline { nodes: taken(self.pipeline.nodes, k), ..self.pipeline },
            given: self.given.push(self.base() + k),
            ..*self
        }
    }

    /// The cycle after events were moved from the top queue into the pipeline.
    pub open spec fn pull(&self, main_thread: bool) -> Cycle
        decreases self.pipeline.lists.len(), total_weight(self.pipeline.lists.last()),
    {
        let lists = self.pipeline.lists;
        let nodes = self.pipeline.nodes;
        if lists.len() == 0 {
            *self
        } else if lists.last().len() == 0 {
            if nodes.len() == 0 {
                self.left().pull(main_thread)
            } else {
                *self
            }
        } else {
            proof {
                lemma_weight_first(lists.last());
            }
            if clogs(lists.last()[0]) {
                self.stalled()
            } else {
                match lists.last()[0] {
                    EventValue::Delayed(inner) => {
                        if nodes.len() == 0 {
                            proof {
                                lemma_weight_push(lists.last().drop_first(), *inner);
                            }
                            self.put_off(*inner).pull(main_thread)
                        } else {
                            self.set_aside().pull(main_thread)
                        }
                    },
                    EventValue::Typed { event_type, payload } => {
                        let added = self.dispatched();
                        match first_selectable(
                            self.plan,
                            main_thread,
                            added.pipeline.nodes,
                            nodes.len() as int,
                        ) {
                            Some(k) => added.handed_out(k),
                            None => added.pull(main_thread),
                        }
                    },
                    _ => *self,
                }
            }
        }
    }

    /// The cycle after a thread has asked for a job. The state of event processing is that which
    /// asking for a job leads to.
    pub open spec fn asked(&self, main_thread: bool) -> Cycle {
        let (pipeline, result) = next(self.plan, main_thread, self.pipeline);
        let moved = match self.pipeline.blocked {
            Some(id) => if main_thread {
                self.handed_out(id - self.pipeline.start)
            } else {
                *self
            },
            None => match first_selectable(self.plan, main_thread, self.pipeline.nodes, 0) {
                Some(k) => self.handed_out(k),
                None => if self.pipeline.clogged is None {
                    self.pull(main_thread)
                } else {
                    *self
                },
            },
        };
        Cycle { pipeline, ..moved }
    }

    /// The cycle after a thread has run a job. What was emitted for the event at the front comes
    /// into the queue at once, and what nodes kept comes into it as they leave the pipeline.
    pub open spec fn ended(&self, id: int, emitted: Seq<EventValue>) -> Cycle {
        let pipeline = complete(self.pipeline, id, emitted);
        let before = self.pipeline.lists.last();
        let now = pipeline.lists.last();
        Cycle {
            pipeline,
            entered: self.entered + emitted,
            queues: self.arriving(now.skip(before.len() as int)),
            finished: self.finished.insert(self.base() + id - self.pipeline.start),
            raised: self.raised.insert(self.base() + id - self.pipeline.start, emitted),
            ..*self
        }
    }

    /// The cycle after the events of an embedded cycle were put on the stack.
    pub open spec fn embedded(&self, events: Seq<EventValue>) -> Cycle {
        Cycle {
            pipeline: Pipeline { lists: self.pipeline.lists.push(events), ..self.pipeline },
            entered: self.entered + events,
            queues: self.queues.push(
                QueueLog {
                    arrived: undelayed(events),
                    taken: Seq::empty(),
                    beneath: self.open,
                    request: Some(self.processed.len() - 1),
                },
            ),
            open: self.open.push(self.queues.len() as int),
            ..*self
        }
    }

    /// The cycle after events that were raised came into the top queue.
    pub open spec fn gathered(&self, raised: Seq<EventValue>) -> Cycle {
        let lists = self.pipeline.lists;
        Cycle {
            pipeline: Pipeline { lists: with_top(lists, lists.last() + raised), ..self.pipeline },
            entered: self.entered + raised,
            queues: self.arriving(raised),
            ..*self
        }
    }

    /// The cycle after a request was carried out.
    pub open spec fn resumed(&self, plan: Plan, start: int, raised: Seq<EventValue>) -> Cycle {
        let done = Cycle {
            plan,
            pipeline: Pipeline { clogged: None, start, ..self.pipeline },
            carried: self.carried.push(self.processed.len() - 1),
            ..*self
        };
        let opened = match self.pipeline.clogged {
            Some(EventValue::Flush(buffer)) => done.embedded(buffer.events@),
            _ => done,
        };
        opened.gathered(raised)
    }

    /// The cycle after a step.
    pub open spec fn advance(&self, step: Step) -> Cycle {
        match step {
            Step::Ask { main_thread } => self.asked(main_thread),
            Step::Finish { id, emitted } => self.ended(id, emitted),
            Step::CarryOut { plan, start, raised } => self.resumed(plan, start, raised),
        }
    }

    /// Whether a step may happen: there are indices for all nodes; only what runs can finish; and
    /// only where nothing is in progress, a request can be carried out.
    pub open spec fn allows(&self, step: Step) -> bool {
        match step {
            Step::Ask { main_thread } => self.pipeline.start + next(
                self.plan,
                main_thread,
                self.pipeline,
            ).0.nodes.len() < isize::MAX,
            Step::Finish { id, emitted } => running(self.pipeline, id),
            Step::CarryOut { plan, start, raised } => {
                &&& self.pipeline.clogged is Some
                &&& self.pipeline.nodes.len() == 0
                &&& self.pipeline.lists.len() > 0
                &&& planned(plan)
                &&& isize::MIN <= start < isize::MAX
            },
        }
    }

    /// The cycle after a series of steps.
    pub open spec fn after(&self, steps: Seq<Step>) -> Cycle
        decreases steps.len(),
    {
        if steps.len() == 0 {
            *self
        } else {
            self.after(steps.drop_last()).advance(steps.last())
        }
    }

    /// Whether a series of steps may happen.
    pub open spec fn allows_all(&self, steps: Seq<Step>) -> bool
        decreases steps.len(),
    {
        steps.len() > 0 ==> self.allows_all(steps.drop_last()) && self.after(
            steps.drop_last(),
        ).allows(steps.last())
    }
}

/// Whether what is known of the loaded systems makes sense.
pub open spec fn planned(plan: Plan) -> bool {
    plan.systems.len() == plan.graph.len() && plan.systems.len() <= u16::MAX
}

/// A cycle that begins with the given events.
pub open spec fn begin(plan: Plan, start: int, events: Seq<EventValue>) -> Cycle {
    Cycle {
        plan,
        pipeline: Pipeline {
            lists: seq![events],
            nodes: Seq::empty(),
            start,
            blocked: None,
            clogged: None,
        },
        entered: events,
        queues: seq![
            QueueLog {
                arrived: undelayed(events),
                taken: Seq::empty(),
                beneath: Seq::empty(),
                request: None,
            },
        ],
        open: seq![0],
        processed: Seq::empty(),
        turns: Seq::empty(),
        given: Seq::empty(),
        finished: Set::empty(),
        raised: Map::empty(),
        carried: Seq::empty(),
    }
}

} // verus!
