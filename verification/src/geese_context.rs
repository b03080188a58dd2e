//! Contexts: collections of systems that can create and respond to events.
use crate::access::GeeseContextHandle;
use crate::access::SystemRef;
use crate::access::SystemRefMut;
use crate::bits::ones_before;
use crate::bits::Bits;
use crate::capacity::within_limits;
use crate::const_type_id::ConstTypeId;
use crate::context::ascending_exactly;
use crate::context::handle_wf;
use crate::context::key_at;
use crate::context::ContextInner;
use crate::event_laws::law_completion_leaves_nothing;
use crate::event_laws::law_handlers_are_given_out_once;
use crate::event_laws::law_workers_run_shareable_systems;
use crate::event_manager::job_for;
use crate::event_manager::EventJob;
use crate::event_manager::EventManager;
use crate::event_manager::EventManagerState;
use crate::event_map::all_responding;
use crate::events::clogs;
use crate::events::single;
use crate::events::EventBuffer;
use crate::events::EventQueue;
use crate::events::EventValue;
use crate::graph::reaches;
use crate::maps::map_get;
use crate::pipeline::complete;
use crate::pipeline::first_selectable;
use crate::pipeline::lemma_queue_wf;
use crate::pipeline::next;
use crate::pipeline::running;
use crate::pipeline::with_top;
use crate::pipeline::EventJobError;
use crate::pipeline::Pipeline;
use crate::pipeline::Plan;
use crate::receiver::sent_by;
use crate::receiver::sent_by_others;
use crate::receiver::values_of;
use crate::receiver::Event;
use crate::removal::descending_exactly;
use crate::reset::lemma_values_irrelevant;
use crate::reset::Reset;
use crate::rw_cell::borrow_conflict;
use crate::rw_cell::borrow_mut_conflict;
use crate::rw_cell::BORROWED_MUTABLY;
use crate::small::EventValues;
use crate::small::IdList;
use crate::system::SystemInitializer;
use crate::traits::follows;
use crate::traits::SystemDescriptor;
use vstd::prelude::*;

verus! {

/// Represents a collection of systems that can create and respond to events.
pub struct GeeseContext<V> {
    /// The systems of the context.
    pub inner: ContextInner<V>,
    /// The manager that schedules and runs event cycles.
    pub manager: EventManager,
    /// Whether jobs may be taken from the manager.
    pub active: bool,
}

/// Tells the thread that flushes a context what to do next.
pub enum FlushStep {
    /// Run the job, then report that it is finished. Other threads may look for work.
    Run(EventJob),
    /// Wait until another thread has finished a job. There is no work for other threads.
    Wait,
    /// Carry the request out, then resume.
    Clogged(EventValue),
    /// All events have been processed.
    Finished,
}

/// Tells a thread that helps with flushing a context what to do next.
pub enum WorkerStep {
    /// Run the job, then report that it is finished, and wake the flushing thread up.
    Run(EventJob),
    /// Stop looking for work. There is none for other threads, either. The flushing thread must be
    /// woken up if so stated.
    Stop {
        /// Whether the flushing thread must be woken up.
        notify: bool,
    },
    /// There is no event cycle to help with. Nothing is to be done, neither for this thread nor for
    /// others.
    Inactive,
}

/// The systems that a removal takes out of a context.
pub struct Removal {
    /// The systems that stay.
    pub connected: Bits,
    /// The IDs of the systems to drop, in the order in which they must be dropped.
    pub dropped: IdList,
}

/// Tells what is left to do for a request to the context.
pub enum CloggedAction {
    /// Initialize the systems with the given IDs, in order.
    Initialize(IdList),
    /// Drop the given systems in order, then complete the removal.
    Drop(Removal),
    /// Drop and create the given systems anew, in order.
    Reload(Reset),
    /// Nothing.
    Nothing,
}

/// Provides a reason that a request to the context cannot be carried out.
#[derive(Copy, Clone, Debug, PartialEq, Eq, Structural)]
pub enum RequestError {
    /// The system is not known to the context.
    Unknown,
    /// A system had duplicate dependencies.
    DuplicateDependencies,
    /// The system was already present.
    AlreadyPresent,
    /// The maximum number of supported systems is exceeded.
    TooManySystems,
    /// The system was not loaded.
    NotLoaded,
    /// The system was not previously added.
    NotAdded,
}

impl<V> GeeseContext<V> {
    /// Whether the context is as it should be while no request is being carried out.
    pub open spec fn wf(&self) -> bool {
        &&& self.inner.wf()
        &&& self.manager.wf(&self.inner)
        &&& self.manager.clogged_event matches Some(event) ==> clogs(event)
    }

    /// Whether no event is in progress and no request is due.
    pub open spec fn idle(&self) -> bool {
        &&& self.manager.nodes().len() == 0
        &&& self.manager.clogged_event is None
    }

    /// Whether there are indices for all nodes that come about when a job is asked for.
    pub open spec fn roomy(&self, main_thread: bool) -> bool {
        self.manager.start() + next(
            self.inner.plan(),
            main_thread,
            self.manager.pipeline(),
        ).0.nodes.len() < isize::MAX
    }

    /// Whether a request can be carried out.
    pub open spec fn accepts(&self, event: EventValue) -> bool {
        match event {
            EventValue::AddSystem(system) => self.inner.addable(system),
            EventValue::RemoveSystem(system) => self.inner.loaded(system.key)
                && self.inner.system_initializers@[system.key].top_level,
            EventValue::ResetSystem(system) => self.inner.loaded(system.key),
            _ => true,
        }
    }

    /// Creates a new context without systems, on the given thread.
    pub fn new(owning_thread: u64) -> (ctx: Self)
        ensures
            ctx.wf(),
            !ctx.active,
            ctx.inner.catalog@ == Seq::<SystemDescriptor>::empty(),
            ctx.inner.owning_thread == owning_thread,
            ctx.inner.count() == 0,
            ctx.inner.system_initializers@.dom() == Set::<usize>::empty(),
            ctx.manager.lists().len() == 0,
            ctx.manager.nodes().len() == 0,
            ctx.manager.clogged_event is None,
            ctx.manager.receiver.pending() == Seq::<Event>::empty(),
    {
        let ctx = GeeseContext {
            inner: ContextInner::new(owning_thread),
            manager: EventManager::new(),
            active: false,
        };
        ctx
    }

    /// Makes a system type known to the context. Its key must be the next one, and the types that
    /// it depends on must be known.
    pub fn register(&mut self, descriptor: SystemDescriptor)
        requires
            old(self).wf(),
            follows(old(self).inner.catalog@, descriptor),
        ensures
            final(self).wf(),
            final(self).inner.catalog@ == old(self).inner.catalog@.push(descriptor),
            final(self).inner == (ContextInner {
                catalog: final(self).inner.catalog,
                ..old(self).inner
            }),
            final(self).inner.plan() == old(self).inner.plan(),
            final(self).manager == old(self).manager,
            final(self).active == old(self).active,
    {
        let ghost before = *self;
        self.inner.catalog.register(descriptor);
        proof {
            lemma_registered(&before.inner, &self.inner, descriptor);
        }
    }

    /// Raises the specified event, on the given thread.
    pub fn raise_event(&mut self, event: EventValue, thread: u64)
        ensures
            final(self).inner == old(self).inner,
            final(self).active == old(self).active,
            final(self).manager.pipeline() == old(self).manager.pipeline(),
            final(self).manager.receiver.pending() == old(self).manager.receiver.pending().push(
                (Event { value: event, sender: thread }),
            ),
            old(self).wf() ==> final(self).wf(),
    {
        self.manager.receiver.send(Event::new(event, thread));
    }

    /// Raises a series of events, on the given thread.
    fn raise_all(&mut self, events: Vec<EventValue>, thread: u64)
        ensures
            final(self).inner == old(self).inner,
            final(self).active == old(self).active,
            final(self).manager.pipeline() == old(self).manager.pipeline(),
            values_of(final(self).manager.receiver.pending()) == values_of(
                old(self).manager.receiver.pending(),
            ) + events@,
            old(self).wf() ==> final(self).wf(),
    {
        let ghost pending = self.manager.receiver.pending();
        assert(values_of(pending) + events@.take(0) =~= values_of(pending));
        for event in iter: events
            invariant
                iter.seq() == events@,
                pending == old(self).manager.receiver.pending(),
                self.inner == old(self).inner,
                self.active == old(self).active,
                self.manager.pipeline() == old(self).manager.pipeline(),
                old(self).wf() ==> self.wf(),
                values_of(self.manager.receiver.pending()) == values_of(pending) + events@.take(
                    iter.index() as int,
                ),
        {
            let ghost before = self.manager.receiver.pending();
            self.raise_event(event, thread);
            proof {
                assert(values_of(self.manager.receiver.pending()) =~= values_of(before).push(
                    event,
                ));
                assert(events@.take(iter.index() + 1) =~= events@.take(iter.index() as int).push(
                    event,
                ));
                assert(values_of(pending) + events@.take(iter.index() + 1) =~= (values_of(pending)
                    + events@.take(iter.index() as int)).push(event));
            }
        }
        assert(events@.take(events@.len() as int) =~= events@);
    }

    /// Begins an event cycle that processes the events which have been raised, followed by those in
    /// the buffer, along with any spawned subevents.
    pub fn flush_buffer(&mut self, buffer: EventBuffer, thread: u64)
        requires
            old(self).wf(),
            old(self).manager.nodes().len() == 0,
        ensures
            final(self).wf(),
            final(self).active,
            final(self).inner == old(self).inner,
            final(self).manager.pipeline() == (Pipeline {
                lists: old(self).manager.lists().push(
                    values_of(old(self).manager.receiver.pending()) + buffer.events@,
                ),
                ..old(self).manager.pipeline()
            }),
            final(self).manager.receiver.pending() == Seq::<Event>::empty(),
    {
        let ghost lists = self.manager.lists();
        self.raise_all(buffer.events.into_vec(), thread);
        let ghost gathered = values_of(self.manager.receiver.pending());
        self.manager.push_external_event_cycle();
        self.manager.gather_external_events();
        proof {
            assert(Seq::<EventValue>::empty() + gathered =~= gathered);
            assert(self.manager.lists() =~= lists.push(gathered));
        }
        self.active = true;
    }

    /// Determines what the thread that flushes this context must do next. That thread must be the
    /// one that owns the context.
    pub fn flush_step(&mut self) -> (step: FlushStep)
        requires
            old(self).wf(),
            old(self).active ==> old(self).roomy(true),
        ensures
            final(self).wf(),
            final(self).inner == old(self).inner,
            final(self).manager.receiver.pending() == old(self).manager.receiver.pending(),
            ({
                let plan = old(self).inner.plan();
                let pipeline = old(self).manager.pipeline();
                let (after, result) = next(plan, true, pipeline);
                if old(self).active && !(result matches Err(EventJobError::Complete)) {
                    &&& final(self).active
                    &&& final(self).manager.pipeline() == after
                    &&& match result {
                        Ok(id) => step == FlushStep::Run(
                            job_for(after.nodes[id - pipeline.start], id),
                        ) && running(after, id),
                        Err(_) => step == FlushStep::Wait,
                    }
                } else {
                    let stopped = if old(self).active {
                        after
                    } else {
                        pipeline
                    };
                    &&& !final(self).active
                    &&& final(self).manager.pipeline() == (Pipeline { clogged: None, ..stopped })
                    &&& match stopped.clogged {
                        Some(event) => step == FlushStep::Clogged(event) && clogs(event),
                        None => step == FlushStep::Finished,
                    }
                    &&& old(self).active ==> final(self).idle()
                    &&& old(self).active && step is Finished ==> after.lists.len() == 0
                }
            }),
    {
        if self.active {
            let thread: u64 = self.inner.owning_thread;
            proof {
                let plan = self.inner.plan();
                let pipeline = self.manager.pipeline();
                law_handlers_are_given_out_once(plan, true, pipeline, 0);
                if next(plan, true, pipeline).1 == Err::<int, EventJobError>(
                    EventJobError::Complete,
                ) {
                    law_completion_leaves_nothing(plan, true, pipeline);
                }
                lemma_next_clogs(self.inner.plan(), true, self.manager.pipeline(), &self.inner);
            }
            match self.manager.next_job(&self.inner, thread) {
                Ok(to_run) => {
                    return FlushStep::Run(to_run);
                },
                Err(EventJobError::Complete) => {
                    self.active = false;
                },
                Err(_) => {
                    return FlushStep::Wait;
                },
            }
        }
        match self.manager.update_state() {
            EventManagerState::Complete => FlushStep::Finished,
            EventManagerState::CycleClogged(event) => FlushStep::Clogged(event),
        }
    }

    /// Determines what a thread that helps with flushing this context must do next.
    pub fn process_step(&mut self, thread: u64) -> (step: WorkerStep)
        requires
            old(self).wf(),
            old(self).active ==> old(self).roomy(thread == old(self).inner.owning_thread),
        ensures
            final(self).wf(),
            final(self).inner == old(self).inner,
            final(self).manager.receiver.pending() == old(self).manager.receiver.pending(),
            ({
                let plan = old(self).inner.plan();
                let pipeline = old(self).manager.pipeline();
                let (after, result) = next(
                    plan,
                    thread == old(self).inner.owning_thread,
                    pipeline,
                );
                if old(self).active {
                    &&& final(self).manager.pipeline() == after
                    &&& final(self).active == !(result matches Err(EventJobError::Complete))
                    &&& match result {
                        Ok(id) => step == WorkerStep::Run(
                            job_for(after.nodes[id - pipeline.start], id),
                        ) && running(after, id),
                        Err(EventJobError::Busy) => step == (WorkerStep::Stop { notify: false }),
                        Err(_) => step == (WorkerStep::Stop { notify: true }),
                    }
                } else {
                    &&& *final(self) == *old(self)
                    &&& step is Inactive
                }
            }),
            step matches WorkerStep::Run(job) ==> thread == old(self).inner.owning_thread
                || forall|j: int|
                0 <= j < old(self).inner.systems@.len() && #[trigger] reaches(
                    old(self).inner.graph(),
                    false,
                    job.handler.system_id as int,
                    j,
                )
                    ==> old(self).inner.catalog@[old(self).inner.systems@[j].system_id.key as int].sync,
    {
        if !self.active {
            return WorkerStep::Inactive;
        }
        proof {
            let main_thread = thread == self.inner.owning_thread;
            law_handlers_are_given_out_once(
                self.inner.plan(),
                main_thread,
                self.manager.pipeline(),
                0,
            );
            lemma_next_clogs(
                self.inner.plan(),
                main_thread,
                self.manager.pipeline(),
                &self.inner,
            );
            if let Ok(id) = next(self.inner.plan(), main_thread, self.manager.pipeline()).1 {
                if !main_thread {
                    law_workers_run_shareable_systems(
                        self.inner.plan(),
                        self.manager.pipeline(),
                        id,
                    );
                }
            }
        }
        match self.manager.next_job(&self.inner, thread) {
            Ok(to_run) => WorkerStep::Run(to_run),
            Err(EventJobError::Complete) => {
                self.active = false;
                WorkerStep::Stop { notify: true }
            },
            Err(EventJobError::MainThreadRequired) => WorkerStep::Stop { notify: true },
            Err(EventJobError::Busy) => WorkerStep::Stop { notify: false },
        }
    }

    /// Reports that the given thread has run a job.
    pub fn finish_job(&mut self, job: &EventJob, thread: u64)
        requires
            old(self).wf(),
            running(old(self).manager.pipeline(), job.id as int),
        ensures
            final(self).wf(),
            final(self).inner == old(self).inner,
            final(self).active == old(self).active,
            final(self).manager.pipeline() == complete(
                old(self).manager.pipeline(),
                job.id as int,
                sent_by(old(self).manager.receiver.pending(), thread),
            ),
            final(self).manager.receiver.pending() == sent_by_others(
                old(self).manager.receiver.pending(),
                thread,
            ),
    {
        proof {
            assert(self.manager.pipeline().wf(self.inner.plan()));
        }
        self.manager.complete_job(job, thread);
    }

    /// Determines whether a request can be carried out, and the reason if it cannot.
    pub fn check_request(&self, event: &EventValue) -> (result: Result<(), RequestError>)
        requires
            self.wf(),
        ensures
            (result is Ok) == self.accepts(*event),
            result matches Err(error) ==> match *event {
                EventValue::AddSystem(system) => if system.key >= self.inner.catalog@.len() {
                    error == RequestError::Unknown
                } else if self.inner.catalog.has_duplicates(
                    self.inner.catalog@[system.key as int].dependencies@,
                ) {
                    error == RequestError::DuplicateDependencies
                } else if self.inner.loaded(system.key) {
                    error == RequestError::AlreadyPresent
                } else {
                    error == RequestError::TooManySystems
                },
                EventValue::RemoveSystem(system) => if self.inner.loaded(system.key) {
                    error == RequestError::NotAdded
                } else {
                    error == RequestError::NotLoaded
                },
                _ => error == RequestError::NotLoaded,
            },
            match *event {
                EventValue::RemoveSystem(system) => (result is Ok) == (
                self.inner.system_initializers@.dom().contains(system.key)
                    && self.inner.system_initializers@[system.key].top_level),
                EventValue::ResetSystem(system) => (result is Ok)
                    == self.inner.system_initializers@.dom().contains(system.key),
                EventValue::AddSystem(system) => true,
                _ => result is Ok,
            },
    {
        match event {
            EventValue::AddSystem(system) => self.check_add(*system),
            EventValue::RemoveSystem(system) => {
                match map_get(&self.inner.system_initializers, system.key) {
                    Some(initializer) => {
                        if initializer.top_level() {
                            Ok(())
                        } else {
                            Err(RequestError::NotAdded)
                        }
                    },
                    None => Err(RequestError::NotLoaded),
                }
            },
            EventValue::ResetSystem(system) => {
                if map_get(&self.inner.system_initializers, system.key).is_some() {
                    Ok(())
                } else {
                    Err(RequestError::NotLoaded)
                }
            },
            _ => Ok(()),
        }
    }

    /// Determines whether a system can be added, and the reason if it cannot.
    fn check_add(&self, system: ConstTypeId) -> (result: Result<(), RequestError>)
        requires
            self.wf(),
        ensures
            (result is Ok) == self.inner.addable(system),
            result matches Err(error) ==> if system.key >= self.inner.catalog@.len() {
                error == RequestError::Unknown
            } else if self.inner.catalog.has_duplicates(
                self.inner.catalog@[system.key as int].dependencies@,
            ) {
                error == RequestError::DuplicateDependencies
            } else if self.inner.loaded(system.key) {
                error == RequestError::AlreadyPresent
            } else {
                error == RequestError::TooManySystems
            },
    {
        if system.key >= self.inner.catalog.len() {
            return Err(RequestError::Unknown);
        }
        let descriptor = self.inner.catalog.descriptor(system);
        proof {
            let key = system.key as int;
            assert(follows(self.inner.catalog@.take(key), self.inner.catalog@[key]));
            assert forall|k: int| 0 <= k < descriptor.dependencies@.len() implies (
            #[trigger] descriptor.dependencies@[k]).type_id.key < self.inner.catalog@.len() by {
                assert(descriptor.dependencies@[k].type_id.key
                    < self.inner.catalog@.take(key).len());
            }
        }
        if self.inner.catalog.has_duplicate_dependencies(descriptor.dependencies()) {
            return Err(RequestError::DuplicateDependencies);
        }
        if map_get(&self.inner.system_initializers, system.key).is_some() {
            return Err(RequestError::AlreadyPresent);
        }
        let count: usize = self.inner.count_with(system);
        if within_limits(count) {
            Ok(())
        } else {
            Err(RequestError::TooManySystems)
        }
    }

    /// Carries a request to the context out, as far as that can be done here.
    pub fn run_clogged_event(&mut self, event: EventValue) -> (action: CloggedAction)
        requires
            old(self).wf(),
            old(self).idle(),
            old(self).accepts(event),
            event is AddSystem ==> old(self).inner.unborrowed(),
        ensures
            final(self).active == old(self).active,
            final(self).manager.receiver.pending() == old(self).manager.receiver.pending(),
            final(self).idle(),
            match event {
                EventValue::AddSystem(system) => {
                    &&& final(self).wf()
                    &&& final(self).manager.lists() == old(self).manager.lists()
                    &&& action matches CloggedAction::Initialize(ids) && added(
                        &old(self).inner,
                        &final(self).inner,
                        system,
                        ids@,
                    )
                },
                EventValue::RemoveSystem(system) => {
                    &&& final(self).wf()
                    &&& final(self).manager.lists() == old(self).manager.lists()
                    &&& removal_begun(&old(self).inner, &final(self).inner, system, action)
                },
                EventValue::ResetSystem(system) => {
                    &&& final(self).wf()
                    &&& final(self).inner == old(self).inner
                    &&& final(self).manager.lists() == old(self).manager.lists()
                    &&& action matches CloggedAction::Reload(reset) && resets(
                        &old(self).inner,
                        system,
                        reset,
                    )
                },
                EventValue::Flush(buffer) => {
                    &&& final(self).wf()
                    &&& final(self).inner == old(self).inner
                    &&& action is Nothing
                    &&& final(self).manager.lists() == old(self).manager.lists().push(
                        buffer.events@,
                    )
                },
                _ => {
                    &&& *final(self) == *old(self)
                    &&& action is Nothing
                },
            },
    {
        match event {
            EventValue::AddSystem(system) => {
                let ids = self.inner.add_system(system);
                self.manager.configure(&self.inner);
                CloggedAction::Initialize(ids)
            },
            EventValue::RemoveSystem(system) => self.remove_system(system),
            EventValue::ResetSystem(system) => CloggedAction::Reload(
                self.inner.reset_system(system),
            ),
            EventValue::Flush(buffer) => {
                let buffer: EventBuffer = *buffer;
                self.manager.push_event_cycle(buffer.events.into_vec());
                CloggedAction::Nothing
            },
            _ => CloggedAction::Nothing,
        }
    }

    /// Removes a system from the context. If that disconnects systems from the dependency graph,
    /// tells which must be dropped.
    fn remove_system(&mut self, system: ConstTypeId) -> (action: CloggedAction)
        requires
            old(self).wf(),
            old(self).inner.loaded(system.key),
            old(self).inner.system_initializers@[system.key].top_level,
        ensures
            final(self).wf(),
            final(self).active == old(self).active,
            final(self).manager == old(self).manager,
            removal_begun(&old(self).inner, &final(self).inner, system, action),
    {
        let ghost before = self.inner;
        self.inner.remove_top_level_system(system);
        let ghost demoted = self.inner;
        let connected = self.inner.determine_connected_systems();
        assert(demoted.plan() == before.plan());
        let gap: Option<usize> = connected.first_zero();
        if gap.is_some() {
            let dropped = self.inner.drop_systems(&connected);
            proof {
                let i = gap->Some_0 as int;
                assert(0 <= i < self.inner.count() && !connected@[i]);
                assert(stays(&self.inner, connected@));
            }
            CloggedAction::Drop(Removal { connected, dropped })
        } else {
            proof {
                assert forall|i: int| 0 <= i < demoted.count() implies #[trigger] demoted.anchored(
                    i,
                ) by {
                    assert(connected@[i] == demoted.anchored(i));
                }
            }
            CloggedAction::Nothing
        }
    }

    /// Completes a removal, once the systems to drop have been dropped.
    pub fn complete_removal(&mut self, removal: Removal)
        requires
            old(self).wf(),
            old(self).idle(),
            stays(&old(self).inner, removal.connected@),
        ensures
            final(self).wf(),
            final(self).idle(),
            final(self).active == old(self).active,
            final(self).manager.lists() == old(self).manager.lists(),
            final(self).manager.receiver.pending() == old(self).manager.receiver.pending(),
            removed(&old(self).inner, &final(self).inner, removal.connected@),
    {
        let ghost before = self.inner;
        self.inner.forget_systems(&removal.connected);
        let ghost forgotten = self.inner;
        self.inner.compact_remaining_systems(&removal.connected);
        proof {
            assert forall|key: usize| #[trigger] self.inner.loaded(key) == forgotten.loaded(key) by {
            }
            assert forall|key: usize| #[trigger] self.inner.loaded(
                key,
            ) implies self.inner.system_initializers@[key].top_level
                == before.system_initializers@[key].top_level by {
                assert(forgotten.loaded(key));
            }
        }
        self.manager.configure(&self.inner);
    }

    /// Determines whether events are in progress.
    pub fn busy(&self) -> (result: bool)
        ensures
            result == (self.manager.nodes().len() > 0),
    {
        !self.manager.in_progress.is_empty()
    }

    /// Causes an event cycle to begin, with the events which have been raised. Returns a builder to
    /// which events can be added, all of which are processed (along with any spawned subevents)
    /// once the builder goes out of scope.
    pub fn flush(&mut self) -> (queue: ContextEventQueue<'_, V>)
        requires
            old(self).wf(),
            old(self).manager.nodes().len() == 0,
        ensures
            queue.accepting(),
            queue.queued() == values_of(old(self).manager.receiver.pending()),
            queue.ctx.active,
            queue.ctx.inner == old(self).inner,
            queue.ctx.manager.pipeline() == (Pipeline {
                lists: old(self).manager.lists().push(queue.queued()),
                ..old(self).manager.pipeline()
            }),
            *final(self) == *final(queue.ctx),
    {
        let thread: u64 = self.inner.owning_thread;
        self.flush_buffer(EventBuffer { events: EventValues::new() }, thread);
        assert(values_of(old(self).manager.receiver.pending()) + Seq::<EventValue>::empty()
            =~= values_of(old(self).manager.receiver.pending()));
        ContextEventQueue { ctx: self }
    }

    /// Obtains a reference to the given system.
    pub fn get(&mut self, system: ConstTypeId) -> (result: SystemRef<'_, Option<V>>)
        requires
            old(self).wf(),
            old(self).inner.loaded(system.key),
            !borrow_conflict(
                old(self).inner.systems@[old(self).inner.id_of(system)].value.state(),
            ),
        ensures
            *result.inner.value == old(self).inner.systems@[old(self).inner.id_of(
                system,
            )].value.content(),
            result.inner.counted() == old(self).inner.systems@[old(self).inner.id_of(
                system,
            )].value.state() + 1,
            *result.inner.others == old(self).inner.systems@[old(self).inner.id_of(
                system,
            )].value.state(),
            final(self).manager == old(self).manager,
            final(self).active == old(self).active,
            final(self).inner.borrowed_at(
                &old(self).inner,
                old(self).inner.id_of(system),
                old(self).inner.systems@[old(self).inner.id_of(system)].value.content(),
                *final(result.inner.others),
            ),
            final(self).wf(),
    {
        let ghost before = self.inner;
        proof {
            assert forall|after: ContextInner<V>| #[trigger] after.same_structure(
                &before,
            ) implies after.plan() == before.plan() by {
                lemma_values_irrelevant(&before, &after);
            }
        }
        self.inner.get(system)
    }

    /// Mutably obtains a reference to the given system.
    pub fn get_mut(&mut self, system: ConstTypeId) -> (result: SystemRefMut<'_, Option<V>>)
        requires
            old(self).wf(),
            old(self).inner.loaded(system.key),
            !borrow_mut_conflict(
                old(self).inner.systems@[old(self).inner.id_of(system)].value.state(),
            ),
        ensures
            *result.inner.value == old(self).inner.systems@[old(self).inner.id_of(
                system,
            )].value.content(),
            result.inner.counted() == BORROWED_MUTABLY,
            *result.inner.others == 0,
            final(self).manager == old(self).manager,
            final(self).active == old(self).active,
            final(self).inner.borrowed_at(
                &old(self).inner,
                old(self).inner.id_of(system),
                *final(result.inner.value),
                *final(result.inner.others),
            ),
            final(self).wf(),
    {
        let ghost before = self.inner;
        proof {
            assert forall|after: ContextInner<V>| #[trigger] after.same_structure(
                &before,
            ) implies after.plan() == before.plan() by {
                lemma_values_irrelevant(&before, &after);
            }
        }
        self.inner.get_mut(system)
    }

    /// Puts the value of a system into the context.
    pub fn load_system(&mut self, id: u16, value: V)
        requires
            old(self).wf(),
            id < old(self).inner.count(),
            old(self).inner.systems@[id as int].value.state() == 0,
        ensures
            final(self).wf(),
            final(self).manager == old(self).manager,
            final(self).active == old(self).active,
            final(self).inner.same_structure(&old(self).inner),
            final(self).inner.systems@[id as int].value.content() == Some(value),
            final(self).inner.systems@[id as int].value.state() == 0,
            forall|i: int|
                0 <= i < old(self).inner.count() && i != id
                    ==> #[trigger] final(self).inner.systems@[i] == old(self).inner.systems@[i],
    {
        let ghost before = self.inner;
        self.inner.load_system(id, value);
        proof {
            lemma_values_irrelevant(&before, &self.inner);
        }
    }

    /// Takes the value of a system out of the context.
    pub fn unload_system(&mut self, id: u16) -> (value: Option<V>)
        requires
            old(self).wf(),
            id < old(self).inner.count(),
            old(self).inner.systems@[id as int].value.state() == 0,
        ensures
            final(self).wf(),
            final(self).manager == old(self).manager,
            final(self).active == old(self).active,
            final(self).inner.same_structure(&old(self).inner),
            value == old(self).inner.systems@[id as int].value.content(),
            final(self).inner.systems@[id as int].value.content() is None,
            final(self).inner.systems@[id as int].value.state() == 0,
            forall|i: int|
                0 <= i < old(self).inner.count() && i != id
                    ==> #[trigger] final(self).inner.systems@[i] == old(self).inner.systems@[i],
    {
        let ghost before = self.inner;
        let value = self.inner.unload_system(id);
        proof {
            lemma_values_irrelevant(&before, &self.inner);
        }
        value
    }

    /// Takes up event processing again after a request was carried out.
    pub fn resume(&mut self)
        requires
            old(self).wf(),
            old(self).manager.lists().len() > 0,
        ensures
            final(self).wf(),
            final(self).active,
            final(self).inner == old(self).inner,
            final(self).manager.pipeline() == (Pipeline {
                lists: with_top(
                    old(self).manager.lists(),
                    old(self).manager.lists().last() + values_of(
                        old(self).manager.receiver.pending(),
                    ),
                ),
                ..old(self).manager.pipeline()
            }),
            final(self).manager.receiver.pending() == Seq::<Event>::empty(),
    {
        self.manager.gather_external_events();
        self.active = true;
    }
}

impl GeeseContextHandle {
    /// Raises the specified dynamically-typed event, on the given thread.
    pub fn raise_event_boxed<V>(&self, ctx: &mut GeeseContext<V>, event: EventValue, thread: u64)
        ensures
            final(ctx).inner == old(ctx).inner,
            final(ctx).active == old(ctx).active,
            final(ctx).manager.pipeline() == old(ctx).manager.pipeline(),
            final(ctx).manager.receiver.pending() == old(ctx).manager.receiver.pending().push(
                (Event { value: event, sender: thread }),
            ),
            old(ctx).wf() ==> final(ctx).wf(),
    {
        ctx.raise_event(event, thread);
    }

    /// Raises the specified event, on the given thread.
    pub fn raise_event<V>(&self, ctx: &mut GeeseContext<V>, event: EventValue, thread: u64)
        ensures
            final(ctx).inner == old(ctx).inner,
            final(ctx).active == old(ctx).active,
            final(ctx).manager.pipeline() == old(ctx).manager.pipeline(),
            final(ctx).manager.receiver.pending() == old(ctx).manager.receiver.pending().push(
                (Event { value: event, sender: thread }),
            ),
            old(ctx).wf() ==> final(ctx).wf(),
    {
        self.raise_event_boxed(ctx, event, thread);
    }
}

/// Denotes an event sequence that is flushed through a context. As nobody else can look at the
/// context while this lives, events are queued there as they are added.
pub struct ContextEventQueue<'a, V> {
    /// The context to which events should be flushed.
    pub ctx: &'a mut GeeseContext<V>,
}

impl<'a, V> EventQueue for ContextEventQueue<'a, V> {
    open spec fn queued(&self) -> Seq<EventValue> {
        self.ctx.manager.lists().last()
    }

    open spec fn accepting(&self) -> bool {
        &&& self.ctx.wf()
        &&& self.ctx.manager.lists().len() > 0
        &&& self.ctx.manager.receiver.pending().len() == 0
    }

    open spec fn extends(&self, before: Self) -> bool {
        &&& self.ctx.inner == before.ctx.inner
        &&& self.ctx.active == before.ctx.active
        &&& self.ctx.manager.pipeline() == (Pipeline {
            lists: with_top(before.ctx.manager.lists(), self.queued()),
            ..before.ctx.manager.pipeline()
        })
    }

    fn with_many_boxed(self, events: Vec<EventValue>) -> (queue: Self)
        ensures
            *final(queue.ctx) == *final(self.ctx),
    {
        let ghost added = events@;
        let thread: u64 = self.ctx.inner.owning_thread;
        let ghost before = self.ctx.manager.receiver.pending();
        assert(values_of(before) + added =~= added);
        self.ctx.raise_all(events, thread);
        self.ctx.manager.gather_external_events();
        self
    }

    fn with(self, event: EventValue) -> (queue: Self)
        ensures
            *final(queue.ctx) == *final(self.ctx),
    {
        self.with_boxed(event)
    }

    fn with_boxed(self, event: EventValue) -> (queue: Self)
        ensures
            *final(queue.ctx) == *final(self.ctx),
    {
        let ghost before = self.queued();
        let queue = self.with_many_boxed(single(event));
        assert(queue.queued() =~= before.push(event));
        queue
    }

    fn with_buffer(self, events: EventBuffer) -> (queue: Self)
        ensures
            *final(queue.ctx) == *final(self.ctx),
    {
        self.with_many_boxed(events.events.into_vec())
    }

    fn with_many(self, events: Vec<EventValue>) -> (queue: Self)
        ensures
            *final(queue.ctx) == *final(self.ctx),
    {
        self.with_many_boxed(events)
    }
}

/// What a context holds after a system was added to it.
pub open spec fn added<V>(
    before: &ContextInner<V>,
    after: &ContextInner<V>,
    system: ConstTypeId,
    ids: Seq<u16>,
) -> bool {
    &&& after.catalog == before.catalog
    &&& after.owning_thread == before.owning_thread
    &&& after.system_initializers@.dom() == before.keys_with(system)
    &&& forall|key: usize| #[trigger]
        after.loaded(key) ==> after.system_initializers@[key].top_level == (key == system.key || (
        before.loaded(key) && before.system_initializers@[key].top_level))
    &&& forall|key: usize| #[trigger]
        after.loaded(key) ==> {
            let holder = after.systems@[after.system_initializers@[key].id as int];
            if before.loaded(key) {
                holder.value == before.systems@[before.system_initializers@[key].id as int].value
            } else {
                holder.value.content() is None && holder.value.state() == 0
            }
        }
    &&& ascending_exactly(
        ids,
        after.count(),
        |i: int| !before.loaded(key_at(after.systems@, i)),
    )
}

/// Whether a set of systems is exactly that of the systems which are top-level, or reached from one
/// that is.
pub open spec fn stays<V>(ctx: &ContextInner<V>, connected: Seq<bool>) -> bool {
    &&& connected.len() == ctx.count()
    &&& forall|i: int| 0 <= i < ctx.count() ==> #[trigger] connected[i] == ctx.anchored(i)
}

/// What a context holds after a system was demoted, and what must be dropped then.
pub open spec fn removal_begun<V>(
    before: &ContextInner<V>,
    after: &ContextInner<V>,
    system: ConstTypeId,
    action: CloggedAction,
) -> bool {
    &&& *after == (ContextInner { system_initializers: after.system_initializers, ..*before })
    &&& after.system_initializers@ == before.system_initializers@.insert(
        system.key,
        SystemInitializer { top_level: false, ..before.system_initializers@[system.key] },
    )
    &&& match action {
        CloggedAction::Drop(removal) => {
            &&& stays(after, removal.connected@)
            &&& exists|i: int| 0 <= i < after.count() && !#[trigger] removal.connected@[i]
            &&& descending_exactly(
                removal.dropped@,
                after.count(),
                |i: int| !removal.connected@[i],
            )
        },
        CloggedAction::Nothing => forall|i: int|
            0 <= i < after.count() ==> #[trigger] after.anchored(i),
        _ => false,
    }
}

/// What a context holds after the systems that do not stay were removed from it: the others, in the
/// same order and with their values.
pub open spec fn removed<V>(
    before: &ContextInner<V>,
    after: &ContextInner<V>,
    connected: Seq<bool>,
) -> bool {
    &&& after.catalog == before.catalog
    &&& after.owning_thread == before.owning_thread
    &&& forall|key: usize| #[trigger]
        after.loaded(key) <==> before.loaded(key)
            && connected[before.system_initializers@[key].id as int]
    &&& forall|key: usize| #[trigger]
        after.loaded(key) ==> after.system_initializers@[key].top_level
            == before.system_initializers@[key].top_level
    &&& after.count() == ones_before(connected, before.count())
    &&& forall|i: int|
        0 <= i < before.count() && #[trigger] connected[i] ==> {
            let place = ones_before(connected, i) as int;
            &&& place < after.count()
            &&& after.systems@[place].system_id == before.systems@[i].system_id
            &&& after.systems@[place].value == before.systems@[i].value
        }
}

/// What must be replaced when a system is reset.
pub open spec fn resets<V>(ctx: &ContextInner<V>, system: ConstTypeId, reset: Reset) -> bool {
    let id = ctx.system_initializers@[system.key].id as int;
    &&& descending_exactly(
        reset.unload@,
        ctx.count(),
        |i: int| reaches(ctx.graph(), false, i, id),
    )
    &&& ascending_exactly(
        reset.load@,
        ctx.count(),
        |i: int| reaches(ctx.graph(), false, i, id),
    )
}

/// Nothing that a context keeps of its systems changes when a system type becomes known.
proof fn lemma_registered<V>(
    before: &ContextInner<V>,
    after: &ContextInner<V>,
    descriptor: SystemDescriptor,
)
    requires
        before.wf(),
        after.catalog.wf(),
        after.catalog@ == before.catalog@.push(descriptor),
        *after == (ContextInner { catalog: after.catalog, ..*before }),
    ensures
        after.wf(),
        after.plan() == before.plan(),
{
    let old_catalog = before.catalog@;
    let new_catalog = after.catalog@;
    assert forall|i: int| 0 <= i < before.count() implies key_at(before.systems@, i)
        < old_catalog.len() by {
        assert(before.system_initializers@.dom().contains(key_at(before.systems@, i)));
    }
    assert(after.graph() =~= before.graph()) by {
        assert forall|i: int| 0 <= i < before.count() implies after.graph()[i]
            == before.graph()[i] by {
            assert(key_at(before.systems@, i) < old_catalog.len());
            assert(after.graph()[i] =~= before.graph()[i]);
        }
    }
    assert(after.descriptors() =~= before.descriptors()) by {
        assert forall|i: int| 0 <= i < before.count() implies after.descriptors()[i]
            == before.descriptors()[i] by {
            assert(key_at(before.systems@, i) < old_catalog.len());
        }
    }
    assert forall|i: int| 0 <= i < after.count() implies handle_wf(
        new_catalog,
        after.system_initializers@,
        #[trigger] after.systems@[i],
        i,
    ) by {
        assert(handle_wf(old_catalog, before.system_initializers@, before.systems@[i], i));
        assert(key_at(before.systems@, i) < old_catalog.len());
    }
    assert forall|key: usize, k: int|
        #![trigger new_catalog[key as int].dependencies@[k]]
        after.system_initializers@.dom().contains(key) && 0 <= k
            < new_catalog[key as int].dependencies@.len() implies after.system_initializers@.dom().contains(
    new_catalog[key as int].dependencies@[k].type_id.key) by {
        assert(before.system_initializers@.dom().contains(key));
        assert(new_catalog[key as int] == old_catalog[key as int]);
        assert(before.system_initializers@.dom().contains(
            old_catalog[key as int].dependencies@[k].type_id.key,
        ));
    }
    assert forall|event: ConstTypeId| #[trigger]
        after.event_handlers.entries(event) == all_responding(after.descriptors(), event) by {
        assert(before.event_handlers.entries(event) == all_responding(
            before.descriptors(),
            event,
        ));
    }
}

/// Only requests to the context stall the pipeline.
proof fn lemma_next_clogs<V>(
    plan: Plan,
    main_thread: bool,
    pipeline: Pipeline,
    ctx: &ContextInner<V>,
)
    requires
        ctx.wf(),
        plan == ctx.plan(),
        pipeline.wf(plan),
        pipeline.start + next(plan, main_thread, pipeline).0.nodes.len() < isize::MAX,
        pipeline.clogged matches Some(event) ==> clogs(event),
    ensures
        next(plan, main_thread, pipeline).0.clogged matches Some(event) ==> clogs(event),
{
    if pipeline.blocked is None && pipeline.clogged is None && first_selectable(
        plan,
        main_thread,
        pipeline.nodes,
        0,
    ) is None {
        lemma_queue_wf(
            plan,
            main_thread,
            pipeline.lists,
            pipeline.nodes,
            pipeline.start,
        );
    }
}

/// Adding events to the queue of a cycle changes nothing else: the systems, what is in progress, a
/// request that is due, and the queues below all stay as they are.
pub proof fn law_adding_to_a_queue_changes_it_only<V>(
    before: ContextEventQueue<'_, V>,
    after: ContextEventQueue<'_, V>,
)
    requires
        after.extends(before),
        before.ctx.manager.lists().len() > 0,
    ensures
        old(after.ctx).inner == old(before.ctx).inner,
        old(after.ctx).active == old(before.ctx).active,
        old(after.ctx).manager.nodes() == old(before.ctx).manager.nodes(),
        old(after.ctx).manager.start() == old(before.ctx).manager.start(),
        old(after.ctx).manager.clogged_event == old(before.ctx).manager.clogged_event,
        old(after.ctx).manager.blocked_main_event == old(before.ctx).manager.blocked_main_event,
        old(after.ctx).manager.lists().len() == old(before.ctx).manager.lists().len(),
        old(after.ctx).manager.lists().drop_last() == old(before.ctx).manager.lists().drop_last(),
        old(after.ctx).manager.lists().last() == after.queued(),
{
    let lists = before.ctx.manager.lists();
    assert(after.ctx.manager.pipeline().lists == with_top(lists, after.queued()));
    assert(after.ctx.manager.lists().drop_last() =~= lists.drop_last());
}

} // verus!
