//! Event cycles over a family of small systems, driven through the public interface.
use geese::access::DependencyAccess;
use geese::access::GeeseContextHandle;
use geese::const_type_id::ConstTypeId;
use geese::const_type_id::TypeTable;
use geese::event_manager::EventJob;
use geese::events::EventQueue;
use geese::events::EventValue;
use geese::geese_context::CloggedAction;
use geese::geese_context::FlushStep;
use geese::geese_context::GeeseContext;
use geese::geese_context::RequestError;
use geese::geese_context::WorkerStep;
use geese::notify;
use geese::traits::dependencies;
use geese::traits::event_handlers;
use geese::traits::Dependencies;
use geese::traits::EventHandler;
use geese::traits::EventHandlers;
use geese::traits::EventInvoker;
use geese::traits::Mut;
use geese::traits::SystemDescriptor;
use std::sync::atomic::AtomicBool;
use std::sync::atomic::AtomicUsize;
use std::sync::atomic::Ordering;
use std::sync::Arc;

const MAIN: u64 = 1;

struct A;
struct B;
struct C;
struct D;
struct E;
struct F;
struct G;
struct H;
struct I;
struct J;
struct K;

/// The values that systems have.
#[derive(Debug, PartialEq)]
enum Value {
    Plain,
    Counter(usize),
    Number(i32),
    Last(usize),
}

/// The values that events have.
#[derive(Clone)]
enum Payload {
    Count(Arc<AtomicUsize>),
    Flag(Arc<AtomicBool>),
    Unit,
    I32(i32),
    Usize(usize),
    Isize(isize),
}

const INCREMENT: u64 = 10;
const TEST_ANSWER: u64 = 11;
const INCREMENT_COUNTER: u64 = 12;
const INCREMENT_VALUE: u64 = 13;
const NEGATE_VALUE: u64 = 14;
const H_DECREMENT: u64 = 15;
const I_DECREMENT: u64 = 16;
const HIT_IT: u64 = 17;
const INCREASE: u64 = 18;

struct World {
    ctx: GeeseContext<Value>,
    systems: TypeTable,
    events: TypeTable,
    payloads: Vec<Payload>,
    created: Vec<usize>,
    dropped: Vec<usize>,
    ran: Vec<(u64, u64)>,
}

fn keep<T>(value: T) -> &'static T {
    Box::leak(Box::new(value))
}

fn depend(list: &[(ConstTypeId, bool)]) -> Dependencies {
    let mut result = dependencies();
    for (system, mutable) in list {
        result = if *mutable {
            keep(result).with(Mut(*system))
        } else {
            keep(result).with(*system)
        };
    }
    result
}

fn handle(list: &[(ConstTypeId, u64)]) -> EventHandlers {
    let mut result = event_handlers();
    for (event, function) in list {
        result = keep(result).with(EventHandler::new(*event, EventInvoker::new(*function)));
    }
    result
}

impl World {
    fn new() -> Self {
        let mut world = World {
            ctx: GeeseContext::new(MAIN),
            systems: TypeTable::new(),
            events: TypeTable::new(),
            payloads: Vec::new(),
            created: Vec::new(),
            dropped: Vec::new(),
            ran: Vec::new(),
        };
        let count = ConstTypeId::of::<Arc<AtomicUsize>>(&mut world.events);
        let flag = ConstTypeId::of::<Arc<AtomicBool>>(&mut world.events);
        let unit = ConstTypeId::of::<()>(&mut world.events);
        let int = ConstTypeId::of::<i32>(&mut world.events);
        let unsigned = ConstTypeId::of::<usize>(&mut world.events);
        let signed = ConstTypeId::of::<isize>(&mut world.events);
        let a = world.register::<A>(&[], &[(count, INCREMENT)], true);
        world.register::<B>(&[(a, false)], &[(flag, TEST_ANSWER)], true);
        let c = world.register::<C>(&[], &[(unit, INCREMENT_COUNTER)], true);
        world.register::<D>(&[(a, false), (c, false)], &[], true);
        let e = world.register::<E>(&[], &[], true);
        let f = world.register::<F>(&[(e, true)], &[(unit, INCREMENT_VALUE)], true);
        world.register::<G>(&[(e, true), (f, false)], &[(unit, NEGATE_VALUE)], true);
        let h = world.register::<H>(&[], &[(signed, H_DECREMENT)], false);
        let i = world.register::<I>(&[], &[(unsigned, I_DECREMENT), (unit, HIT_IT)], true);
        world.register::<J>(&[(h, false), (i, false)], &[], true);
        world.register::<K>(&[], &[(int, INCREASE)], true);
        world
    }

    fn register<T: 'static>(
        &mut self,
        deps: &[(ConstTypeId, bool)],
        handlers: &[(ConstTypeId, u64)],
        sync: bool,
    ) -> ConstTypeId {
        let system_id = ConstTypeId::of::<T>(&mut self.systems);
        assert_eq!(system_id.key, self.ctx.inner.catalog.len());
        self.ctx.register(SystemDescriptor {
            dependencies: depend(deps),
            event_handlers: handle(handlers),
            send: sync,
            sync,
            system_id,
        });
        system_id
    }

    fn key<T: 'static>(&mut self) -> ConstTypeId {
        ConstTypeId::of::<T>(&mut self.systems)
    }

    fn event(&mut self, payload: Payload) -> EventValue {
        let event_type = match &payload {
            Payload::Count(_) => ConstTypeId::of::<Arc<AtomicUsize>>(&mut self.events),
            Payload::Flag(_) => ConstTypeId::of::<Arc<AtomicBool>>(&mut self.events),
            Payload::Unit => ConstTypeId::of::<()>(&mut self.events),
            Payload::I32(_) => ConstTypeId::of::<i32>(&mut self.events),
            Payload::Usize(_) => ConstTypeId::of::<usize>(&mut self.events),
            Payload::Isize(_) => ConstTypeId::of::<isize>(&mut self.events),
        };
        let index = self.payloads.len() as u64;
        self.payloads.push(payload);
        EventValue::Typed {
            event_type,
            payload: index,
        }
    }

    fn raise(&mut self, payload: Payload, thread: u64) {
        let event = self.event(payload);
        self.ctx.raise_event(event, thread);
    }

    fn value<T: 'static, R>(&mut self, read: impl FnOnce(&Value) -> R) -> R {
        let system = self.key::<T>();
        let guard = self.ctx.get(system);
        let result = read(guard.deref().as_ref().unwrap());
        result
    }

    fn change<T: 'static>(&mut self, write: impl FnOnce(&mut Value)) {
        let system = self.key::<T>();
        let mut guard = self.ctx.get_mut(system);
        write(guard.deref_mut().as_mut().unwrap());
    }

    fn create(&mut self, id: u16) {
        let system = self.ctx.inner.system_holder(id as usize).system_id;
        self.created.push(system.key);
        let value = if system.key == self.key::<C>().key {
            Value::Counter(0)
        } else if system.key == self.key::<E>().key || system.key == self.key::<K>().key {
            Value::Number(0)
        } else if system.key == self.key::<I>().key {
            Value::Last(0)
        } else {
            Value::Plain
        };
        if system.key == self.key::<B>().key || system.key == self.key::<G>().key {
            let event = self.event(Payload::Unit);
            GeeseContextHandle::new(system).raise_event(&mut self.ctx, event, MAIN);
        }
        if system.key == self.key::<D>().key {
            self.change::<C>(|c| *c = Value::Counter(4));
        }
        self.ctx.load_system(id, value);
    }

    fn discard(&mut self, id: u16) {
        let system = self.ctx.inner.system_holder(id as usize).system_id;
        self.dropped.push(system.key);
        assert!(self.ctx.unload_system(id).is_some());
    }

    fn execute(&mut self, job: &EventJob, thread: u64) {
        let function = job.handler.handler.handler.unwrap();
        self.ran.push((function, thread));
        let payload = self.payloads[job.event.payload as usize].clone();
        match (function, payload) {
            (INCREMENT, Payload::Count(count)) => {
                count.fetch_add(1, Ordering::Relaxed);
            }
            (TEST_ANSWER, Payload::Flag(flag)) => {
                let (a, b) = (self.key::<A>(), self.key::<B>());
                let handle = GeeseContextHandle::new(b);
                assert_eq!(
                    handle.permits(&self.ctx.inner, a, false, thread),
                    DependencyAccess::Allowed
                );
                let guard = handle.get(&mut self.ctx.inner, a, thread);
                flag.store(guard.deref().is_some(), Ordering::Relaxed);
            }
            (INCREMENT_COUNTER, Payload::Unit) => self.change::<C>(|c| {
                if let Value::Counter(count) = c {
                    *count += 1;
                }
            }),
            (INCREMENT_VALUE, Payload::Unit) => {
                let (e, f) = (self.key::<E>(), self.key::<F>());
                self.adjust(f, e, thread, |x| x + 1);
            }
            (NEGATE_VALUE, Payload::Unit) => {
                let (e, g) = (self.key::<E>(), self.key::<G>());
                self.adjust(g, e, thread, |x| -x);
            }
            (H_DECREMENT, Payload::Isize(value)) => {
                if value > 0 {
                    self.raise(Payload::Isize(value - 1), thread);
                    if value == 25 {
                        self.raise(Payload::Unit, thread);
                    }
                }
            }
            (I_DECREMENT, Payload::Usize(value)) => {
                if value > 0 {
                    self.change::<I>(|i| *i = Value::Last(value));
                    self.raise(Payload::Usize(value - 1), thread);
                }
            }
            (HIT_IT, Payload::Unit) => {}
            (INCREASE, Payload::I32(value)) => self.change::<K>(|k| {
                if let Value::Number(current) = k {
                    assert!(value > *current);
                    *current = value;
                }
            }),
            _ => unreachable!(),
        }
    }

    fn adjust(
        &mut self,
        system: ConstTypeId,
        dependency: ConstTypeId,
        thread: u64,
        write: impl FnOnce(i32) -> i32,
    ) {
        let handle = GeeseContextHandle::new(system);
        assert_eq!(
            handle.permits(&self.ctx.inner, dependency, true, thread),
            DependencyAccess::Allowed
        );
        let mut guard = handle.get_mut(&mut self.ctx.inner, dependency, thread);
        if let Some(Value::Number(value)) = guard.deref_mut() {
            *value = write(*value);
        }
    }

    fn carry_out(&mut self, event: EventValue) {
        if let Err(error) = self.ctx.check_request(&event) {
            panic!("{error:?}");
        }
        match self.ctx.run_clogged_event(event) {
            CloggedAction::Initialize(ids) => {
                for id in ids.to_vec() {
                    self.create(id);
                }
            }
            CloggedAction::Drop(removal) => {
                for id in removal.dropped.to_vec() {
                    self.discard(id);
                }
                self.ctx.complete_removal(removal);
            }
            CloggedAction::Reload(reset) => {
                for id in reset.unload.to_vec() {
                    self.discard(id);
                }
                for id in reset.load.to_vec() {
                    self.create(id);
                }
            }
            CloggedAction::Nothing => {}
        }
        self.ctx.resume();
    }

    fn flush(&mut self, events: Vec<EventValue>) {
        self.ctx.flush().with_many(events);
        self.finish();
    }

    fn finish(&mut self) {
        loop {
            assert!(self.ctx.has_room());
            match self.ctx.flush_step() {
                FlushStep::Run(job) => {
                    self.execute(&job, MAIN);
                    self.ctx.finish_job(&job, MAIN);
                }
                FlushStep::Wait => unreachable!(),
                FlushStep::Clogged(event) => self.carry_out(event),
                FlushStep::Finished => return,
            }
        }
    }

    /// Flushes with the help of other threads, which take turns with the main one.
    fn flush_with(&mut self, events: Vec<EventValue>, workers: &[u64]) {
        self.ctx.flush().with_many(events);
        let mut busy: Vec<(EventJob, u64)> = Vec::new();
        loop {
            for worker in workers {
                if busy.iter().any(|(_, thread)| thread == worker) {
                    continue;
                }
                assert!(self.ctx.has_room());
                if let WorkerStep::Run(job) = self.ctx.process_step(*worker) {
                    self.execute(&job, *worker);
                    busy.push((job, *worker));
                }
            }
            assert!(self.ctx.has_room());
            match self.ctx.flush_step() {
                FlushStep::Run(job) => {
                    self.execute(&job, MAIN);
                    self.ctx.finish_job(&job, MAIN);
                }
                FlushStep::Wait => assert!(!busy.is_empty()),
                FlushStep::Clogged(event) => self.carry_out(event),
                FlushStep::Finished => break,
            }
            if let Some((job, thread)) = busy.pop() {
                self.ctx.finish_job(&job, thread);
            }
        }
        assert!(busy.is_empty());
    }
}

#[test]
fn test_single_system() {
    let ab = Arc::new(AtomicUsize::new(0));
    let mut world = World::new();
    let a = world.key::<A>();
    let event = world.event(Payload::Count(ab.clone()));
    world.flush(vec![notify::add_system(a), event]);
    assert!(ab.load(Ordering::Relaxed) == 1);
}

#[test]
fn test_dependent_system() {
    let ab = Arc::new(AtomicBool::new(false));
    let mut world = World::new();
    let b = world.key::<B>();
    let event = world.event(Payload::Flag(ab.clone()));
    world.flush(vec![notify::add_system(b), event]);
    assert!(ab.load(Ordering::Relaxed));
}

#[test]
fn test_system_reload_one() {
    let mut world = World::new();
    let (a, b, c) = (world.key::<A>(), world.key::<B>(), world.key::<C>());
    world.flush(vec![notify::add_system(c), notify::add_system(b)]);
    assert_eq!(world.value::<C, bool>(|c| *c == Value::Counter(1)), true);
    world.flush(vec![notify::reset_system(a)]);
    assert_eq!(world.value::<C, bool>(|c| *c == Value::Counter(2)), true);
}

#[test]
fn test_system_reload_order() {
    let mut world = World::new();
    let (a, b, d) = (world.key::<A>(), world.key::<B>(), world.key::<D>());
    world.flush(vec![notify::add_system(d), notify::add_system(b)]);
    assert_eq!(world.value::<C, bool>(|c| *c == Value::Counter(5)), true);
    world.flush(vec![notify::reset_system(a)]);
    assert_eq!(world.value::<C, bool>(|c| *c == Value::Counter(5)), true);
}

#[test]
#[should_panic]
fn test_add_system_event_twice_panic() {
    let mut world = World::new();
    let b = world.key::<B>();
    world.flush(vec![notify::add_system(b), notify::add_system(b)]);
}

#[test]
#[should_panic]
fn test_remove_system_event_unknown_panic() {
    let mut world = World::new();
    let b = world.key::<B>();
    world.flush(vec![notify::remove_system(b)]);
}

#[test]
fn test_mut_dependency() {
    let mut world = World::new();
    let g = world.key::<G>();
    world.flush(vec![notify::add_system(g)]);
    assert_eq!(world.value::<E, bool>(|e| *e == Value::Number(-1)), true);
}

#[test]
fn test_multiple_threads() {
    let mut world = World::new();
    let j = world.key::<J>();
    let first = world.event(Payload::Usize(50));
    let second = world.event(Payload::Isize(50));
    world.flush_with(vec![notify::add_system(j), first, second], &[2, 3]);
    let count = |function: u64| world.ran.iter().filter(|(f, _)| *f == function).count();
    assert_eq!(count(I_DECREMENT), 51);
    assert_eq!(count(H_DECREMENT), 51);
    assert_eq!(count(HIT_IT), 1);
    assert!(world.ran.iter().any(|(f, thread)| *f == I_DECREMENT && *thread != MAIN));
    assert!(world.ran.iter().all(|(f, thread)| *f != H_DECREMENT || *thread == MAIN));
}

#[test]
fn test_flush() {
    let mut world = World::new();
    let k = world.key::<K>();
    let one = world.event(Payload::I32(1));
    let two = world.event(Payload::I32(2));
    let three = world.event(Payload::I32(3));
    let four = world.event(Payload::I32(4));
    let inner = notify::flush().with_many(vec![two, three]).into_event();
    world.flush(vec![notify::add_system(k), one, inner, four]);
    assert!(world.value::<K, bool>(|k| *k == Value::Number(4)));
}

#[test]
#[should_panic]
fn test_no_flush() {
    let mut world = World::new();
    let k = world.key::<K>();
    let one = world.event(Payload::I32(1));
    let four = world.event(Payload::I32(4));
    let two = world.event(Payload::I32(2));
    let three = world.event(Payload::I32(3));
    world.flush(vec![notify::add_system(k), one, four, two, three]);
}

/// Everything that a system depends on is created before it, and dropped after it.
#[test]
fn systems_are_created_and_dropped_in_dependency_order() {
    let mut world = World::new();
    let (d, g) = (world.key::<D>(), world.key::<G>());
    let (a, c, e, f) = (
        world.key::<A>(),
        world.key::<C>(),
        world.key::<E>(),
        world.key::<F>(),
    );
    world.flush(vec![notify::add_system(d), notify::add_system(g)]);
    let place = |keys: &Vec<usize>, system: ConstTypeId| keys.iter().position(|k| *k == system.key);
    assert_eq!(world.created.len(), 6);
    assert!(place(&world.created, a) < place(&world.created, d));
    assert!(place(&world.created, c) < place(&world.created, d));
    assert!(place(&world.created, e) < place(&world.created, f));
    assert!(place(&world.created, f) < place(&world.created, g));
    world.flush(vec![notify::remove_system(g)]);
    assert_eq!(world.dropped, vec![g.key, f.key, e.key]);
    assert_eq!(world.ctx.inner.systems.len(), 3);
    world.flush(vec![notify::remove_system(d)]);
    assert_eq!(world.ctx.inner.systems.len(), 0);
}

/// A removal keeps what other systems need, with its value.
#[test]
fn removal_keeps_shared_dependencies() {
    let mut world = World::new();
    let (a, b, d) = (world.key::<A>(), world.key::<B>(), world.key::<D>());
    world.flush(vec![notify::add_system(d), notify::add_system(b)]);
    world.flush(vec![notify::remove_system(d)]);
    assert_eq!(world.ctx.inner.systems.len(), 2);
    assert!(world.value::<A, bool>(|v| *v == Value::Plain));
    let unloaded = world.dropped.clone();
    assert!(!unloaded.contains(&a.key));
    // Once its last dependent is gone, the dependency can be added itself.
    world.flush(vec![notify::remove_system(b), notify::add_system(a)]);
    assert_eq!(world.ctx.inner.systems.len(), 1);
    let ab = Arc::new(AtomicUsize::new(0));
    let event = world.event(Payload::Count(ab.clone()));
    world.flush(vec![event]);
    assert_eq!(ab.load(Ordering::Relaxed), 1);
}

/// Resetting a system replaces it and its dependents, and nothing else.
#[test]
fn reset_replaces_dependents() {
    let mut world = World::new();
    let (e, f, g, c) = (
        world.key::<E>(),
        world.key::<F>(),
        world.key::<G>(),
        world.key::<C>(),
    );
    world.flush(vec![notify::add_system(g), notify::add_system(c)]);
    world.created.clear();
    world.dropped.clear();
    world.flush(vec![notify::reset_system(f)]);
    assert_eq!(world.dropped, vec![g.key, f.key]);
    assert_eq!(world.created, vec![f.key, g.key]);
    world.created.clear();
    world.dropped.clear();
    world.flush(vec![notify::reset_system(e)]);
    assert_eq!(world.dropped, vec![g.key, f.key, e.key]);
    assert_eq!(world.created, vec![e.key, f.key, g.key]);
}

/// A delayed event is processed after those that were queued behind it.
#[test]
fn delayed_events_come_last() {
    let mut world = World::new();
    let k = world.key::<K>();
    let nine = world.event(Payload::I32(9));
    let one = world.event(Payload::I32(1));
    let two = world.event(Payload::I32(2));
    world.flush(vec![
        notify::add_system(k),
        notify::delayed(notify::delayed(nine)),
        one,
        two,
    ]);
    assert!(world.value::<K, bool>(|k| *k == Value::Number(9)));
}

/// Events that were raised outside of a cycle come before those of the next one.
#[test]
fn raised_events_come_first() {
    let mut world = World::new();
    let k = world.key::<K>();
    world.flush(vec![notify::add_system(k)]);
    world.raise(Payload::I32(1), 7);
    world.raise(Payload::I32(2), MAIN);
    let three = world.event(Payload::I32(3));
    world.flush(vec![three]);
    assert!(world.value::<K, bool>(|k| *k == Value::Number(3)));
}

/// Each reason for which a request cannot be carried out.
#[test]
fn requests_are_refused() {
    let mut world = World::new();
    let (a, b, c) = (world.key::<A>(), world.key::<B>(), world.key::<C>());
    let unknown = ConstTypeId { key: 99 };
    let check = |world: &World, event: EventValue| world.ctx.check_request(&event);
    assert_eq!(check(&world, notify::add_system(unknown)), Err(RequestError::Unknown));
    assert_eq!(check(&world, notify::remove_system(a)), Err(RequestError::NotLoaded));
    assert_eq!(check(&world, notify::reset_system(a)), Err(RequestError::NotLoaded));
    assert_eq!(check(&world, notify::add_system(b)), Ok(()));
    world.flush(vec![notify::add_system(b)]);
    assert_eq!(check(&world, notify::add_system(b)), Err(RequestError::AlreadyPresent));
    assert_eq!(check(&world, notify::remove_system(a)), Err(RequestError::NotAdded));
    // What was loaded as a dependency is present, too.
    assert_eq!(check(&world, notify::add_system(a)), Err(RequestError::AlreadyPresent));
    assert_eq!(check(&world, notify::remove_system(b)), Ok(()));
    assert_eq!(check(&world, notify::reset_system(a)), Ok(()));
    // A list of dependencies that holds a system twice, and one that leads to such a list.
    let twice = world.register::<u8>(&[(c, false), (c, true)], &[], true);
    let outer = world.register::<u16>(&[(a, false), (twice, false)], &[], true);
    assert_eq!(
        check(&world, notify::add_system(twice)),
        Err(RequestError::DuplicateDependencies)
    );
    assert_eq!(
        check(&world, notify::add_system(outer)),
        Err(RequestError::DuplicateDependencies)
    );
}

/// Each answer to whether a dependency may be obtained.
#[test]
fn dependencies_are_guarded() {
    let mut world = World::new();
    let (a, b, h, j, e, f) = (
        world.key::<A>(),
        world.key::<B>(),
        world.key::<H>(),
        world.key::<J>(),
        world.key::<E>(),
        world.key::<F>(),
    );
    world.flush(vec![
        notify::add_system(b),
        notify::add_system(j),
        notify::add_system(f),
    ]);
    let inner = &world.ctx.inner;
    let of_b = GeeseContextHandle::new(b);
    assert_eq!(of_b.permits(inner, a, false, 5), DependencyAccess::Allowed);
    assert_eq!(of_b.permits(inner, a, true, 5), DependencyAccess::Immutable);
    assert_eq!(of_b.permits(inner, h, false, 5), DependencyAccess::Undeclared);
    let of_j = GeeseContextHandle::new(j);
    assert_eq!(of_j.permits(inner, h, false, 5), DependencyAccess::CrossThread);
    assert_eq!(of_j.permits(inner, h, false, MAIN), DependencyAccess::Allowed);
    let of_f = GeeseContextHandle::new(f);
    assert_eq!(of_f.permits(inner, e, true, 5), DependencyAccess::Allowed);
}
