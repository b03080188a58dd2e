//! The parts of the library, one by one.
use geese::access::SystemRef;
use geese::access::SystemRefMut;
use geese::arena_array::ArenaArray;
use geese::bits::bitmaps_exclusive;
use geese::bits::Bits;
use geese::capacity::within_limits;
use geese::compaction::compact_system_id;
use geese::const_list::ConstList;
use geese::const_type_id::ConstTypeId;
use geese::const_type_id::TypeTable;
use geese::context::ContextInner;
use geese::event_manager::EventJob;
use geese::event_manager::EventManager;
use geese::event_manager::EventManagerState;
use geese::event_map::EventHandlerEntry;
use geese::event_map::EventMap;
use geese::event_node::EventNode;
use geese::event_node::EventState;
use geese::event_node::SharedEvent;
use geese::events::EventBuffer;
use geese::events::EventQueue;
use geese::events::EventValue;
use geese::flags::SystemFlagsList;
use geese::geese_context::CloggedAction;
use geese::geese_context::FlushStep;
use geese::geese_context::GeeseContext;
use geese::geese_context::RequestError;
use geese::geese_context::WorkerStep;
use geese::notify;
use geese::on::Changed;
use geese::pipeline::EventJobError;
use geese::receiver::Event;
use geese::receiver::EventReceiver;
use geese::rw_cell::borrow_conflicts;
use geese::rw_cell::borrow_mut_conflicts;
use geese::rw_cell::ReadCell;
use geese::rw_cell::RwCell;
use geese::rw_cell::RwCellGuard;
use geese::rw_cell::RwCellGuardMut;
use geese::rw_cell::BORROWED_MUTABLY;
use geese::static_eval::const_unwrap;
use geese::store::Store;
use geese::system::ContextHandleInner;
use geese::system::SystemHolder;
use geese::system::SystemInitializer;
use geese::system::NO_ID;
use geese::thread_pool::HardwareThreadPoolInner;
use geese::thread_pool::PoolStep;
use geese::traits::dependencies;
use geese::traits::event_handlers;
use geese::traits::Dependencies;
use geese::traits::Dependency;
use geese::traits::EventHandler;
use geese::traits::EventHandlers;
use geese::traits::EventInvoker;
use geese::traits::Mut;
use geese::traits::SystemCatalog;
use geese::traits::SystemDescriptor;
use std::any::TypeId;
use std::marker::PhantomData;

fn keep<T>(value: T) -> &'static T {
    Box::leak(Box::new(value))
}

fn id(key: usize) -> ConstTypeId {
    ConstTypeId { key }
}

fn depending(systems: &[usize]) -> Dependencies {
    let mut list = dependencies();
    for system in systems {
        list = keep(list).with(id(*system));
    }
    list
}

fn handling(handlers: &[(usize, u64)]) -> EventHandlers {
    let mut list = event_handlers();
    for (event, function) in handlers {
        list = keep(list).with(EventHandler::new(id(*event), EventInvoker::new(*function)));
    }
    list
}

fn descriptor(key: usize, dependencies: Dependencies, event_handlers: EventHandlers, sync: bool) -> SystemDescriptor {
    SystemDescriptor {
        dependencies,
        event_handlers,
        send: true,
        sync,
        system_id: id(key),
    }
}

fn typed(key: usize, payload: u64) -> EventValue {
    EventValue::Typed {
        event_type: id(key),
        payload,
    }
}

fn payload_of(event: &EventValue) -> u64 {
    match event {
        EventValue::Typed { payload, .. } => *payload,
        _ => unreachable!(),
    }
}

/// A context in which the given system types are known and the given systems loaded, with their
/// keys as values.
fn context(descriptors: Vec<SystemDescriptor>, add: &[usize]) -> ContextInner<usize> {
    let mut ctx: ContextInner<usize> = ContextInner::new(1);
    for descriptor in descriptors {
        ctx.catalog.register(descriptor);
    }
    for system in add {
        for id in ctx.add_system(ConstTypeId { key: *system }).to_vec() {
            let key = ctx.system_holder(id as usize).system_id.key;
            ctx.load_system(id, key);
        }
    }
    ctx
}

/// The keys of the loaded systems, in the order of their IDs.
fn keys(ctx: &ContextInner<usize>) -> Vec<usize> {
    ctx.systems.iter().map(|holder| holder.system_id.key).collect()
}

/// The systems of a context: 0, then 1 on 0, 2 on 0 mutably, 3 on 1 and 2, and 4 on its own.
fn diamond(sync: [bool; 5]) -> Vec<SystemDescriptor> {
    vec![
        descriptor(0, dependencies(), handling(&[(0, 100)]), sync[0]),
        descriptor(1, depending(&[0]), handling(&[(0, 101)]), sync[1]),
        descriptor(2, keep(dependencies()).with(Mut(id(0))), handling(&[(0, 102)]), sync[2]),
        descriptor(3, depending(&[1, 2]), handling(&[(0, 103), (1, 203), (0, 303)]), sync[3]),
        descriptor(4, dependencies(), handling(&[(0, 104)]), sync[4]),
    ]
}

#[test]
fn list_is_read_from_its_head() {
    let empty = ConstList::new();
    let one = empty.push(1);
    let two = one.push(2);
    let three = two.push(3);
    assert_eq!(empty.len(), 0);
    assert_eq!(three.len(), 3);
    assert_eq!(three.get(0), Some(&3));
    assert_eq!(three.get(2), Some(&1));
    assert_eq!(three.get(3), None);
    let mut iterator = three.into_iter();
    assert_eq!(iterator.next(), Some(&3));
    assert_eq!(iterator.next(), Some(&2));
    assert_eq!(iterator.next(), Some(&1));
    assert_eq!(iterator.next(), None);
    assert_eq!(iterator.next(), None);
}

#[test]
fn popping_undoes_pushing() {
    let empty = ConstList::new();
    let one = empty.push("one");
    let two = one.push("two");
    let (first, rest) = two.pop();
    assert_eq!(first, Some(&"two"));
    assert_eq!(rest.len(), 1);
    assert_eq!(rest.get(0), Some(&"one"));
    let (none, same) = empty.pop();
    assert!(none.is_none());
    assert_eq!(same.len(), 0);
}

#[test]
fn unwrapping_gives_the_value() {
    assert_eq!(const_unwrap(Some(7u8)), 7);
}

#[test]
fn types_are_told_apart() {
    let mut table = TypeTable::new();
    let a = ConstTypeId::of::<u8>(&mut table);
    let b = ConstTypeId::of::<u16>(&mut table);
    let again = ConstTypeId::of::<u8>(&mut table);
    assert_eq!((a.key, b.key, again.key), (0, 1, 0));
    assert!(a.eq(&again));
    assert!(!a.eq(&b));
    assert_eq!(table.len(), 2);
    assert_eq!(table.key_of(TypeId::of::<u16>()).key, 1);
    assert_eq!(table.key_of(TypeId::of::<String>()).key, 2);
    assert_eq!(table.len(), 3);
}

#[test]
fn arrays_are_compared_by_item() {
    assert!(ConstTypeId::arrays_eq(&[1, 2, 3], &[1, 2, 3]));
    assert!(!ConstTypeId::arrays_eq(&[1, 2, 3], &[1, 2, 4]));
    assert!(ConstTypeId::arrays_eq::<0>(&[], &[]));
}

#[test]
fn dependencies_are_found_from_the_head() {
    let list = keep(keep(keep(dependencies()).with(id(4))).with(Mut(id(5)))).with(id(6));
    assert_eq!(list.as_inner().len(), 3);
    assert_eq!(list.index_of(id(6)), Some(0));
    assert_eq!(list.index_of(id(5)), Some(1));
    assert_eq!(list.index_of(id(4)), Some(2));
    assert_eq!(list.index_of(id(7)), None);
    assert!(list.as_inner().get(1).unwrap().mutable());
    assert!(!list.as_inner().get(0).unwrap().mutable());
    assert_eq!(list.as_inner().get(2).unwrap().dependency_id().key, 4);
}

#[test]
fn handlers_know_their_events() {
    let handler = EventHandler::new(id(3), EventInvoker::new(9));
    assert_eq!(handler.event_id().key, 3);
    assert_eq!(handler.handler().handler, Some(9));
    assert_eq!(EventInvoker::default().handler, None);
    let entry = EventHandlerEntry::default();
    assert_eq!(entry.handler.handler, None);
    assert_eq!(entry.system_id, 0);
}

#[test]
fn descriptors_give_their_parts() {
    let described = descriptor(0, depending(&[]), handling(&[(1, 2)]), false);
    assert_eq!(described.dependency_len(), 0);
    assert_eq!(described.dependencies().as_inner().len(), 0);
    assert_eq!(described.event_handlers().as_inner().len(), 1);
    assert!(described.is_send());
    assert!(!described.is_sync());
    assert_eq!(described.system_id().key, 0);
}

#[test]
fn duplicates_are_found_wherever_they_are() {
    let mut catalog = SystemCatalog::new();
    catalog.register(descriptor(0, dependencies(), event_handlers(), true));
    catalog.register(descriptor(1, depending(&[0]), event_handlers(), true));
    catalog.register(descriptor(2, depending(&[0, 1]), event_handlers(), true));
    catalog.register(descriptor(3, depending(&[0, 1, 0]), event_handlers(), true));
    catalog.register(descriptor(4, depending(&[3]), event_handlers(), true));
    catalog.register(descriptor(5, depending(&[2, 4]), event_handlers(), true));
    assert_eq!(catalog.len(), 6);
    let duplicates: Vec<bool> = (0..6)
        .map(|key| catalog.has_duplicate_dependencies(catalog.descriptor(id(key)).dependencies()))
        .collect();
    assert_eq!(duplicates, vec![false, false, false, true, true, true]);
}

#[test]
fn handlers_are_grouped_by_event() {
    let mut map = EventMap::new();
    map.add_handlers(0, keep(handling(&[(7, 1), (8, 2), (7, 3)])).as_inner());
    map.add_handlers(1, keep(handling(&[(7, 4)])).as_inner());
    let found: Vec<(u16, u64)> = map
        .handlers(id(7))
        .iter()
        .map(|entry| (entry.system_id, entry.handler.handler.unwrap()))
        .collect();
    // The handler that was declared last stands at the head of the list.
    assert_eq!(found, vec![(0, 3), (0, 1), (1, 4)]);
    assert_eq!(map.handlers(id(8)).len(), 1);
    assert_eq!(map.handlers(id(9)).len(), 0);
    map.clear();
    assert_eq!(map.handlers(id(7)).len(), 0);
}

#[test]
fn flags_are_kept_by_system() {
    let mut list = SystemFlagsList::new(false, 70);
    list.edit_unchecked(0).set_unchecked(69, true);
    list.edit_unchecked(1).set_unchecked(1, true);
    list.edit_unchecked(2).or_with_unchecked(0);
    list.edit_unchecked(2).or_with_unchecked(1);
    list.edit_unchecked(2).or_into_unchecked(1);
    let mut other = SystemFlagsList::new(false, 70);
    other.edit_unchecked(5).set_unchecked(6, true);
    list.bitor_assign(&other);
    let mut touched = SystemFlagsList::new(false, 70);
    touched.edit_unchecked(0).set_unchecked(1, true);
    touched.edit_unchecked(1).set_unchecked(69, true);
    touched.edit_unchecked(2).set_unchecked(68, true);
    touched.edit_unchecked(5).set_unchecked(6, true);
    // The first row only holds the last flag, the second and third rows two flags each.
    let row = |table: &SystemFlagsList, index: usize| table.get_unchecked(index);
    assert!(bitmaps_exclusive(&row(&list, 0), &row(&touched, 0)));
    assert!(!bitmaps_exclusive(&row(&list, 0), &row(&touched, 1)));
    assert!(!bitmaps_exclusive(&row(&list, 1), &row(&touched, 0)));
    assert!(!bitmaps_exclusive(&row(&list, 1), &row(&touched, 1)));
    assert!(!bitmaps_exclusive(&row(&list, 2), &row(&touched, 0)));
    assert!(!bitmaps_exclusive(&row(&list, 2), &row(&touched, 1)));
    assert!(bitmaps_exclusive(&row(&list, 2), &row(&touched, 2)));
    assert!(!bitmaps_exclusive(&row(&list, 5), &row(&touched, 5)));
    assert!(bitmaps_exclusive(&row(&list, 6), &row(&touched, 5)));
    let full = SystemFlagsList::new(true, 3);
    assert!(!bitmaps_exclusive(&row(&full, 1), &row(&full, 2)));
}

#[test]
fn reading_cells_give_their_value() {
    assert_eq!(*ReadCell::new(5).deref(), 5);
}

#[test]
fn borrows_end_with_their_guards() {
    let mut cell = RwCell::new(String::from("geese"));
    assert!(cell.free());
    let guard = cell.borrow();
    assert_eq!(guard.deref(), "geese");
    drop(guard);
    assert!(cell.free());
    let mut guard = cell.borrow_mut();
    guard.deref_mut().push('!');
    assert_eq!(guard.deref(), "geese!");
    assert_eq!(cell.borrow_state(), 0);
    assert_eq!(cell.borrow().deref(), "geese!");
    assert_eq!(cell.borrow_state(), 0);
    assert!(cell.free());
}

#[test]
fn detached_borrows_are_counted() {
    let mut cell = RwCell::new(1);
    cell.borrow().detach();
    cell.borrow().detach();
    assert_eq!(cell.borrow_state(), 2);
    assert!(!cell.free());
    assert!(borrow_mut_conflicts(cell.borrow_state()));
    // A further borrow leaves the others as they are.
    assert_eq!(*cell.borrow().deref(), 1);
    assert_eq!(cell.borrow_state(), 2);
    cell.end_borrow();
    cell.end_borrow();
    assert!(cell.free());
    cell.borrow_mut().detach();
    assert_eq!(cell.borrow_state(), BORROWED_MUTABLY);
    assert!(borrow_conflicts(cell.borrow_state()));
    cell.end_borrow_mut();
    assert!(cell.free());
}

#[test]
fn guards_can_be_narrowed() {
    let mut cell = RwCell::new((1, String::from("one")));
    let guard = RwCellGuard::map(cell.borrow(), |pair| &pair.1);
    assert_eq!(guard.deref(), "one");
    let mut guard = RwCellGuardMut::map(cell.borrow_mut(), |pair| &mut pair.0);
    *guard.deref_mut() = 2;
    assert!(cell.free());
    let guard = SystemRef::map(
        SystemRef {
            inner: cell.borrow(),
        },
        |pair| &pair.0,
    );
    assert_eq!(*guard.deref(), 2);
    let mut guard = SystemRefMut::map(
        SystemRefMut {
            inner: cell.borrow_mut(),
        },
        |pair| &mut pair.1,
    );
    guard.deref_mut().push('!');
    assert_eq!(guard.deref(), "one!");
    assert!(cell.free());
    SystemRef {
        inner: cell.borrow(),
    }
    .inner
    .detach();
    assert!(!cell.free());
}

#[test]
fn borrows_conflict() {
    assert!(!borrow_conflicts(0));
    assert!(!borrow_conflicts(65533));
    assert!(borrow_conflicts(65534));
    assert!(borrow_conflicts(BORROWED_MUTABLY));
    assert!(!borrow_mut_conflicts(0));
    assert!(borrow_mut_conflicts(1));
    assert!(borrow_mut_conflicts(BORROWED_MUTABLY));
}

#[test]
fn stores_raise_one_event_until_it_is_handled() {
    let mut store = Store::new(1);
    assert_eq!(*store.deref(), 1);
    let (raised, value) = store.deref_mut();
    assert!(raised.is_some());
    *value = 2;
    let (raised, value) = store.deref_mut();
    assert!(raised.is_none());
    *value += 1;
    store.reset_dirty(&Changed(PhantomData));
    assert_eq!(*store.deref(), 3);
    assert!(store.deref_mut().0.is_some());
}

#[test]
fn pools_tell_their_threads_what_to_do() {
    let mut pool = HardwareThreadPoolInner::new();
    assert_eq!(pool.run(), PoolStep::Wait);
    assert_eq!(pool.join(), PoolStep::Wait);
    pool.set_callback(Some(3));
    assert_eq!(pool.run(), PoolStep::Invoke(3));
    assert_eq!(pool.join(), PoolStep::Invoke(3));
    pool.set_callback(None);
    assert_eq!(pool.run(), PoolStep::Wait);
    pool.set_callback(Some(4));
    pool.decrement_counter();
    assert_eq!(pool.run(), PoolStep::Stop);
    assert_eq!(pool.join(), PoolStep::Invoke(4));
}

#[test]
fn arenas_hand_out_the_first_free_place() {
    let mut arena: ArenaArray<&str, 8, 1> = ArenaArray::new();
    assert_eq!(arena.spare_capacity(), 64);
    let (first, item) = arena.alloc_unchecked("a");
    assert_eq!((first, *item), (0, "a"));
    assert_eq!(arena.alloc_unchecked("b").0, 1);
    assert_eq!(arena.alloc_unchecked("c").0, 2);
    assert_eq!(arena.spare_capacity(), 61);
    arena.free_unchecked(1);
    assert_eq!(arena.spare_capacity(), 62);
    let (again, item) = arena.alloc_unchecked("d");
    *item = "e";
    assert_eq!(again, 1);
    assert_eq!(*arena.get_unchecked(1), "e");
    *arena.get_unchecked_mut(2) = "f";
    assert_eq!(*arena.get_unchecked(2), "f");
    assert_eq!(*arena.get_unchecked(0), "a");
}

#[test]
fn events_are_fetched_by_the_threads_that_raised_them() {
    let mut receiver = EventReceiver::new();
    for (payload, thread) in [(1, 1), (2, 2), (3, 1), (4, 3), (5, 2)] {
        receiver.send(Event::new(typed(0, payload), thread));
    }
    let payloads = |events: Vec<EventValue>| events.iter().map(payload_of).collect::<Vec<u64>>();
    assert_eq!(payloads(receiver.get(2)), vec![2, 5]);
    assert_eq!(payloads(receiver.get(2)), Vec::<u64>::new());
    receiver.send(Event::new(typed(0, 6), 1));
    assert_eq!(payloads(receiver.get(1)), vec![1, 3, 6]);
    receiver.send(Event::new(typed(0, 7), 2));
    assert_eq!(payloads(receiver.get_all()), vec![4, 7]);
    assert!(receiver.get_all().is_empty());
}

/// The flags of a list, read off the IDs that compaction by it gives.
fn flags(bits: &Bits, len: u16) -> Vec<bool> {
    (0..len)
        .map(|id| compact_system_id(id + 1, bits) > compact_system_id(id, bits))
        .collect()
}

#[test]
fn dependencies_come_before_dependents() {
    let ctx = context(diamond([true; 5]), &[3, 4]);
    let place = |key: usize| keys(&ctx).iter().position(|k| *k == key).unwrap();
    assert_eq!(ctx.systems.len(), 5);
    assert!(place(0) < place(1));
    assert!(place(0) < place(2));
    assert!(place(1) < place(3));
    assert!(place(2) < place(3));
    for key in 0..5 {
        let initializer = &ctx.system_initializers[&key];
        assert_eq!(initializer.id() as usize, place(key));
        assert_eq!(initializer.top_level(), key >= 3);
        assert_eq!(initializer.descriptor().system_id().key, key);
    }
    let handle = &ctx.systems[place(3)].handle;
    assert_eq!(handle.id() as usize, place(3));
    assert_eq!(handle.dependency_len(), 2);
    assert_eq!(handle.dependency_id(0) as usize, place(2));
    assert_eq!(handle.dependency_id(1) as usize, place(1));
}

#[test]
fn tables_follow_the_dependencies() {
    let ctx = context(diamond([true; 5]), &[3, 4]);
    let at = |key: usize| ctx.system_initializers[&key].id() as usize;
    let row = |table: &SystemFlagsList, key: usize| {
        let flags = flags(&table.get_unchecked(at(key)), 5);
        (0..5).filter(|other| flags[at(*other)]).collect::<Vec<usize>>()
    };
    assert_eq!(row(&ctx.transitive_dependencies, 0), vec![0]);
    assert_eq!(row(&ctx.transitive_dependencies, 1), vec![0, 1]);
    assert_eq!(row(&ctx.transitive_dependencies, 3), vec![0, 1, 2, 3]);
    assert_eq!(row(&ctx.transitive_dependencies_mut, 1), vec![1]);
    assert_eq!(row(&ctx.transitive_dependencies_mut, 2), vec![0, 2]);
    assert_eq!(row(&ctx.transitive_dependencies_mut, 3), vec![3]);
    assert_eq!(row(&ctx.transitive_dependencies_bi, 0), vec![0, 1, 2, 3]);
    assert_eq!(row(&ctx.transitive_dependencies_bi, 1), vec![0, 1, 3]);
    assert_eq!(row(&ctx.transitive_dependencies_bi, 4), vec![4]);
}

#[test]
fn systems_are_shareable_with_their_dependencies() {
    let ctx = context(diamond([true, false, true, true, true]), &[3, 4]);
    let shareable = flags(&ctx.sync_systems, 5);
    let at = |key: usize| shareable[ctx.system_initializers[&key].id() as usize];
    assert_eq!(
        (0..5).map(at).collect::<Vec<bool>>(),
        vec![true, false, true, false, true]
    );
}

#[test]
fn compaction_keeps_the_order() {
    let mut ctx = context(diamond([true; 5]), &[2, 3, 4]);
    let before = keys(&ctx);
    ctx.remove_top_level_system(id(3));
    let connected = ctx.determine_connected_systems();
    let staying = flags(&connected, 5);
    let stay: Vec<usize> = before
        .iter()
        .zip(&staying)
        .filter(|(_, stays)| **stays)
        .map(|(key, _)| *key)
        .collect();
    let mut sorted = stay.clone();
    sorted.sort();
    assert_eq!(sorted, vec![0, 2, 4]);
    let dropped = ctx.drop_systems(&connected).to_vec();
    assert_eq!(dropped.len(), 2);
    assert!(dropped[0] > dropped[1]);
    assert_eq!(before[dropped[0] as usize], 3);
    assert_eq!(before[dropped[1] as usize], 1);
    for id in dropped {
        let key = before[id as usize];
        assert_eq!(ctx.unload_system(id), Some(key));
    }
    ctx.forget_systems(&connected);
    ctx.compact_remaining_systems(&connected);
    assert_eq!(keys(&ctx), stay);
    assert_eq!(ctx.system_initializers.len(), 3);
    for key in stay {
        let guard = ctx.get(id(key));
        assert_eq!(*guard.deref(), Some(key));
    }
    let two = ctx.system_initializers[&2].id() as usize;
    let zero = ctx.system_initializers[&0].id();
    assert_eq!(ctx.systems[two].handle.dependency_id(0), zero);
    // What was removed can be added once more.
    let ids = ctx.add_system(id(3)).to_vec();
    assert_eq!(ids.len(), 2);
    let added: Vec<usize> = ids.iter().map(|id| keys(&ctx)[*id as usize]).collect();
    assert_eq!(added, vec![1, 3]);
}

#[test]
fn resets_reach_the_dependents() {
    let ctx = context(diamond([true; 5]), &[3, 4]);
    let keys_of = |ids: Vec<u16>| ids.iter().map(|id| keys(&ctx)[*id as usize]).collect::<Vec<usize>>();
    let reset = ctx.reset_system(id(2));
    assert_eq!(keys_of(reset.unload.to_vec()), vec![3, 2]);
    assert_eq!(keys_of(reset.load.to_vec()), vec![2, 3]);
    let mut reversed = reset.unload.to_vec();
    reversed.reverse();
    assert_eq!(reset.load.to_vec(), reversed);
    assert_eq!(ctx.clear_all_systems().to_vec(), vec![4, 3, 2, 1, 0]);
}

#[test]
fn adding_counts_what_comes_with_a_system() {
    let ctx = context(diamond([true; 5]), &[1]);
    assert_eq!(keys(&ctx), vec![0, 1]);
    assert_eq!(ctx.count_with(id(1)), 2);
    assert_eq!(ctx.count_with(id(2)), 3);
    assert_eq!(ctx.count_with(id(3)), 4);
    assert_eq!(ctx.count_with(id(4)), 3);
}

#[test]
fn limits_are_kept() {
    assert!(within_limits(0));
    assert!(within_limits(65534));
    assert!(!within_limits(65535));
    assert!(!within_limits(usize::MAX));
}

#[test]
fn holders_start_out_empty() {
    let mut holder: SystemHolder<u8> = SystemHolder::new(id(6), 2);
    assert_eq!(holder.system_id.key, 6);
    assert_eq!(holder.handle.id(), 0);
    assert_eq!(holder.handle.dependency_len(), 2);
    assert_eq!(holder.handle.dependency_id(1), 0);
    assert_eq!(holder.unload(), None);
    holder.load(5);
    assert_eq!(holder.unload(), Some(5));
    let handle: &mut ContextHandleInner = &mut holder.handle;
    handle.set_id(3);
    handle.set_dependency_id(1, 4);
    assert_eq!((handle.id(), handle.dependency_id(1)), (3, 4));
    let mut initializer = SystemInitializer::new(
        descriptor(0, dependencies(), event_handlers(), true),
        true,
    );
    assert_eq!((initializer.id(), initializer.top_level()), (NO_ID, true));
    initializer.set_id(8);
    initializer.set_top_level(false);
    assert_eq!((initializer.id(), initializer.top_level()), (8, false));
}

#[test]
fn nodes_start_out_queued() {
    let event = SharedEvent {
        batch: 0,
        event_type: id(1),
        payload: 2,
    };
    let node = EventNode::new(event, EventHandlerEntry::default());
    assert!(matches!(node.state, EventState::Queued));
    assert_eq!(node.event.unwrap().payload, 2);
    let node = EventNode::completed(notify::delayed(typed(0, 1)));
    assert!(matches!(node.state, EventState::Complete));
    assert!(node.event.is_none());
}

#[test]
fn requests_clog() {
    assert!(notify::add_system(id(0)).clogging_event());
    assert!(notify::remove_system(id(0)).clogging_event());
    assert!(notify::reset_system(id(0)).clogging_event());
    assert!(notify::flush().into_event().clogging_event());
    assert!(!typed(0, 0).clogging_event());
    assert!(!notify::delayed(notify::add_system(id(0))).clogging_event());
}

const MAIN: u64 = 1;

/// A context with the given systems loaded, in which no event is in progress.
fn settled(descriptors: Vec<SystemDescriptor>, add: &[usize]) -> GeeseContext<usize> {
    let mut ctx: GeeseContext<usize> = GeeseContext::new(MAIN);
    for descriptor in descriptors {
        ctx.register(descriptor);
    }
    ctx.flush()
        .with_many(add.iter().map(|key| notify::add_system(id(*key))).collect());
    run_through(&mut ctx);
    ctx
}

/// Runs all handlers on the main thread, and tells which they were and what they got.
fn run_through(ctx: &mut GeeseContext<usize>) -> Vec<(u64, u64)> {
    let mut ran = Vec::new();
    loop {
        assert!(ctx.has_room());
        match ctx.flush_step() {
            FlushStep::Run(job) => {
                ran.push(called(&job));
                ctx.finish_job(&job, MAIN);
            }
            FlushStep::Wait => unreachable!(),
            FlushStep::Clogged(event) => {
                assert!(ctx.check_request(&event).is_ok());
                match ctx.run_clogged_event(event) {
                    CloggedAction::Initialize(ids) => {
                        for id in ids.to_vec() {
                            let key = ctx.inner.system_holder(id as usize).system_id.key;
                            ctx.load_system(id, key);
                        }
                    }
                    CloggedAction::Nothing => {}
                    _ => unreachable!(),
                }
                ctx.resume();
            }
            FlushStep::Finished => return ran,
        }
    }
}

/// The handler that a job calls, and what it gets.
fn called(job: &EventJob) -> (u64, u64) {
    (job.handler.handler.handler.unwrap(), job.event.payload)
}

fn main_job(ctx: &mut GeeseContext<usize>) -> EventJob {
    assert!(ctx.has_room());
    match ctx.flush_step() {
        FlushStep::Run(job) => job,
        _ => unreachable!(),
    }
}

fn worker_job(ctx: &mut GeeseContext<usize>, thread: u64) -> Result<EventJob, bool> {
    assert!(ctx.has_room());
    match ctx.process_step(thread) {
        WorkerStep::Run(job) => Ok(job),
        WorkerStep::Stop { notify } => Err(notify),
        WorkerStep::Inactive => unreachable!(),
    }
}

fn loner(sync: bool) -> Vec<SystemDescriptor> {
    vec![descriptor(0, dependencies(), handling(&[(0, 100)]), sync)]
}

#[test]
fn queues_keep_their_order() {
    let mut ctx = settled(loner(true), &[0]);
    let other = EventBuffer::default().with(typed(0, 3)).with(typed(0, 4));
    let buffer = EventBuffer::default()
        .with(typed(0, 1))
        .with_boxed(typed(0, 2))
        .with_buffer(other)
        .with_many(vec![typed(0, 5), typed(0, 6)])
        .with_many_boxed(vec![typed(0, 7)]);
    ctx.flush().with(typed(0, 0)).with_buffer(buffer).with(typed(0, 8));
    let payloads: Vec<u64> = run_through(&mut ctx).iter().map(|(_, payload)| *payload).collect();
    assert_eq!(payloads, vec![0, 1, 2, 3, 4, 5, 6, 7, 8]);
}

#[test]
fn embedded_cycles_are_isolated() {
    let mut ctx = settled(loner(true), &[0]);
    let inner = notify::flush().with(notify::delayed(typed(0, 3))).with(typed(0, 2));
    ctx.flush()
        .with(typed(0, 1))
        .with(inner.into_event())
        .with(typed(0, 4));
    let payloads: Vec<u64> = run_through(&mut ctx).iter().map(|(_, payload)| *payload).collect();
    assert_eq!(payloads, vec![1, 2, 3, 4]);
}

#[test]
fn embedded_cycles_can_be_nested() {
    let mut ctx = settled(loner(true), &[0]);
    let innermost = notify::flush().with(typed(0, 3)).with(typed(0, 4));
    let inner = notify::flush()
        .with(typed(0, 2))
        .with(innermost.into_event())
        .with(typed(0, 5));
    ctx.flush().with(typed(0, 1)).with(inner.into_event()).with(typed(0, 9));
    let mut ran = Vec::new();
    loop {
        assert!(ctx.has_room());
        match ctx.flush_step() {
            FlushStep::Run(job) => {
                let (_, payload) = called(&job);
                ran.push(payload);
                assert!(ctx.busy());
                if payload == 3 {
                    ctx.raise_event(typed(0, 13), MAIN);
                }
                if payload == 2 {
                    ctx.raise_event(typed(0, 12), MAIN);
                }
                ctx.finish_job(&job, MAIN);
            }
            FlushStep::Clogged(event) => {
                assert!(!ctx.busy());
                assert!(matches!(ctx.run_clogged_event(event), CloggedAction::Nothing));
                ctx.resume();
            }
            FlushStep::Wait => unreachable!(),
            FlushStep::Finished => break,
        }
    }
    assert_eq!(ran, vec![1, 2, 3, 4, 13, 5, 12, 9]);
}

#[test]
fn dependencies_handle_events_first() {
    let mut ctx = settled(diamond([true; 5]), &[3]);
    ctx.flush().with(typed(0, 7)).with(typed(1, 8));
    let ran = run_through(&mut ctx);
    let place = |handler: u64| ran.iter().position(|(called, _)| *called == handler).unwrap();
    assert_eq!(ran.len(), 6);
    assert_eq!(place(100), 0);
    assert!(place(101) < place(303));
    assert!(place(102) < place(303));
    // The handler that was declared last stands at the head of the list.
    assert_eq!(ran[3..], [(303, 7), (103, 7), (203, 8)]);
}

#[test]
fn raised_events_follow_the_queued_ones() {
    let mut ctx = settled(loner(true), &[0]);
    ctx.flush().with(typed(0, 1)).with(typed(0, 2));
    let job = main_job(&mut ctx);
    assert_eq!(called(&job), (100, 1));
    ctx.raise_event(typed(0, 3), MAIN);
    ctx.raise_event(typed(0, 4), 9);
    ctx.finish_job(&job, MAIN);
    let payloads: Vec<u64> = run_through(&mut ctx).iter().map(|(_, payload)| *payload).collect();
    // The event that another thread raised waits for the next cycle.
    assert_eq!(payloads, vec![2, 3]);
    ctx.flush();
    assert_eq!(run_through(&mut ctx), vec![(100, 4)]);
}

#[test]
fn related_systems_wait_for_each_other() {
    let systems = vec![
        descriptor(0, dependencies(), handling(&[(0, 100)]), true),
        descriptor(1, depending(&[0]), handling(&[(0, 101)]), true),
    ];
    let mut ctx = settled(systems, &[1]);
    ctx.flush().with(typed(0, 5));
    let first = worker_job(&mut ctx, 2).ok().unwrap();
    assert_eq!(called(&first), (100, 5));
    assert_eq!(worker_job(&mut ctx, 3).err(), Some(false));
    assert!(ctx.has_room());
    assert!(matches!(ctx.flush_step(), FlushStep::Wait));
    ctx.finish_job(&first, 2);
    let second = worker_job(&mut ctx, 3).ok().unwrap();
    assert_eq!(called(&second), (101, 5));
    ctx.finish_job(&second, 3);
    assert_eq!(run_through(&mut ctx), vec![]);
}

#[test]
fn independent_systems_run_side_by_side() {
    let systems = vec![
        descriptor(0, dependencies(), event_handlers(), true),
        descriptor(1, depending(&[0]), handling(&[(0, 101)]), true),
        descriptor(2, depending(&[0]), handling(&[(0, 102)]), true),
    ];
    let mut ctx = settled(systems, &[1, 2]);
    ctx.flush().with(typed(0, 5)).with(typed(0, 6));
    let first = worker_job(&mut ctx, 2).ok().unwrap();
    let second = worker_job(&mut ctx, 3).ok().unwrap();
    let mut both = vec![called(&first), called(&second)];
    both.sort();
    assert_eq!(both, vec![(101, 5), (102, 5)]);
    // The second event waits for the handlers of the first in the same systems.
    assert_eq!(worker_job(&mut ctx, 4).err(), Some(false));
    // What is raised for the first event is queued as its handlers complete.
    ctx.raise_event(typed(0, 7), 3);
    ctx.finish_job(&second, 3);
    let third = worker_job(&mut ctx, 3).ok().unwrap();
    assert_eq!(called(&third), (called(&second).0, 6));
    ctx.raise_event(typed(0, 8), 2);
    ctx.finish_job(&first, 2);
    ctx.finish_job(&third, 3);
    let payloads: Vec<u64> = run_through(&mut ctx).iter().map(|(_, payload)| *payload).collect();
    assert_eq!(payloads, vec![6, 7, 7, 8, 8]);
}

#[test]
fn events_are_handled_once() {
    let mut ctx = settled(diamond([true, true, true, false, true]), &[3, 4]);
    let events = vec![typed(0, 1), typed(1, 2), notify::delayed(typed(0, 3)), typed(2, 4), typed(0, 5)];
    ctx.flush().with_many(events);
    let mut ran = Vec::new();
    let mut busy: Vec<(EventJob, u64)> = Vec::new();
    loop {
        for worker in [2, 3] {
            if busy.iter().all(|(_, thread)| *thread != worker) {
                assert!(ctx.has_room());
                if let WorkerStep::Run(job) = ctx.process_step(worker) {
                    busy.push((job, worker));
                }
            }
        }
        assert!(ctx.has_room());
        match ctx.flush_step() {
            FlushStep::Run(job) => {
                ran.push(called(&job));
                ctx.finish_job(&job, MAIN);
            }
            FlushStep::Wait => assert!(!busy.is_empty()),
            FlushStep::Clogged(_) => unreachable!(),
            FlushStep::Finished => break,
        }
        if let Some((job, thread)) = busy.pop() {
            ran.push(called(&job));
            if called(&job) == (104, 1) {
                ctx.raise_event(typed(1, 6), thread);
                ctx.raise_event(typed(1, 7), thread);
            }
            ctx.finish_job(&job, thread);
        }
    }
    assert!(busy.is_empty());
    // The handlers of one system see the events in order.
    let own: Vec<u64> = ran.iter().filter(|(called, _)| *called == 104).map(|(_, p)| *p).collect();
    assert_eq!(own.len(), 3);
    assert_eq!(own[0], 1);
    let raised: Vec<u64> = ran.iter().filter(|(called, _)| *called == 203).map(|(_, p)| *p).collect();
    assert_eq!(raised, vec![2, 6, 7]);
    ran.sort();
    let mut expected = Vec::new();
    for handler in [100, 101, 102, 103, 104, 303] {
        for payload in [1, 3, 5] {
            expected.push((handler, payload));
        }
    }
    expected.extend([(203, 2), (203, 6), (203, 7)]);
    expected.sort();
    assert_eq!(ran, expected);
    // Nothing is left for another cycle.
    ctx.flush();
    assert_eq!(run_through(&mut ctx), vec![]);
}

#[test]
fn delayed_events_keep_the_order_of_others() {
    let mut ctx = settled(loner(true), &[0]);
    ctx.flush()
        .with(notify::delayed(notify::delayed(typed(0, 8))))
        .with(notify::delayed(typed(0, 7)))
        .with(typed(0, 1))
        .with(typed(0, 2));
    let payloads: Vec<u64> = run_through(&mut ctx).iter().map(|(_, payload)| *payload).collect();
    assert_eq!(payloads, vec![1, 2, 7, 8]);
}

#[test]
fn mutable_dependencies_are_not_shared() {
    let systems = vec![
        descriptor(0, dependencies(), event_handlers(), true),
        descriptor(1, keep(dependencies()).with(Mut(id(0))), handling(&[(0, 101)]), true),
        descriptor(2, depending(&[0]), handling(&[(0, 102)]), true),
    ];
    let mut ctx = settled(systems, &[1, 2]);
    ctx.flush().with(typed(0, 5));
    let first = worker_job(&mut ctx, 2).ok().unwrap();
    assert_eq!(worker_job(&mut ctx, 3).err(), Some(false));
    ctx.finish_job(&first, 2);
    let second = worker_job(&mut ctx, 3).ok().unwrap();
    assert_ne!(called(&first).0, called(&second).0);
    ctx.finish_job(&second, 3);
    assert_eq!(run_through(&mut ctx), vec![]);
}

#[test]
fn some_systems_stay_on_the_main_thread() {
    let mut ctx = settled(loner(false), &[0]);
    ctx.flush().with(typed(0, 5));
    // The worker finds that only the main thread can go on.
    assert_eq!(worker_job(&mut ctx, 2).err(), Some(true));
    let job = main_job(&mut ctx);
    assert_eq!(called(&job), (100, 5));
    ctx.finish_job(&job, MAIN);
    // The worker finds that everything is done, and later that nothing is active.
    assert_eq!(worker_job(&mut ctx, 2).err(), Some(true));
    assert!(!ctx.active);
    assert!(matches!(ctx.process_step(2), WorkerStep::Inactive));
    assert!(matches!(ctx.flush_step(), FlushStep::Finished));
}

#[test]
fn managers_tell_why_there_is_no_job() {
    let ctx = context(loner(false), &[0]);
    let mut manager = EventManager::new();
    manager.configure(&ctx);
    assert!(matches!(manager.next_job(&ctx, MAIN), Err(EventJobError::Complete)));
    assert!(matches!(manager.update_state(), EventManagerState::Complete));
    manager.push_event_cycle(vec![typed(0, 1), typed(0, 2), notify::reset_system(id(0))]);
    assert!(matches!(manager.next_job(&ctx, 2), Err(EventJobError::MainThreadRequired)));
    let job = manager.next_job(&ctx, MAIN).ok().unwrap();
    assert_eq!(called(&job), (100, 1));
    assert!(matches!(manager.next_job(&ctx, MAIN), Err(EventJobError::Busy)));
    manager.receiver.send(Event::new(typed(0, 3), MAIN));
    manager.complete_job(&job, MAIN);
    let job = manager.next_job(&ctx, MAIN).ok().unwrap();
    assert_eq!(called(&job), (100, 2));
    manager.complete_job(&job, MAIN);
    // The request comes up once the nodes before it are done.
    assert!(matches!(manager.next_job(&ctx, MAIN), Err(EventJobError::Complete)));
    match manager.update_state() {
        EventManagerState::CycleClogged(EventValue::ResetSystem(system)) => assert_eq!(system.key, 0),
        _ => unreachable!(),
    }
    let job = manager.next_job(&ctx, MAIN).ok().unwrap();
    assert_eq!(called(&job), (100, 3));
    manager.complete_job(&job, MAIN);
    manager.receiver.send(Event::new(typed(0, 4), 8));
    manager.push_external_event_cycle();
    manager.gather_external_events();
    let job = manager.next_job(&ctx, MAIN).ok().unwrap();
    assert_eq!(called(&job), (100, 4));
    manager.complete_job(&job, MAIN);
    assert!(matches!(manager.next_job(&ctx, MAIN), Err(EventJobError::Complete)));
    assert!(matches!(manager.update_state(), EventManagerState::Complete));
}

#[test]
fn too_many_systems_are_refused() {
    let mut ctx: GeeseContext<u8> = GeeseContext::new(MAIN);
    let mut key = 0;
    let mut groups = Vec::new();
    for group in 0..256 {
        let leaves = if group == 0 { 252 } else { 255 };
        let mut members = Vec::new();
        for _ in 0..leaves {
            ctx.register(descriptor(key, dependencies(), event_handlers(), true));
            members.push(key);
            key += 1;
        }
        ctx.register(descriptor(key, depending(&members), event_handlers(), true));
        groups.push(key);
        key += 1;
    }
    ctx.register(descriptor(key, depending(&groups), event_handlers(), true));
    ctx.register(descriptor(key + 1, depending(&[key]), event_handlers(), true));
    assert_eq!(ctx.inner.count_with(id(key)), 65534);
    assert_eq!(ctx.check_request(&notify::add_system(id(key))), Ok(()));
    assert_eq!(ctx.inner.count_with(id(key + 1)), 65535);
    assert_eq!(
        ctx.check_request(&notify::add_system(id(key + 1))),
        Err(RequestError::TooManySystems)
    );
}
