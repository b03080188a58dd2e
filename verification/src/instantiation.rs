//! Instantiation of systems: giving IDs to the systems that have initializers, and building up what
//! the context keeps of them.
use crate::bits::Bits;
use crate::const_type_id::ConstTypeId;
use crate::context::ascending_exactly;
use crate::context::fits;
use crate::context::graph_of;
use crate::context::handle_wf;
use crate::context::handles_wf;
use crate::context::initializers_wf;
use crate::context::key_at;
use crate::context::lemma_fits;
use crate::context::links_of;
use crate::context::ContextInner;
use crate::event_map::all_responding;
use crate::event_map::responding;
use crate::flags::SystemFlagsList;
use crate::graph::lemma_reaches_direct;
use crate::graph::lemma_reaches_prefix;
use crate::graph::reaches;
use crate::graph::steps;
use crate::graph::Link;
use crate::loading::dependency_order;
use crate::maps::map_get;
use crate::maps::map_get_mut;
use crate::maps::map_len;
use crate::small::IdList;
use crate::static_eval::const_unwrap;
use crate::system::SystemHolder;
use crate::system::SystemInitializer;
use crate::system::NO_ID;
use crate::tables::lemma_row_reaches;
use crate::tables::load_transitive_dependencies;
use crate::tables::row_joined;
use crate::tables::rows_clear;
use crate::tables::rows_reach;
use crate::traits::follows;
use crate::traits::SystemDescriptor;
use fxhash::FxHashMap;
use vstd::prelude::*;

verus! {

/// Updates the system holder's ID and dependency map.
pub(crate) fn update_holder_data<V>(
    data: &mut SystemHolder<V>,
    initializers: &FxHashMap<usize, SystemInitializer>,
    state: &SystemInitializer,
)
    requires
        state.descriptor.dependencies@.len() <= usize::MAX,
        old(data).handle.dependency_ids@.len() == state.descriptor.dependencies@.len(),
        forall|k: int|
            0 <= k < state.descriptor.dependencies@.len() ==> initializers@.dom().contains(
                (#[trigger] state.descriptor.dependencies@[k]).type_id.key,
            ),
    ensures
        final(data).system_id == old(data).system_id,
        final(data).value == old(data).value,
        final(data).handle.id == state.id,
        final(data).handle.dependency_ids@ == Seq::new(
            state.descriptor.dependencies@.len(),
            |k: int| initializers@[state.descriptor.dependencies@[k].type_id.key].id,
        ),
{
    let ghost list = state.descriptor.dependencies@;
    data.handle.set_id(state.id());
    let mut index: usize = 0;
    while index < state.descriptor().dependency_len()
        invariant
            list == state.descriptor.dependencies@,
            list.len() <= usize::MAX,
            forall|k: int|
                0 <= k < list.len() ==> initializers@.dom().contains(
                    (#[trigger] list[k]).type_id.key,
                ),
            index <= list.len(),
            data.system_id == old(data).system_id,
            data.value == old(data).value,
            data.handle.id == state.id,
            data.handle.dependency_ids@.len() == list.len(),
            forall|k: int|
                0 <= k < index ==> #[trigger] data.handle.dependency_ids@[k]
                    == initializers@[list[k].type_id.key].id,
        decreases list.len() - index,
    {
        let dependency = const_unwrap(state.descriptor().dependencies().as_inner().get(index));
        assert(list[index as int].type_id == dependency.type_id);
        let id: u16 = match map_get(initializers, dependency.dependency_id().key) {
            Some(initializer) => initializer.id(),
            None => NO_ID,
        };
        data.handle.set_dependency_id(index, id);
        index = index + 1;
    }
    assert(data.handle.dependency_ids@ =~= Seq::new(
        list.len(),
        |k: int| initializers@[list[k].type_id.key].id,
    ));
}

impl<V> ContextInner<V> {
    /// Whether the systems that have been placed so far, out of a total, are all accounted for.
    pub open spec fn placed(&self, total: int) -> bool {
        &&& self.catalog.wf()
        &&& initializers_wf(self.catalog@, self.system_initializers@)
        &&& fits(total)
        &&& self.count() <= total
        &&& forall|i: int|
            0 <= i < self.count() ==> self.loaded(#[trigger] key_at(self.systems@, i))
                && self.system_initializers@[key_at(self.systems@, i)].id == i
        &&& handles_wf(self.catalog@, self.system_initializers@, self.systems@)
        &&& forall|i: int, k: int|
            0 <= i < self.count() && 0 <= k < self.systems@[i].handle.dependency_ids@.len()
                ==> key_at(
                self.systems@,
                (#[trigger] self.systems@[i].handle.dependency_ids@[k]) as int,
            ) == self.catalog@[key_at(self.systems@, i) as int].dependencies@[k].type_id.key
        &&& self.transitive_dependencies.wf()
        &&& self.transitive_dependencies.size() == total
        &&& rows_reach(&self.transitive_dependencies, self.graph(), false, self.count())
        &&& rows_clear(&self.transitive_dependencies, self.count())
        &&& self.transitive_dependencies_mut.wf()
        &&& self.transitive_dependencies_mut.size() == total
        &&& rows_reach(&self.transitive_dependencies_mut, self.graph(), true, self.count())
        &&& rows_clear(&self.transitive_dependencies_mut, self.count())
        &&& self.sync_systems@.len() == total
        &&& forall|i: int|
            0 <= i < self.count() ==> #[trigger] self.sync_systems@[i]
                == self.descriptors()[i].sync
        &&& self.dispatching()
    }

    /// Whether a system type can be placed next: it has an initializer, has not been placed, and
    /// the systems that it depends on have been.
    pub open spec fn placeable(&self, key: usize) -> bool {
        let dependencies = self.catalog@[key as int].dependencies@;
        &&& self.loaded(key)
        &&& forall|i: int| 0 <= i < self.count() ==> #[trigger] key_at(self.systems@, i) != key
        &&& forall|k: int|
            0 <= k < dependencies.len() ==> {
                let dependency = (#[trigger] dependencies[k]).type_id.key;
                &&& self.system_initializers@[dependency].id < self.count()
                &&& key_at(self.systems@, self.system_initializers@[dependency].id as int)
                    == dependency
            }
    }

    /// Gives the next ID to a system, and adds its holder to the systems.
    fn place_system(&mut self, key: usize, holder: SystemHolder<V>, Ghost(total): Ghost<int>)
        requires
            old(self).placed(total),
            old(self).count() < total,
            old(self).placeable(key),
            holder.system_id.key == key,
            holder.handle.dependency_ids@.len() == old(
                self,
            ).catalog@[key as int].dependencies@.len(),
        ensures
            final(self).placed(total),
            final(self).catalog == old(self).catalog,
            final(self).owning_thread == old(self).owning_thread,
            final(self).system_initializers@ == old(self).system_initializers@.insert(
                key,
                SystemInitializer {
                    id: old(self).count() as u16,
                    ..old(self).system_initializers@[key]
                },
            ),
            final(self).count() == old(self).count() + 1,
            forall|i: int|
                0 <= i < old(self).count() ==> #[trigger] final(self).systems@[i]
                    == old(self).systems@[i],
            final(self).systems@[old(self).count()].system_id.key == key,
            final(self).systems@[old(self).count()].value == holder.value,
    {
        let ghost before = *self;
        let ghost catalog = self.catalog@;
        let ghost row = self.count();
        let mut holder = holder;
        let id: u16 = self.systems.len() as u16;
        proof {
            lemma_fits(total);
            assert(follows(catalog.take(key as int), catalog[key as int]));
        }
        match map_get_mut(&mut self.system_initializers, key) {
            Some(initializer) => initializer.set_id(id),
            None => {},
        }
        let initializer = match map_get(&self.system_initializers, key) {
            Some(initializer) => *initializer,
            None => SystemInitializer::new(self.catalog.descriptor(ConstTypeId { key }), false),
        };
        let ghost initializers = self.system_initializers@;
        let ghost dependencies = catalog[key as int].dependencies@;
        proof {
            assert forall|k: int| 0 <= k < dependencies.len() implies initializers.dom().contains(
                (#[trigger] dependencies[k]).type_id.key,
            ) && dependencies[k].type_id.key != key by {
                assert(catalog[key as int].dependencies@[k].type_id.key
                    < catalog.take(key as int).len());
                assert(before.system_initializers@.dom().contains(
                    catalog[key as int].dependencies@[k].type_id.key,
                ));
            }
        }
        update_holder_data(&mut holder, &self.system_initializers, &initializer);
        proof {
            assert forall|k: int| 0 <= k < dependencies.len() implies #[trigger]
            holder.handle.dependency_ids@[k] < row && holder.handle.dependency_ids@[k]
                == initializers[dependencies[k].type_id.key].id && key_at(
                before.systems@,
                holder.handle.dependency_ids@[k] as int,
            ) == dependencies[k].type_id.key by {
                assert(dependencies[k].type_id.key != key);
            }
        }
        load_transitive_dependencies(
            &mut self.transitive_dependencies,
            &mut self.transitive_dependencies_mut,
            &holder.handle,
            initializer.descriptor().dependencies(),
        );
        let ghost added = holder;
        self.systems.push(holder);
        self.event_handlers.add_handlers(id, initializer.descriptor().event_handlers().as_inner());
        self.sync_systems.set(id as usize, initializer.descriptor().is_sync());
        proof {
            lemma_placed_graph(before.catalog@, before.systems@, added);
            lemma_placed_rows(
                &before.transitive_dependencies,
                &self.transitive_dependencies,
                before.graph(),
                links_of(catalog, added),
                false,
                added.handle.dependency_ids@,
                |k: int| true,
            );
            lemma_placed_rows(
                &before.transitive_dependencies_mut,
                &self.transitive_dependencies_mut,
                before.graph(),
                links_of(catalog, added),
                true,
                added.handle.dependency_ids@,
                |k: int| dependencies[k].mutable,
            );
            lemma_placed_step(&before, self, key, added, total);
        }
    }
}

/// All systems are accounted for after one more was placed, if its own records are right.
pub proof fn lemma_placed_step<V>(
    before: &ContextInner<V>,
    after: &ContextInner<V>,
    key: usize,
    added: SystemHolder<V>,
    total: int,
)
    requires
        before.placed(total),
        before.count() < total,
        before.placeable(key),
        added.system_id.key == key,
        after.catalog == before.catalog,
        after.system_initializers@ == before.system_initializers@.insert(
            key,
            SystemInitializer { id: before.count() as u16, ..before.system_initializers@[key] },
        ),
        after.systems@ == before.systems@.push(added),
        handle_wf(after.catalog@, after.system_initializers@, added, before.count()),
        after.transitive_dependencies.wf(),
        after.transitive_dependencies.size() == total,
        rows_reach(&after.transitive_dependencies, after.graph(), false, after.count()),
        rows_clear(&after.transitive_dependencies, after.count()),
        after.transitive_dependencies_mut.wf(),
        after.transitive_dependencies_mut.size() == total,
        rows_reach(&after.transitive_dependencies_mut, after.graph(), true, after.count()),
        rows_clear(&after.transitive_dependencies_mut, after.count()),
        after.sync_systems@ == before.sync_systems@.update(
            before.count(),
            before.catalog@[key as int].sync,
        ),
        forall|event: ConstTypeId| #[trigger]
            after.event_handlers.entries(event) == before.event_handlers.entries(event)
                + responding(
                before.catalog@[key as int].event_handlers@,
                before.count() as u16,
                event,
            ),
    ensures
        after.placed(total),
{
    let catalog = before.catalog@;
    let initializers = after.system_initializers@;
    let row = before.count();
    assert forall|k: int|
        0 <= k < catalog[key as int].dependencies@.len() implies before.system_initializers@.dom().contains(
    (#[trigger] catalog[key as int].dependencies@[k]).type_id.key)
        && catalog[key as int].dependencies@[k].type_id.key != key by {
        let dependency = catalog[key as int].dependencies@[k].type_id.key;
        let id = before.system_initializers@[dependency].id as int;
        assert(key_at(before.systems@, id) != key);
    }
    assert(handles_wf(catalog, initializers, after.systems@)) by {
        assert forall|i: int| 0 <= i < after.count() implies handle_wf(
            catalog,
            initializers,
            #[trigger] after.systems@[i],
            i,
        ) by {
            if i < row {
                assert(handle_wf(catalog, before.system_initializers@, before.systems@[i], i));
                let own = catalog[before.systems@[i].system_id.key as int].dependencies@;
                assert forall|k: int| 0 <= k < own.len() implies #[trigger]
                after.systems@[i].handle.dependency_ids@[k] < i
                    && after.systems@[i].handle.dependency_ids@[k]
                    == initializers[own[k].type_id.key].id by {
                    let d = before.systems@[i].handle.dependency_ids@[k];
                    assert(key_at(before.systems@, d as int) == own[k].type_id.key);
                    assert(own[k].type_id.key != key);
                }
            }
        }
    }
    assert forall|i: int| 0 <= i < after.count() implies after.loaded(
        #[trigger] key_at(after.systems@, i),
    ) && initializers[key_at(after.systems@, i)].id == i by {
        if i < row {
            assert(key_at(before.systems@, i) != key);
        }
    }
    assert forall|i: int, k: int|
        0 <= i < after.count() && 0 <= k
            < after.systems@[i].handle.dependency_ids@.len() implies key_at(
        after.systems@,
        (#[trigger] after.systems@[i].handle.dependency_ids@[k]) as int,
    ) == catalog[key_at(after.systems@, i) as int].dependencies@[k].type_id.key by {
        let d = after.systems@[i].handle.dependency_ids@[k] as int;
        if i < row {
            assert(handle_wf(catalog, before.system_initializers@, before.systems@[i], i));
            assert(key_at(before.systems@, before.systems@[i].handle.dependency_ids@[k] as int)
                == catalog[key_at(before.systems@, i) as int].dependencies@[k].type_id.key);
        } else {
            assert(handle_wf(catalog, initializers, added, i));
            assert(added.handle.dependency_ids@[k] < i);
            let dependency = catalog[key as int].dependencies@[k].type_id.key;
            assert(dependency != key);
            assert(key_at(before.systems@, before.system_initializers@[dependency].id as int)
                == dependency);
        }
        assert(d < row);
        assert(key_at(after.systems@, d) == key_at(before.systems@, d));
    }
    assert forall|i: int| 0 <= i < after.count() implies #[trigger] after.sync_systems@[i]
        == after.descriptors()[i].sync by {
        if i < row {
            assert(before.sync_systems@[i] == before.descriptors()[i].sync);
        }
    }
    assert forall|event: ConstTypeId| #[trigger]
        after.event_handlers.entries(event) == all_responding(after.descriptors(), event) by {
        assert(after.descriptors().drop_last() =~= before.descriptors());
        assert(before.event_handlers.entries(event) == all_responding(
            before.descriptors(),
            event,
        ));
    }
    assert forall|other: usize, k: int|
        #![trigger catalog[other as int].dependencies@[k]]
        initializers.dom().contains(other) && 0 <= k
            < catalog[other as int].dependencies@.len() implies (initializers.dom().contains(
        catalog[other as int].dependencies@[k].type_id.key,
    )) by {
        assert(before.system_initializers@.dom().contains(other));
    }
}

/// The graph of the systems, after one more system was added.
pub proof fn lemma_placed_graph<V>(
    catalog: Seq<SystemDescriptor>,
    systems: Seq<SystemHolder<V>>,
    added: SystemHolder<V>,
)
    ensures
        graph_of(catalog, systems.push(added)) == graph_of(catalog, systems).push(
            links_of(catalog, added),
        ),
{
    assert(graph_of(catalog, systems.push(added)) =~= graph_of(catalog, systems).push(
        links_of(catalog, added),
    ));
}

/// The rows of a table still hold what their systems reach when one more system is added.
pub proof fn lemma_rows_extended(
    list: &SystemFlagsList,
    graph: Seq<Seq<Link>>,
    links: Seq<Link>,
    only_mutable: bool,
)
    requires
        rows_reach(list, graph, only_mutable, graph.len() as int),
    ensures
        rows_reach(list, graph.push(links), only_mutable, graph.len() as int),
{
    let longer = graph.push(links);
    assert forall|i: int, j: int|
        0 <= i < graph.len() && 0 <= j < list.size() implies #[trigger] list.flag(i, j) == reaches(
        longer,
        only_mutable,
        i,
        j,
    ) by {
        lemma_reaches_prefix(graph, longer, only_mutable, i, j);
    }
}

/// The rows of a table hold what their systems reach, after one more system was added and the rows
/// of its dependencies were joined into its own.
pub proof fn lemma_placed_rows(
    before: &SystemFlagsList,
    after: &SystemFlagsList,
    graph: Seq<Seq<Link>>,
    links: Seq<Link>,
    only_mutable: bool,
    ids: Seq<u16>,
    chosen: spec_fn(int) -> bool,
)
    requires
        before.wf(),
        graph.len() < before.size(),
        rows_reach(before, graph, only_mutable, graph.len() as int),
        rows_clear(before, graph.len() as int),
        ids.len() == links.len(),
        forall|k: int|
            0 <= k < ids.len() ==> (#[trigger] ids[k]) < graph.len() && links[k].to == ids[k],
        forall|k: int|
            0 <= k < ids.len() ==> #[trigger] chosen(k) == (only_mutable ==> links[k].mutable),
        row_joined(before, after, graph.len() as int, ids, chosen, ids.len() as int),
    ensures
        rows_reach(after, graph.push(links), only_mutable, graph.len() as int + 1),
        rows_clear(after, graph.len() as int + 1),
{
    let longer = graph.push(links);
    let row = graph.len() as int;
    lemma_rows_extended(before, graph, links, only_mutable);
    assert forall|k: int| 0 <= k < ids.len() implies (#[trigger] ids[k]) < row
        && longer[row][k].to == ids[k] by {}
    assert forall|k: int| 0 <= k < ids.len() && #[trigger] chosen(k) implies reaches(
        longer,
        only_mutable,
        row,
        ids[k] as int,
    ) by {
        assert(ids[k] < row);
        assert(steps(longer, only_mutable, row, k));
        lemma_reaches_direct(longer, only_mutable, row, k);
    }
    lemma_row_reaches(before, after, longer, only_mutable, row, ids, chosen);
}

/// Wraps every item of a vector, so that each can be taken out on its own.
pub(crate) fn into_slots<T>(items: Vec<T>) -> (slots: Vec<Option<T>>)
    ensures
        slots@ == Seq::new(items@.len(), |i: int| Some(items@[i])),
{
    let mut slots: Vec<Option<T>> = Vec::new();
    for item in iter: items
        invariant
            iter.seq() == items@,
            slots@ == Seq::new(iter.index() as nat, |i: int| Some(items@[i])),
    {
        slots.push(Some(item));
        assert(slots@ =~= Seq::new((iter.index() + 1) as nat, |i: int| Some(items@[i])));
    }
    assert(slots@ =~= Seq::new(items@.len(), |i: int| Some(items@[i])));
    slots
}

/// Whether the value of a system has been kept where there was one, and is to be initialized where
/// there was none.
pub open spec fn carried<V>(
    initializers: Map<usize, SystemInitializer>,
    systems: Seq<SystemHolder<V>>,
    holder: SystemHolder<V>,
) -> bool {
    let old_id = initializers[holder.system_id.key].id;
    if old_id != NO_ID {
        holder.value == systems[old_id as int].value
    } else {
        holder.value.content() is None && holder.value.state() == 0
    }
}

impl<V> ContextInner<V> {
    /// Whether the systems are as they were, and initializers without IDs may have been added.
    pub open spec fn staged(&self) -> bool {
        &&& self.catalog.wf()
        &&& self.count() < NO_ID
        &&& initializers_wf(self.catalog@, self.system_initializers@)
        &&& forall|i: int|
            0 <= i < self.count() ==> self.loaded(#[trigger] key_at(self.systems@, i))
                && self.system_initializers@[key_at(self.systems@, i)].id == i
                && self.systems@[i].handle.dependency_ids@.len()
                == self.catalog@[key_at(self.systems@, i) as int].dependencies@.len()
        &&& forall|key: usize| #[trigger]
            self.loaded(key) && self.system_initializers@[key].id != NO_ID
                ==> self.system_initializers@[key].id < self.count() && key_at(
                self.systems@,
                self.system_initializers@[key].id as int,
            ) == key
    }

    /// Whether a context has the same systems as before, except that their IDs may have changed.
    pub open spec fn same_systems(&self, before: &Self) -> bool {
        &&& self.catalog == before.catalog
        &&& self.owning_thread == before.owning_thread
        &&& self.system_initializers@.dom() == before.system_initializers@.dom()
        &&& forall|key: usize| #[trigger]
            before.loaded(key) ==> self.system_initializers@[key] == (SystemInitializer {
                id: self.system_initializers@[key].id,
                ..before.system_initializers@[key]
            })
    }

    /// Instantiates all new systems added to the initializer map, appropriately resizing the
    /// context resources. Produces the IDs of the systems that must be initialized, with those of
    /// dependencies before those of dependents.
    pub fn instantiate_added_systems(&mut self) -> (to_initialize: IdList)
        requires
            old(self).staged(),
            old(self).unborrowed(),
            fits(old(self).system_initializers@.dom().len() as int),
        ensures
            final(self).wf(),
            final(self).same_systems(old(self)),
            forall|i: int|
                0 <= i < final(self).count() ==> carried(
                    old(self).system_initializers@,
                    old(self).systems@,
                    #[trigger] final(self).systems@[i],
                ),
            ascending_exactly(
                to_initialize@,
                final(self).count(),
                |i: int|
                    old(self).system_initializers@[key_at(final(self).systems@, i)].id == NO_ID,
            ),
    {
        let ghost init = *self;
        let ghost map0 = self.system_initializers@;
        let ghost systems0 = self.systems@;
        let total: usize = map_len(&self.system_initializers);
        let order = self.topological_sort_systems();
        proof {
            lemma_order_len(map0.dom(), order@);
            lemma_fits(total as int);
        }
        let mut old_systems: Vec<SystemHolder<V>> = Vec::new();
        std::mem::swap(&mut self.systems, &mut old_systems);
        let mut old_system_view = into_slots(old_systems);
        let mut to_initialize = IdList::new();
        self.event_handlers.clear();
        self.sync_systems = Bits::repeat(false, total);
        self.transitive_dependencies = SystemFlagsList::new(false, total);
        self.transitive_dependencies_mut = SystemFlagsList::new(false, total);
        let ghost fresh = |i: int| map0[order@[i]].id == NO_ID;
        let mut p: usize = 0;
        proof {
            assert forall|event: ConstTypeId| #[trigger]
                self.event_handlers.entries(event) == all_responding(self.descriptors(), event) by {
                assert(self.descriptors() =~= Seq::empty());
            }
            assert forall|q: int|
                0 <= q < total && map0[#[trigger] order@[q]].id
                    != NO_ID implies old_system_view@[map0[order@[q]].id as int] == Some(
                systems0[map0[order@[q]].id as int],
            ) by {
                assert(order@.contains(order@[q]));
                assert(init.loaded(order@[q]));
            }
        }
        while p < total
            invariant
                init == *old(self),
                init.staged(),
                init.unborrowed(),
                map0 == init.system_initializers@,
                systems0 == init.systems@,
                order@.len() == total,
                dependency_order(init.catalog@, map0, order@),
                p <= total,
                self.placed(total as int),
                self.count() == p,
                self.same_systems(&init),
                forall|i: int| 0 <= i < p ==> #[trigger] key_at(self.systems@, i) == order@[i],
                forall|q: int|
                    p <= q < total ==> self.system_initializers@[#[trigger] order@[q]].id
                        == map0[order@[q]].id,
                old_system_view@.len() == systems0.len(),
                forall|q: int|
                    p <= q < total && map0[#[trigger] order@[q]].id != NO_ID
                        ==> old_system_view@[map0[order@[q]].id as int] == Some(
                        systems0[map0[order@[q]].id as int],
                    ),
                forall|i: int| 0 <= i < p ==> carried(map0, systems0, #[trigger] self.systems@[i]),
                fresh == (|i: int| map0[order@[i]].id == NO_ID),
                ascending_exactly(to_initialize@, p as int, fresh),
            decreases total - p,
        {
            let key: usize = order[p];
            let ghost current = *self;
            let ghost slots = old_system_view@;
            let ghost ids = to_initialize@;
            assert(order@.contains(key));
            assert(init.loaded(key));
            let initializer = match map_get(&self.system_initializers, key) {
                Some(initializer) => *initializer,
                None => SystemInitializer::new(self.catalog.descriptor(ConstTypeId { key }), false),
            };
            let old_id: u16 = initializer.id();
            proof {
                assert(old_id == map0[order@[p as int]].id);
                assert(follows(init.catalog@.take(key as int), init.catalog@[key as int]));
            }
            let holder: SystemHolder<V> = if old_id < NO_ID {
                proof {
                    assert(slots[map0[order@[p as int]].id as int] is Some);
                    assert(key_at(systems0, old_id as int) == key);
                }
                old_system_view[old_id as usize].take().unwrap()
            } else {
                let descriptor = initializer.descriptor();
                to_initialize.push(p as u16);
                SystemHolder::new(descriptor.system_id(), descriptor.dependency_len())
            };
            proof {
                lemma_next_placeable(&init, self, order@, p as int);
            }
            let ghost kept = holder;
            self.place_system(key, holder, Ghost(total as int));
            proof {
                assert(self.systems@[p as int].system_id.key == key);
                assert(self.system_initializers@.dom() =~= init.system_initializers@.dom());
                assert forall|other: usize| #[trigger] init.loaded(
                    other,
                ) implies self.system_initializers@[other] == (SystemInitializer {
                    id: self.system_initializers@[other].id,
                    ..map0[other]
                }) by {
                    assert(current.system_initializers@[other] == (SystemInitializer {
                        id: current.system_initializers@[other].id,
                        ..map0[other]
                    }));
                }
                assert forall|i: int| 0 <= i < p + 1 implies #[trigger] key_at(self.systems@, i)
                    == order@[i] by {
                    if i < p {
                        assert(key_at(current.systems@, i) == order@[i]);
                        assert(self.systems@[i] == current.systems@[i]);
                    }
                }
                assert forall|q: int| p + 1 <= q < total implies self.system_initializers@[
                    #[trigger] order@[q]
                ].id == map0[order@[q]].id by {
                    assert(order@[q] != order@[p as int]);
                    assert(current.system_initializers@[order@[q]].id == map0[order@[q]].id);
                }
                assert forall|q: int|
                    p + 1 <= q < total && map0[#[trigger] order@[q]].id
                        != NO_ID implies old_system_view@[map0[order@[q]].id as int] == Some(
                    systems0[map0[order@[q]].id as int],
                ) by {
                    assert(order@[q] != order@[p as int]);
                    assert(order@.contains(order@[q]));
                    assert(init.loaded(order@[q]));
                    assert(key_at(systems0, map0[order@[q]].id as int) == order@[q]);
                    assert(slots[map0[order@[q]].id as int] == Some(
                        systems0[map0[order@[q]].id as int],
                    ));
                }
                assert forall|i: int| 0 <= i < p + 1 implies carried(
                    map0,
                    systems0,
                    #[trigger] self.systems@[i],
                ) by {
                    if i < p {
                        assert(self.systems@[i] == current.systems@[i]);
                        assert(carried(map0, systems0, current.systems@[i]));
                    } else {
                        assert(self.systems@[i].value == kept.value);
                    }
                }
                lemma_ascending_step(to_initialize@, p as int, fresh, ids);
            }
            p = p + 1;
        }
        proof {
            lemma_all_placed(self, order@);
        }
        self.compute_sync_transitive_dependencies();
        self.compute_transitive_dependencies_bi();
        proof {
            let wanted = |i: int| map0[key_at(self.systems@, i)].id == NO_ID;
            assert forall|i: int| 0 <= i < self.count() implies #[trigger] wanted(i) == fresh(i) by {
                assert(key_at(self.systems@, i) == order@[i]);
            }
            assert(ascending_exactly(to_initialize@, self.count(), wanted)) by {
                assert forall|k: int| 0 <= k < to_initialize@.len() implies (
                #[trigger] to_initialize@[k]) < self.count() && wanted(to_initialize@[k] as int) by {
                    assert(wanted(to_initialize@[k] as int) == fresh(to_initialize@[k] as int));
                }
                assert forall|i: int| 0 <= i < self.count() && #[trigger] wanted(
                    i,
                ) implies to_initialize@.contains(i as u16) by {
                    assert(fresh(i));
                }
            }
        }
        to_initialize
    }
}

/// A sequence without repetitions that holds the members of a set is as long as the set is large.
pub proof fn lemma_order_len(keys: Set<usize>, order: Seq<usize>)
    requires
        order.no_duplicates(),
        forall|key: usize| #[trigger] order.contains(key) <==> keys.contains(key),
    ensures
        order.len() == keys.len(),
        keys.finite(),
{
    order.unique_seq_to_set();
    assert(order.to_set() =~= keys);
    vstd::seq_lib::seq_to_set_is_finite(order);
}

/// The next system type in dependency order can be placed once those before it have been.
proof fn lemma_next_placeable<V>(
    init: &ContextInner<V>,
    current: &ContextInner<V>,
    order: Seq<usize>,
    p: int,
)
    requires
        0 <= p < order.len(),
        dependency_order(init.catalog@, init.system_initializers@, order),
        current.same_systems(init),
        current.placed(order.len() as int),
        current.count() == p,
        forall|i: int| 0 <= i < p ==> #[trigger] key_at(current.systems@, i) == order[i],
    ensures
        current.placeable(order[p]),
{
    let key = order[p];
    assert(order.contains(key));
    assert(init.loaded(key));
    assert forall|i: int| 0 <= i < current.count() implies #[trigger] key_at(current.systems@, i)
        != key by {
        assert(key_at(current.systems@, i) == order[i]);
    }
    let dependencies = current.catalog@[key as int].dependencies@;
    assert forall|k: int| 0 <= k < dependencies.len() implies {
        let dependency = (#[trigger] dependencies[k]).type_id.key;
        &&& current.system_initializers@[dependency].id < current.count()
        &&& key_at(current.systems@, current.system_initializers@[dependency].id as int)
            == dependency
    } by {
        let dependency = init.catalog@[order[p] as int].dependencies@[k].type_id.key;
        assert(order.take(p).contains(dependency));
        let q = choose|q: int| 0 <= q < p && order.take(p)[q] == dependency;
        assert(key_at(current.systems@, q) == order[q]);
        assert(current.system_initializers@[key_at(current.systems@, q)].id == q);
    }
}

/// Once every system type in the order has been placed, the numbering is complete.
proof fn lemma_all_placed<V>(current: &ContextInner<V>, order: Seq<usize>)
    requires
        current.placed(order.len() as int),
        current.count() == order.len(),
        forall|i: int|
            0 <= i < order.len() ==> #[trigger] key_at(current.systems@, i) == order[i],
        forall|key: usize| #[trigger] order.contains(key) <==> current.loaded(key),
    ensures
        current.structured(),
{
    assert forall|key: usize| #[trigger]
        current.system_initializers@.dom().contains(key) implies current.system_initializers@[key].id
        < current.count() && key_at(current.systems@, current.system_initializers@[key].id as int)
        == key by {
        assert(current.loaded(key));
        assert(order.contains(key));
        let q = choose|q: int| 0 <= q < order.len() && order[q] == key;
        assert(key_at(current.systems@, q) == order[q]);
    }
}

/// One more place has been looked at for a list of those that satisfy a condition.
pub proof fn lemma_ascending_step(
    after: Seq<u16>,
    bound: int,
    condition: spec_fn(int) -> bool,
    before: Seq<u16>,
)
    requires
        0 <= bound < u16::MAX,
        ascending_exactly(before, bound, condition),
        after == if condition(bound) {
            before.push(bound as u16)
        } else {
            before
        },
    ensures
        ascending_exactly(after, bound + 1, condition),
{
    assert forall|i: int| 0 <= i < bound + 1 && #[trigger] condition(i) implies after.contains(
        i as u16,
    ) by {
        if i < bound {
            assert(before.contains(i as u16));
            let k = choose|k: int| 0 <= k < before.len() && before[k] == i as u16;
            assert(after[k] == i as u16);
        } else {
            assert(after[before.len() as int] == i as u16);
        }
    }
}

} // verus!
