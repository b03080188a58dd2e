//! Compaction of the systems that remain after some have been removed.
use crate::bits::lemma_ones_before_monotonic;
use crate::bits::lemma_positions;
use crate::bits::ones_before;
use crate::bits::positions_of;
use crate::bits::Bits;
use crate::const_type_id::ConstTypeId;
use crate::context::fits;
use crate::context::handle_wf;
use crate::context::key_at;
use crate::context::lemma_fits;
use crate::context::links_of;
use crate::context::ContextInner;
use crate::event_map::all_responding;
use crate::flags::SystemFlagsList;
use crate::graph::lemma_reaches_direct;
use crate::graph::lemma_reaches_renumbered;
use crate::graph::reaches;
use crate::graph::renumbered;
use crate::graph::steps;
use crate::instantiation::into_slots;
use crate::instantiation::lemma_placed_graph;
use crate::instantiation::lemma_placed_rows;
use crate::instantiation::lemma_placed_step;
use crate::instantiation::lemma_rows_extended;
use crate::maps::map_get;
use crate::maps::map_get_mut;
use crate::system::ContextHandleInner;
use crate::system::SystemHolder;
use crate::system::SystemInitializer;
use crate::tables::lemma_row_joined_step;
use crate::tables::lemma_row_reaches;
use crate::tables::row_joined;
use crate::tables::rows_clear;
use crate::tables::rows_reach;
use vstd::prelude::*;

verus! {

/// Computes the new system ID from the set of remaining systems in the bitmap.
pub fn compact_system_id(system: u16, remaining_systems: &Bits) -> (id: u16)
    requires
        system <= remaining_systems@.len(),
    ensures
        id == ones_before(remaining_systems@, system as int),
{
    proof {
        lemma_ones_before_monotonic(remaining_systems@, 0, system as int);
    }
    remaining_systems.count_ones_before(system as usize) as u16
}

/// The IDs that systems have after compaction.
pub open spec fn compacted(ids: Seq<u16>, connected: Seq<bool>) -> Seq<u16> {
    Seq::new(ids.len(), |k: int| ones_before(connected, ids[k] as int) as u16)
}

/// Updates the system handle's dependency maps using the connectivity bitmap after some systems
/// have been dropped.
pub(crate) fn compact_transitive_dependencies(
    handle: &mut ContextHandleInner,
    connected: &Bits,
    old_transitive_dependencies_mut: &Bits,
    transitive_dependencies: &mut SystemFlagsList,
    transitive_dependencies_mut: &mut SystemFlagsList,
)
    requires
        old(transitive_dependencies).wf(),
        old(transitive_dependencies_mut).wf(),
        old(transitive_dependencies).size() == old(transitive_dependencies_mut).size(),
        old(handle).id < old(transitive_dependencies).size(),
        old_transitive_dependencies_mut@.len() == connected@.len(),
        forall|k: int|
            0 <= k < old(handle).dependency_ids@.len() ==> (
            #[trigger] old(handle).dependency_ids@[k]) < connected@.len() && ones_before(
                connected@,
                old(handle).dependency_ids@[k] as int,
            ) < old(handle).id,
    ensures
        final(handle).id == old(handle).id,
        final(handle).dependency_ids@ == compacted(old(handle).dependency_ids@, connected@),
        row_joined(
            old(transitive_dependencies),
            final(transitive_dependencies),
            old(handle).id as int,
            final(handle).dependency_ids@,
            |k: int| true,
            final(handle).dependency_ids@.len() as int,
        ),
        row_joined(
            old(transitive_dependencies_mut),
            final(transitive_dependencies_mut),
            old(handle).id as int,
            final(handle).dependency_ids@,
            |k: int| old_transitive_dependencies_mut@[old(handle).dependency_ids@[k] as int],
            final(handle).dependency_ids@.len() as int,
        ),
{
    let id: usize = handle.id() as usize;
    let ghost old_ids = handle.dependency_ids@;
    let ghost new_ids = compacted(old_ids, connected@);
    let ghost every = |k: int| true;
    let ghost mutable = |k: int|
        old_transitive_dependencies_mut@[old(handle).dependency_ids@[k] as int];
    let ghost start = *transitive_dependencies;
    let ghost start_mut = *transitive_dependencies_mut;
    transitive_dependencies.edit_unchecked(id).set_unchecked(id, true);
    transitive_dependencies_mut.edit_unchecked(id).set_unchecked(id, true);
    assert(row_joined(&start, transitive_dependencies, id as int, new_ids, every, 0));
    assert(row_joined(&start_mut, transitive_dependencies_mut, id as int, new_ids, mutable, 0));
    let mut i: usize = 0;
    while i < handle.dependency_len()
        invariant
            id == handle.id,
            handle.id == old(handle).id,
            id < start.size(),
            start.size() == start_mut.size(),
            old_ids == old(handle).dependency_ids@,
            new_ids == compacted(old_ids, connected@),
            every == (|k: int| true),
            mutable == (|k: int|
                old_transitive_dependencies_mut@[old(handle).dependency_ids@[k] as int]),
            old_transitive_dependencies_mut@.len() == connected@.len(),
            forall|k: int|
                0 <= k < old_ids.len() ==> (#[trigger] old_ids[k]) < connected@.len()
                    && ones_before(connected@, old_ids[k] as int) < id,
            i <= old_ids.len(),
            handle.dependency_ids@.len() == old_ids.len(),
            forall|k: int| 0 <= k < i ==> #[trigger] handle.dependency_ids@[k] == new_ids[k],
            forall|k: int|
                i <= k < old_ids.len() ==> #[trigger] handle.dependency_ids@[k] == old_ids[k],
            row_joined(&start, transitive_dependencies, id as int, new_ids, every, i as int),
            row_joined(
                &start_mut,
                transitive_dependencies_mut,
                id as int,
                new_ids,
                mutable,
                i as int,
            ),
        decreases old_ids.len() - i,
    {
        let old_global_index: u16 = handle.dependency_id(i);
        assert(old_global_index == old_ids[i as int]);
        let global_index: u16 = compact_system_id(old_global_index, connected);
        assert(global_index == new_ids[i as int]);
        let ghost before = *transitive_dependencies;
        let ghost before_mut = *transitive_dependencies_mut;
        transitive_dependencies.edit_unchecked(id).or_with_unchecked(global_index as usize);
        proof {
            lemma_row_joined_step(
                &start,
                &before,
                transitive_dependencies,
                id as int,
                new_ids,
                every,
                i as int,
                true,
            );
        }
        if old_transitive_dependencies_mut.get(old_global_index as usize) {
            transitive_dependencies_mut.edit_unchecked(id).or_with_unchecked(global_index as usize);
        }
        proof {
            lemma_row_joined_step(
                &start_mut,
                &before_mut,
                transitive_dependencies_mut,
                id as int,
                new_ids,
                mutable,
                i as int,
                mutable(i as int),
            );
        }
        handle.set_dependency_id(i, global_index);
        i = i + 1;
    }
    assert(handle.dependency_ids@ =~= new_ids);
}

/// The place that a system has after compaction.
pub open spec fn new_place(connected: Seq<bool>) -> spec_fn(int) -> int {
    |i: int| ones_before(connected, i) as int
}

/// The systems that have been moved once a number of them have been.
pub open spec fn moved(connected: Seq<bool>, count: int) -> spec_fn(int) -> bool {
    |i: int| 0 <= i < connected.len() && connected[i] && ones_before(connected, i) < count
}

impl<V> ContextInner<V> {
    /// Whether the first of the remaining systems have been moved to their new places.
    pub open spec fn compacting(
        &self,
        init: &Self,
        connected: Seq<bool>,
        positions: Seq<usize>,
    ) -> bool {
        &&& self.placed(positions.len() as int)
        &&& self.same_systems(init)
        &&& forall|i: int|
            0 <= i < self.count() ==> (#[trigger] self.systems@[i]).system_id
                == init.systems@[positions[i] as int].system_id && self.systems@[i].value
                == init.systems@[positions[i] as int].value
        &&& forall|q: int|
            self.count() <= q < positions.len() ==> self.system_initializers@[key_at(
                init.systems@,
                (#[trigger] positions[q]) as int,
            )].id == positions[q]
        &&& renumbered(
            init.graph(),
            self.graph(),
            new_place(connected),
            moved(connected, self.count()),
        )
    }

    /// Moves the next of the remaining systems to its new place.
    fn place_compacted(
        &mut self,
        holder: SystemHolder<V>,
        connected: &Bits,
        old_row_mut: &Bits,
        Ghost(init): Ghost<Self>,
        Ghost(positions): Ghost<Seq<usize>>,
    )
        requires
            init.pruned(connected@),
            positions_of(connected@, positions),
            old(self).compacting(&init, connected@, positions),
            old(self).count() < positions.len(),
            holder == init.systems@[positions[old(self).count()] as int],
            old_row_mut@.len() == connected@.len(),
            forall|j: int|
                0 <= j < connected@.len() ==> #[trigger] old_row_mut@[j] == reaches(
                    init.graph(),
                    true,
                    positions[old(self).count()] as int,
                    j,
                ),
        ensures
            final(self).compacting(&init, connected@, positions),
            final(self).count() == old(self).count() + 1,
    {
        let ghost before = *self;
        let ghost catalog = self.catalog@;
        let ghost row = self.count();
        let ghost total = positions.len() as int;
        let ghost from = positions[row] as int;
        let mut holder = holder;
        let key: usize = holder.system_id.key;
        let ghost old_ids = holder.handle.dependency_ids@;
        let ghost new_ids = compacted(old_ids, connected@);
        let ghost dependencies = catalog[key as int].dependencies@;
        let id: u16 = self.systems.len() as u16;
        proof {
            lemma_fits(total);
            lemma_positions(connected@, positions, row);
            lemma_next_compacted(&init, &before, connected@, positions);
            assert(handle_wf(catalog, init.system_initializers@, init.systems@[from], from));
        }
        match map_get_mut(&mut self.system_initializers, key) {
            Some(initializer) => initializer.set_id(id),
            None => {},
        }
        let initializer = match map_get(&self.system_initializers, key) {
            Some(initializer) => *initializer,
            None => SystemInitializer::new(self.catalog.descriptor(ConstTypeId { key }), false),
        };
        let ghost initializers = self.system_initializers@;
        holder.handle.set_id(initializer.id());
        compact_transitive_dependencies(
            &mut holder.handle,
            connected,
            old_row_mut,
            &mut self.transitive_dependencies,
            &mut self.transitive_dependencies_mut,
        );
        let ghost added = holder;
        self.systems.push(holder);
        self.event_handlers.add_handlers(id, initializer.descriptor().event_handlers().as_inner());
        self.sync_systems.set(id as usize, initializer.descriptor().is_sync());
        proof {
            let links = links_of(catalog, added);
            lemma_placed_graph(catalog, before.systems@, added);
            assert forall|k: int| 0 <= k < new_ids.len() implies (#[trigger] new_ids[k]) < row
                && links[k].to == new_ids[k] by {
                assert(old_ids[k] < from);
            }
            lemma_placed_rows(
                &before.transitive_dependencies,
                &self.transitive_dependencies,
                before.graph(),
                links,
                false,
                new_ids,
                |k: int| true,
            );
            lemma_moved_step(&init, &before, self, connected@, positions, added);
            lemma_compacted_mutable(
                &init,
                &before,
                self,
                connected@,
                positions,
                added,
                |k: int| old_row_mut@[old_ids[k] as int],
            );
            assert(handle_wf(catalog, initializers, added, row)) by {
                assert forall|k: int| 0 <= k < dependencies.len() implies #[trigger]
                added.handle.dependency_ids@[k] < row && added.handle.dependency_ids@[k]
                    == initializers[dependencies[k].type_id.key].id by {
                    assert(new_ids[k] < row);
                    let dependency = dependencies[k].type_id.key;
                    assert(before.system_initializers@[dependency].id == new_ids[k]);
                    assert(key_at(before.systems@, new_ids[k] as int) == dependency);
                    assert(dependency != key);
                }
            }
            lemma_placed_step(&before, self, key, added, total);
            assert forall|i: int| 0 <= i < self.count() implies (#[trigger] self.systems@[i]).system_id
                == init.systems@[positions[i] as int].system_id && self.systems@[i].value
                == init.systems@[positions[i] as int].value by {
                if i < row {
                    assert(self.systems@[i] == before.systems@[i]);
                }
            }
            assert forall|q: int|
                self.count() <= q < positions.len() implies self.system_initializers@[key_at(
                init.systems@,
                (#[trigger] positions[q]) as int,
            )].id == positions[q] by {
                let other = key_at(init.systems@, positions[q] as int);
                assert(before.system_initializers@[other].id == positions[q]);
                assert(init.systems@[positions[q] as int].system_id.key == other);
                assert(init.system_initializers@[other].id == positions[q]);
                assert(init.system_initializers@[key].id == from);
                assert(positions[row] < positions[q]);
            }
            assert(self.system_initializers@.dom() =~= init.system_initializers@.dom());
            assert forall|other: usize| #[trigger] init.loaded(
                other,
            ) implies self.system_initializers@[other] == (SystemInitializer {
                id: self.system_initializers@[other].id,
                ..init.system_initializers@[other]
            }) by {
                assert(before.system_initializers@[other] == (SystemInitializer {
                    id: before.system_initializers@[other].id,
                    ..init.system_initializers@[other]
                }));
            }
        }
    }

    /// Compacts the set of remaining systems into a new systems array after some systems have been
    /// removed. The bitmap must hold exactly the systems that still have initializers.
    pub fn compact_remaining_systems(&mut self, connected: &Bits)
        requires
            old(self).pruned(connected@),
        ensures
            final(self).wf(),
            final(self).same_systems(old(self)),
            final(self).count() == ones_before(connected@, old(self).count()),
            forall|i: int|
                0 <= i < old(self).count() && #[trigger] connected@[i] ==> {
                    let place = ones_before(connected@, i) as int;
                    &&& place < final(self).count()
                    &&& final(self).systems@[place].system_id == old(self).systems@[i].system_id
                    &&& final(self).systems@[place].value == old(self).systems@[i].value
                },
            renumbered(
                old(self).graph(),
                final(self).graph(),
                new_place(connected@),
                |i: int| connected@[i],
            ),
    {
        let ghost init = *self;
        let ones = connected.ones();
        let ghost positions = ones@;
        let total: usize = connected.count_ones_before(connected.len());
        proof {
            lemma_positions(connected@, positions, positions.len() as int);
            lemma_ones_before_monotonic(connected@, 0, connected@.len() as int);
            lemma_total_fits(total as int, self.count());
            lemma_fits(total as int);
        }
        let mut old_mut = SystemFlagsList::new(false, total);
        std::mem::swap(&mut self.transitive_dependencies_mut, &mut old_mut);
        let mut old_systems: Vec<SystemHolder<V>> = Vec::new();
        std::mem::swap(&mut self.systems, &mut old_systems);
        let mut old_system_view = into_slots(old_systems);
        self.event_handlers.clear();
        self.sync_systems = Bits::repeat(false, total);
        self.transitive_dependencies = SystemFlagsList::new(false, total);
        proof {
            assert forall|event: ConstTypeId| #[trigger]
                self.event_handlers.entries(event) == all_responding(self.descriptors(), event) by {
                assert(self.descriptors() =~= Seq::empty());
            }
            assert forall|q: int| 0 <= q < positions.len() implies self.system_initializers@[key_at(
                init.systems@,
                (#[trigger] positions[q]) as int,
            )].id == positions[q] by {
                assert(connected@[positions[q] as int]);
                assert(handle_wf(
                    init.catalog@,
                    init.system_initializers@,
                    init.systems@[positions[q] as int],
                    positions[q] as int,
                ));
            }
        }
        let mut p: usize = 0;
        while p < ones.len()
            invariant
                init == *old(self),
                init.pruned(connected@),
                positions == ones@,
                positions_of(connected@, positions),
                p <= positions.len(),
                self.count() == p,
                self.compacting(&init, connected@, positions),
                old_mut == init.transitive_dependencies_mut,
                old_system_view@.len() == init.systems@.len(),
                forall|q: int|
                    p <= q < positions.len() ==> old_system_view@[(#[trigger] positions[q]) as int]
                        == Some(init.systems@[positions[q] as int]),
            decreases positions.len() - p,
        {
            let old_id: usize = ones[p];
            let ghost slots = old_system_view@;
            assert(positions[p as int] == old_id);
            let system_holder = old_system_view[old_id].take().unwrap();
            let old_row_mut = old_mut.get_unchecked(old_id);
            proof {
                assert forall|j: int| 0 <= j < connected@.len() implies #[trigger] old_row_mut@[j]
                    == reaches(init.graph(), true, old_id as int, j) by {
                    assert(old_mut.flag(old_id as int, j) == reaches(
                        init.graph(),
                        true,
                        old_id as int,
                        j,
                    ));
                }
            }
            self.place_compacted(
                system_holder,
                connected,
                &old_row_mut,
                Ghost(init),
                Ghost(positions),
            );
            proof {
                assert forall|q: int| p + 1 <= q < positions.len() implies old_system_view@[(
                #[trigger] positions[q]) as int] == Some(init.systems@[positions[q] as int]) by {
                    assert(positions[p as int] < positions[q]);
                    assert(slots[positions[q] as int] == Some(init.systems@[positions[q] as int]));
                }
            }
            p = p + 1;
        }
        proof {
            lemma_compaction_complete(&init, self, connected@, positions);
        }
        self.compute_sync_transitive_dependencies();
        self.compute_transitive_dependencies_bi();
    }
}

/// No more systems remain than there were.
proof fn lemma_total_fits(total: int, count: int)
    requires
        0 <= total <= count,
        fits(count),
    ensures
        fits(total),
{
    assert(total * total <= count * count) by (nonlinear_arith)
        requires
            0 <= total <= count,
    ;
}

/// A set bit comes before another one exactly if fewer bits are set before it.
pub proof fn lemma_place_order(connected: Seq<bool>, i: int, j: int)
    requires
        0 <= i < j <= connected.len(),
        connected[i],
    ensures
        ones_before(connected, i) < ones_before(connected, j),
{
    lemma_ones_before_monotonic(connected, i + 1, j);
}

/// The next of the remaining systems can be placed once those before it have been, and its
/// dependencies stand at their new places.
proof fn lemma_next_compacted<V>(
    init: &ContextInner<V>,
    current: &ContextInner<V>,
    connected: Seq<bool>,
    positions: Seq<usize>,
)
    requires
        init.pruned(connected),
        positions_of(connected, positions),
        current.compacting(init, connected, positions),
        current.count() < positions.len(),
    ensures
        ({
            let from = positions[current.count()] as int;
            let key = key_at(init.systems@, from);
            let ids = init.systems@[from].handle.dependency_ids@;
            let dependencies = init.catalog@[key as int].dependencies@;
            &&& current.placeable(key)
            &&& ids.len() == dependencies.len()
            &&& forall|k: int|
                0 <= k < ids.len() ==> {
                    &&& (#[trigger] ids[k]) < from
                    &&& connected[ids[k] as int]
                    &&& ones_before(connected, ids[k] as int) < current.count()
                    &&& current.system_initializers@[dependencies[k].type_id.key].id == ones_before(
                        connected,
                        ids[k] as int,
                    )
                    &&& key_at(current.systems@, ones_before(connected, ids[k] as int) as int)
                        == dependencies[k].type_id.key
                }
        }),
{
    let row = current.count();
    let from = positions[row] as int;
    let key = key_at(init.systems@, from);
    let ids = init.systems@[from].handle.dependency_ids@;
    let dependencies = init.catalog@[key as int].dependencies@;
    lemma_positions(connected, positions, row);
    assert(connected[from]);
    assert(handle_wf(init.catalog@, init.system_initializers@, init.systems@[from], from));
    assert(init.loaded(key));
    assert forall|k: int| 0 <= k < ids.len() implies {
        &&& (#[trigger] ids[k]) < from
        &&& connected[ids[k] as int]
        &&& ones_before(connected, ids[k] as int) < row
        &&& current.system_initializers@[dependencies[k].type_id.key].id == ones_before(
            connected,
            ids[k] as int,
        )
        &&& key_at(current.systems@, ones_before(connected, ids[k] as int) as int)
            == dependencies[k].type_id.key
    } by {
        let d = ids[k] as int;
        let dependency = init.catalog@[key as int].dependencies@[k].type_id.key;
        assert(init.system_initializers@.dom().contains(dependency));
        assert(init.loaded(dependency));
        assert(key_at(init.systems@, d) == dependency);
        assert(connected[d]);
        lemma_place_order(connected, d, from);
        assert(positions.contains(d as usize));
        let q = choose|q: int| 0 <= q < positions.len() && positions[q] == d as usize;
        lemma_positions(connected, positions, q);
        assert(current.systems@[q].system_id == init.systems@[positions[q] as int].system_id);
        assert(key_at(current.systems@, q) == dependency);
        assert(current.system_initializers@[key_at(current.systems@, q)].id == q);
    }
    assert forall|i: int| 0 <= i < current.count() implies #[trigger] key_at(current.systems@, i)
        != key by {
        assert(current.systems@[i].system_id == init.systems@[positions[i] as int].system_id);
        assert(positions[i] < positions[row]);
        assert(connected[positions[i] as int]);
        let other = key_at(init.systems@, positions[i] as int);
        assert(handle_wf(
            init.catalog@,
            init.system_initializers@,
            init.systems@[positions[i] as int],
            positions[i] as int,
        ));
        assert(init.system_initializers@[other].id == positions[i]);
        assert(init.system_initializers@[key].id == from);
    }
    assert forall|k: int| 0 <= k < current.catalog@[key as int].dependencies@.len() implies {
        let dependency = (#[trigger] current.catalog@[key as int].dependencies@[k]).type_id.key;
        &&& current.system_initializers@[dependency].id < current.count()
        &&& key_at(current.systems@, current.system_initializers@[dependency].id as int)
            == dependency
    } by {
        assert(ids[k] < from);
    }
}

/// The graph of the remaining systems follows that of all systems once one more was moved.
proof fn lemma_moved_step<V>(
    init: &ContextInner<V>,
    before: &ContextInner<V>,
    after: &ContextInner<V>,
    connected: Seq<bool>,
    positions: Seq<usize>,
    added: SystemHolder<V>,
)
    requires
        init.pruned(connected),
        positions_of(connected, positions),
        before.compacting(init, connected, positions),
        before.count() < positions.len(),
        after.catalog == before.catalog,
        after.systems@ == before.systems@.push(added),
        added.system_id == init.systems@[positions[before.count()] as int].system_id,
        added.handle.dependency_ids@ == compacted(
            init.systems@[positions[before.count()] as int].handle.dependency_ids@,
            connected,
        ),
    ensures
        renumbered(
            init.graph(),
            after.graph(),
            new_place(connected),
            moved(connected, after.count()),
        ),
{
    let row = before.count();
    let from = positions[row] as int;
    let old_graph = init.graph();
    let place = new_place(connected);
    let was = moved(connected, row);
    let is = moved(connected, row + 1);
    lemma_positions(connected, positions, row);
    lemma_next_compacted(init, before, connected, positions);
    lemma_placed_graph(before.catalog@, before.systems@, added);
    let new_graph = after.graph();
    assert forall|i: int| 0 <= i < old_graph.len() && #[trigger] is(i) implies was(i) || i
        == from by {
        if ones_before(connected, i) == row {
            if i < from {
                lemma_place_order(connected, i, from);
            } else if i > from {
                lemma_place_order(connected, from, i);
            }
        }
    }
    assert forall|i: int| 0 <= i < old_graph.len() && is(i) implies 0 <= #[trigger] place(i)
        < new_graph.len() by {}
    assert forall|i: int, j: int|
        0 <= i < j < old_graph.len() && is(i) && is(j) implies #[trigger] place(i)
        < #[trigger] place(j) by {
        lemma_place_order(connected, i, j);
    }
    assert forall|i: int| 0 <= i < old_graph.len() && is(i) implies (
    #[trigger] new_graph[place(i)]).len() == old_graph[i].len() by {
        if was(i) {
            assert(new_graph[place(i)] == before.graph()[place(i)]);
        } else {
            assert(i == from);
        }
    }
    assert forall|i: int, k: int|
        0 <= i < old_graph.len() && is(i) && 0 <= k < old_graph[i].len() implies {
        &&& is((#[trigger] old_graph[i][k]).to)
        &&& new_graph[place(i)][k].to == place(old_graph[i][k].to)
        &&& new_graph[place(i)][k].mutable == old_graph[i][k].mutable
    } by {
        if was(i) {
            assert(new_graph[place(i)] == before.graph()[place(i)]);
            assert(was(old_graph[i][k].to));
        } else {
            assert(i == from);
            let ids = init.systems@[from].handle.dependency_ids@;
            assert(ids[k] < from);
            assert(old_graph[i][k].to == ids[k]);
        }
    }
}

/// The mutable dependencies of a moved system follow from the old table, which holds what it
/// reached mutably.
proof fn lemma_compacted_mutable<V>(
    init: &ContextInner<V>,
    before: &ContextInner<V>,
    after: &ContextInner<V>,
    connected: Seq<bool>,
    positions: Seq<usize>,
    added: SystemHolder<V>,
    chosen: spec_fn(int) -> bool,
)
    requires
        init.pruned(connected),
        positions_of(connected, positions),
        before.compacting(init, connected, positions),
        before.count() < positions.len(),
        after.catalog == before.catalog,
        after.systems@ == before.systems@.push(added),
        added.system_id == init.systems@[positions[before.count()] as int].system_id,
        added.handle.dependency_ids@ == compacted(
            init.systems@[positions[before.count()] as int].handle.dependency_ids@,
            connected,
        ),
        renumbered(
            init.graph(),
            after.graph(),
            new_place(connected),
            moved(connected, after.count()),
        ),
        forall|k: int|
            0 <= k < added.handle.dependency_ids@.len() ==> #[trigger] chosen(k) == reaches(
                init.graph(),
                true,
                positions[before.count()] as int,
                init.systems@[positions[before.count()] as int].handle.dependency_ids@[k] as int,
            ),
        row_joined(
            &before.transitive_dependencies_mut,
            &after.transitive_dependencies_mut,
            before.count(),
            added.handle.dependency_ids@,
            chosen,
            added.handle.dependency_ids@.len() as int,
        ),
    ensures
        rows_reach(&after.transitive_dependencies_mut, after.graph(), true, after.count()),
        rows_clear(&after.transitive_dependencies_mut, after.count()),
{
    let row = before.count();
    let from = positions[row] as int;
    let place = new_place(connected);
    let old_graph = init.graph();
    let links = links_of(before.catalog@, added);
    let old_ids = init.systems@[from].handle.dependency_ids@;
    let new_ids = added.handle.dependency_ids@;
    lemma_positions(connected, positions, row);
    lemma_next_compacted(init, before, connected, positions);
    lemma_placed_graph(before.catalog@, before.systems@, added);
    lemma_rows_extended(&before.transitive_dependencies_mut, before.graph(), links, true);
    let graph = after.graph();
    assert(graph[row] == links);
    assert forall|k: int| 0 <= k < new_ids.len() implies (#[trigger] new_ids[k]) < row
        && graph[row][k].to == new_ids[k] by {
        assert(old_ids[k] < from);
    }
    assert forall|k: int| 0 <= k < new_ids.len() && steps(
        graph,
        true,
        row,
        k,
    ) implies #[trigger] chosen(k) by {
        assert(old_ids[k] < from);
        assert(old_graph[from][k].to == old_ids[k]);
        assert(steps(old_graph, true, from, k));
        lemma_reaches_direct(old_graph, true, from, k);
    }
    assert forall|k: int| 0 <= k < new_ids.len() && #[trigger] chosen(k) implies reaches(
        graph,
        true,
        row,
        new_ids[k] as int,
    ) by {
        assert(old_ids[k] < from);
        lemma_reaches_renumbered(
            old_graph,
            graph,
            place,
            moved(connected, row + 1),
            true,
            from,
            old_ids[k] as int,
        );
    }
    lemma_row_reaches(
        &before.transitive_dependencies_mut,
        &after.transitive_dependencies_mut,
        graph,
        true,
        row,
        new_ids,
        chosen,
    );
}

/// Once every remaining system was moved, the numbering is complete.
proof fn lemma_compaction_complete<V>(
    init: &ContextInner<V>,
    current: &ContextInner<V>,
    connected: Seq<bool>,
    positions: Seq<usize>,
)
    requires
        init.pruned(connected),
        positions_of(connected, positions),
        current.compacting(init, connected, positions),
        current.count() == positions.len(),
    ensures
        current.structured(),
        renumbered(
            init.graph(),
            current.graph(),
            new_place(connected),
            |i: int| connected[i],
        ),
        forall|i: int|
            0 <= i < init.count() && #[trigger] connected[i] ==> {
                let place = ones_before(connected, i) as int;
                &&& place < current.count()
                &&& current.systems@[place].system_id == init.systems@[i].system_id
                &&& current.systems@[place].value == init.systems@[i].value
            },
{
    let all = |i: int| connected[i];
    let done = moved(connected, current.count());
    assert forall|i: int| 0 <= i < init.count() && #[trigger] connected[i] implies {
        let place = ones_before(connected, i) as int;
        &&& place < current.count()
        &&& current.systems@[place].system_id == init.systems@[i].system_id
        &&& current.systems@[place].value == init.systems@[i].value
        &&& done(i)
    } by {
        assert(positions.contains(i as usize));
        let q = choose|q: int| 0 <= q < positions.len() && positions[q] == i as usize;
        lemma_positions(connected, positions, q);
        assert(current.systems@[q].system_id == init.systems@[positions[q] as int].system_id);
    }
    assert forall|key: usize| #[trigger]
        current.system_initializers@.dom().contains(key) implies current.system_initializers@[key].id
        < current.count() && key_at(current.systems@, current.system_initializers@[key].id as int)
        == key by {
        assert(init.loaded(key));
        let i = init.system_initializers@[key].id as int;
        assert(key_at(init.systems@, i) == key);
        assert(connected[i]);
        let place = ones_before(connected, i) as int;
        assert(key_at(current.systems@, place) == key);
    }
    let old_graph = init.graph();
    let new_graph = current.graph();
    let place = new_place(connected);
    assert forall|i: int| 0 <= i < old_graph.len() && #[trigger] all(i) implies done(i) by {
        assert(connected[i]);
    }
    assert forall|i: int, k: int|
        0 <= i < old_graph.len() && all(i) && 0 <= k < old_graph[i].len() implies {
        &&& all((#[trigger] old_graph[i][k]).to)
        &&& new_graph[place(i)][k].to == place(old_graph[i][k].to)
        &&& new_graph[place(i)][k].mutable == old_graph[i][k].mutable
    } by {
        assert(done(i));
        assert(done(old_graph[i][k].to));
    }
    assert forall|i: int| 0 <= i < old_graph.len() && all(i) implies 0 <= #[trigger] place(i)
        < new_graph.len() by {
        assert(done(i));
    }
    assert forall|i: int, j: int|
        0 <= i < j < old_graph.len() && all(i) && all(j) implies #[trigger] place(i)
        < #[trigger] place(j) by {
        assert(done(i) && done(j));
    }
    assert forall|i: int| 0 <= i < old_graph.len() && all(i) implies (
    #[trigger] new_graph[place(i)]).len() == old_graph[i].len() by {
        assert(done(i));
    }
}

} // verus!
