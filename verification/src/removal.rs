//! Removal of systems that are no longer connected to a top-level system, and compaction of the
//! rest.
use crate::bits::Bits;
use crate::const_type_id::ConstTypeId;
use crate::context::fits;
use crate::context::handle_wf;
use crate::context::handles_wf;
use crate::context::initializers_wf;
use crate::context::key_at;
use crate::context::lemma_fits;
use crate::context::lemma_graph_ordered;
use crate::context::ContextInner;
use crate::graph::lemma_reaches_direct;
use crate::graph::lemma_reaches_transitive;
use crate::graph::ordered;
use crate::graph::reaches;
use crate::graph::steps;
use crate::maps::map_get;
use crate::maps::map_get_mut;
use crate::maps::map_keys;
use crate::maps::map_remove;
use crate::small::IdList;
use crate::system::SystemInitializer;
use crate::tables::rows_reach;
use vstd::prelude::*;

verus! {

/// Whether a list holds exactly those places below a bound that satisfy a condition, in descending
/// order.
pub open spec fn descending_exactly(
    ids: Seq<u16>,
    bound: int,
    condition: spec_fn(int) -> bool,
) -> bool {
    &&& forall|k: int|
        0 <= k < ids.len() ==> (#[trigger] ids[k]) < bound && condition(ids[k] as int)
    &&& forall|j: int, k: int| 0 <= j < k < ids.len() ==> ids[j] > ids[k]
    &&& forall|i: int| 0 <= i < bound && #[trigger] condition(i) ==> ids.contains(i as u16)
}

impl<V> ContextInner<V> {
    /// Whether a system is top-level, or reached from a system that is.
    pub open spec fn anchored(&self, i: int) -> bool {
        exists|key: usize| #[trigger]
            self.loaded(key) && self.system_initializers@[key].top_level && reaches(
                self.graph(),
                false,
                self.system_initializers@[key].id as int,
                i,
            )
    }

    /// Removes a system from being top-level in the dependency graph.
    pub fn remove_top_level_system(&mut self, system: ConstTypeId)
        requires
            old(self).wf(),
            old(self).loaded(system.key),
            old(self).system_initializers@[system.key].top_level,
        ensures
            final(self).wf(),
            *final(self) == (ContextInner {
                system_initializers: final(self).system_initializers,
                ..*old(self)
            }),
            final(self).system_initializers@ == old(self).system_initializers@.insert(
                system.key,
                SystemInitializer {
                    top_level: false,
                    ..old(self).system_initializers@[system.key]
                },
            ),
    {
        let ghost before = *self;
        match map_get_mut(&mut self.system_initializers, system.key) {
            Some(initializer) => initializer.set_top_level(false),
            None => {},
        }
        proof {
            lemma_top_level_irrelevant(&before, self, system.key);
        }
    }

    /// Computes the set of systems that are reachable from the top levels of the dependency graph.
    pub fn determine_connected_systems(&self) -> (connected: Bits)
        requires
            self.wf(),
        ensures
            connected@.len() == self.count(),
            forall|i: int| 0 <= i < self.count() ==> #[trigger] connected@[i] == self.anchored(i),
    {
        let ghost map = self.system_initializers@;
        proof {
            lemma_fits(self.count());
        }
        let mut connected = Bits::repeat(false, self.systems.len());
        let keys = map_keys(&self.system_initializers);
        let mut i: usize = 0;
        while i < keys.len()
            invariant
                self.wf(),
                map == self.system_initializers@,
                keys@.to_set() == map.dom(),
                i <= keys@.len(),
                connected@.len() == self.count(),
                forall|j: int|
                    0 <= j < self.count() ==> #[trigger] connected@[j] == exists|p: int|
                        0 <= p < i && map[#[trigger] keys@[p]].top_level && reaches(
                            self.graph(),
                            false,
                            map[keys@[p]].id as int,
                            j,
                        ),
            decreases keys@.len() - i,
        {
            let key: usize = keys[i];
            let ghost before = connected@;
            assert(keys@.to_set().contains(keys@[i as int]));
            match map_get(&self.system_initializers, key) {
                Some(system) => {
                    if system.top_level() {
                        let row = self.transitive_dependencies.get_unchecked(system.id() as usize);
                        connected.or_at(0, row.len(), &row);
                        proof {
                            assert forall|j: int| 0 <= j < self.count() implies row@[j] == reaches(
                                self.graph(),
                                false,
                                map[key].id as int,
                                j,
                            ) by {
                                assert(self.transitive_dependencies.flag(map[key].id as int, j)
                                    == reaches(self.graph(), false, map[key].id as int, j));
                            }
                        }
                    }
                },
                None => {},
            }
            proof {
                assert forall|j: int| 0 <= j < self.count() implies #[trigger] connected@[j]
                    == exists|p: int|
                    0 <= p < i + 1 && map[#[trigger] keys@[p]].top_level && reaches(
                        self.graph(),
                        false,
                        map[keys@[p]].id as int,
                        j,
                    ) by {
                    let was = exists|p: int|
                        0 <= p < i && map[#[trigger] keys@[p]].top_level && reaches(
                            self.graph(),
                            false,
                            map[keys@[p]].id as int,
                            j,
                        );
                    assert(before[j] == was);
                    if was {
                        let p = choose|p: int|
                            0 <= p < i && map[#[trigger] keys@[p]].top_level && reaches(
                                self.graph(),
                                false,
                                map[keys@[p]].id as int,
                                j,
                            );
                        assert(0 <= p < i + 1 && map[keys@[p]].top_level);
                    }
                    if map[keys@[i as int]].top_level && reaches(
                        self.graph(),
                        false,
                        map[keys@[i as int]].id as int,
                        j,
                    ) {
                        assert(connected@[j]);
                    }
                }
            }
            i = i + 1;
        }
        proof {
            assert forall|j: int| 0 <= j < self.count() implies #[trigger] connected@[j]
                == self.anchored(j) by {
                if connected@[j] {
                    let p = choose|p: int|
                        0 <= p < keys@.len() && map[#[trigger] keys@[p]].top_level && reaches(
                            self.graph(),
                            false,
                            map[keys@[p]].id as int,
                            j,
                        );
                    assert(keys@.to_set().contains(keys@[p]));
                    assert(self.loaded(keys@[p]));
                }
                if self.anchored(j) {
                    let key = choose|key: usize| #[trigger]
                        self.loaded(key) && self.system_initializers@[key].top_level && reaches(
                            self.graph(),
                            false,
                            self.system_initializers@[key].id as int,
                            j,
                        );
                    assert(keys@.to_set().contains(key));
                    let p = choose|p: int| 0 <= p < keys@.len() && keys@[p] == key;
                    assert(map[keys@[p]].top_level);
                }
            }
        }
        connected
    }

    /// Whether a set of systems is exactly that of the systems which still have initializers, and
    /// everything else is as it was when all had.
    pub open spec fn pruned(&self, connected: Seq<bool>) -> bool {
        &&& self.catalog.wf()
        &&& fits(self.count())
        &&& connected.len() == self.count()
        &&& initializers_wf(self.catalog@, self.system_initializers@)
        &&& forall|i: int|
            0 <= i < self.count() ==> self.loaded(#[trigger] key_at(self.systems@, i))
                == connected[i]
        &&& forall|key: usize| #[trigger]
            self.loaded(key) ==> self.system_initializers@[key].id < self.count() && key_at(
                self.systems@,
                self.system_initializers@[key].id as int,
            ) == key
        &&& ordered(self.graph())
        &&& forall|i: int|
            0 <= i < self.count() && connected[i] ==> handle_wf(
                self.catalog@,
                self.system_initializers@,
                #[trigger] self.systems@[i],
                i,
            ) && self.system_initializers@[key_at(self.systems@, i)].id == i
        &&& self.transitive_dependencies_mut.wf()
        &&& self.transitive_dependencies_mut.size() == self.count()
        &&& rows_reach(&self.transitive_dependencies_mut, self.graph(), true, self.count())
    }

    /// Lists the IDs of all systems which do not exist in the bitmap, in the order in which they must
    /// be dropped: dependents before their dependencies.
    pub fn drop_systems(&self, connected: &Bits) -> (dropped: IdList)
        requires
            self.wf(),
            connected@.len() == self.count(),
        ensures
            descending_exactly(dropped@, self.count(), |i: int| !connected@[i]),
    {
        let ghost gone = |i: int| !connected@[i];
        let zeros = connected.zeros();
        let mut dropped = IdList::new();
        let mut i: usize = zeros.len();
        while i > 0
            invariant
                self.wf(),
                connected@.len() == self.count(),
                i <= zeros@.len(),
                forall|k: int|
                    0 <= k < zeros@.len() ==> (#[trigger] zeros@[k]) < connected@.len()
                        && !connected@[zeros@[k] as int],
                dropped@.len() == zeros@.len() - i,
                forall|k: int|
                    0 <= k < dropped@.len() ==> #[trigger] dropped@[k] == zeros@[zeros@.len() - 1
                        - k],
            decreases i,
        {
            i = i - 1;
            let system: usize = zeros[i];
            dropped.push(system as u16);
        }
        proof {
            assert(descending_exactly(dropped@, self.count(), gone)) by {
                assert forall|k: int| 0 <= k < dropped@.len() implies (#[trigger] dropped@[k])
                    < self.count() && gone(dropped@[k] as int) by {
                    assert(dropped@[k] == zeros@[zeros@.len() - 1 - k]);
                }
                assert forall|j: int, k: int| 0 <= j < k < dropped@.len() implies dropped@[j]
                    > dropped@[k] by {
                    assert(dropped@[j] == zeros@[zeros@.len() - 1 - j]);
                    assert(dropped@[k] == zeros@[zeros@.len() - 1 - k]);
                }
                assert forall|p: int| 0 <= p < self.count() && #[trigger] gone(
                    p,
                ) implies dropped@.contains(p as u16) by {
                    assert(!connected@[p]);
                    assert(zeros@.contains(p as usize));
                    let k = choose|k: int| 0 <= k < zeros@.len() && zeros@[k] == p as usize;
                    assert(dropped@[zeros@.len() - 1 - k] == zeros@[k]);
                }
            }
        }
        dropped
    }

    /// Takes the initializers of all systems which do not exist in the bitmap out of the context.
    pub fn forget_systems(&mut self, connected: &Bits)
        requires
            old(self).wf(),
            connected@.len() == old(self).count(),
            forall|i: int|
                0 <= i < old(self).count() ==> #[trigger] connected@[i] == old(self).anchored(i),
        ensures
            final(self).pruned(connected@),
            *final(self) == (ContextInner {
                system_initializers: final(self).system_initializers,
                ..*old(self)
            }),
            forall|key: usize| #[trigger]
                final(self).loaded(key) <==> old(self).loaded(key)
                    && connected@[old(self).system_initializers@[key].id as int],
            forall|key: usize| #[trigger]
                final(self).loaded(key) ==> final(self).system_initializers@[key]
                    == old(self).system_initializers@[key],
    {
        let ghost before = *self;
        let ghost map = self.system_initializers@;
        let zeros = connected.zeros();
        let mut i: usize = zeros.len();
        while i > 0
            invariant
                before == *old(self),
                before.wf(),
                map == before.system_initializers@,
                connected@.len() == before.count(),
                i <= zeros@.len(),
                forall|k: int|
                    0 <= k < zeros@.len() ==> (#[trigger] zeros@[k]) < connected@.len()
                        && !connected@[zeros@[k] as int],
                *self == (ContextInner {
                    system_initializers: self.system_initializers,
                    ..before
                }),
                forall|key: usize| #[trigger]
                    self.loaded(key) <==> before.loaded(key) && !exists|k: int|
                        i <= k < zeros@.len() && #[trigger] zeros@[k] == map[key].id,
                forall|key: usize| #[trigger]
                    self.loaded(key) ==> self.system_initializers@[key] == map[key],
            decreases i,
        {
            i = i - 1;
            let system: usize = zeros[i];
            let ghost current = *self;
            let key: usize = self.systems[system].system_id.key;
            map_remove(&mut self.system_initializers, key);
            proof {
                assert(zeros@[i as int] == system);
                assert(key == key_at(before.systems@, system as int));
                assert forall|other: usize| #[trigger]
                    self.loaded(other) <==> before.loaded(other) && !exists|k: int|
                        i <= k < zeros@.len() && #[trigger] zeros@[k] == map[other].id by {
                    if before.loaded(other) {
                        assert(key_at(before.systems@, map[other].id as int) == other);
                        let was = exists|k: int|
                            i + 1 <= k < zeros@.len() && #[trigger] zeros@[k] == map[other].id;
                        let is = exists|k: int|
                            i <= k < zeros@.len() && #[trigger] zeros@[k] == map[other].id;
                        assert(current.loaded(other) == !was);
                        if other == key {
                            assert(zeros@[i as int] == map[other].id);
                            assert(is);
                        } else if is {
                            let k = choose|k: int|
                                i <= k < zeros@.len() && #[trigger] zeros@[k] == map[other].id;
                            if k == i {
                                assert(map[other].id == system);
                            } else {
                                assert(was);
                            }
                        } else if was {
                            let k = choose|k: int|
                                i + 1 <= k < zeros@.len() && #[trigger] zeros@[k] == map[other].id;
                            assert(is);
                        }
                    } else {
                        assert(!current.loaded(other));
                    }
                }
                assert forall|other: usize| #[trigger] self.loaded(
                    other,
                ) implies self.system_initializers@[other] == map[other] by {
                    assert(current.loaded(other));
                }
            }
        }
        proof {
            assert forall|key: usize| #[trigger] self.loaded(key) <==> before.loaded(key)
                && connected@[map[key].id as int] by {
                if before.loaded(key) {
                    let id = map[key].id;
                    if !connected@[id as int] {
                        assert(zeros@.contains(id as usize));
                        let k = choose|k: int| 0 <= k < zeros@.len() && zeros@[k] == id as usize;
                        assert(zeros@[k] == map[key].id);
                    }
                }
            }
            lemma_pruned(&before, self, connected@);
        }
    }
}

/// Nothing that a context keeps rests on which of its systems are top-level.
pub proof fn lemma_top_level_irrelevant<V>(
    before: &ContextInner<V>,
    after: &ContextInner<V>,
    key: usize,
)
    requires
        before.wf(),
        before.loaded(key),
        *after == (ContextInner { system_initializers: after.system_initializers, ..*before }),
        after.system_initializers@ == before.system_initializers@.insert(
            key,
            SystemInitializer {
                top_level: after.system_initializers@[key].top_level,
                ..before.system_initializers@[key]
            },
        ),
    ensures
        after.wf(),
{
    let catalog = before.catalog@;
    let old_map = before.system_initializers@;
    let new_map = after.system_initializers@;
    assert forall|other: usize| new_map.dom().contains(other) == old_map.dom().contains(other)
        && new_map[other].id == old_map[other].id && new_map[other].descriptor
        == old_map[other].descriptor by {}
    assert(initializers_wf(catalog, new_map)) by {
        assert forall|other: usize, k: int|
            #![trigger catalog[other as int].dependencies@[k]]
            new_map.dom().contains(other) && 0 <= k
                < catalog[other as int].dependencies@.len() implies new_map.dom().contains(
            catalog[other as int].dependencies@[k].type_id.key,
        ) by {
            assert(old_map.dom().contains(other));
        }
    }
    assert(handles_wf(catalog, new_map, after.systems@)) by {
        assert forall|i: int| 0 <= i < after.systems@.len() implies handle_wf(
            catalog,
            new_map,
            #[trigger] after.systems@[i],
            i,
        ) by {
            assert(handle_wf(catalog, old_map, before.systems@[i], i));
        }
    }
}

/// Where exactly the initializers of systems that are not connected have been taken out, what is
/// left holds together.
proof fn lemma_pruned<V>(before: &ContextInner<V>, after: &ContextInner<V>, connected: Seq<bool>)
    requires
        before.wf(),
        connected.len() == before.count(),
        forall|i: int| 0 <= i < before.count() ==> #[trigger] connected[i] == before.anchored(i),
        *after == (ContextInner { system_initializers: after.system_initializers, ..*before }),
        forall|key: usize| #[trigger]
            after.loaded(key) <==> before.loaded(key)
                && connected[before.system_initializers@[key].id as int],
        forall|key: usize| #[trigger]
            after.loaded(key) ==> after.system_initializers@[key]
                == before.system_initializers@[key],
    ensures
        after.pruned(connected),
{
    let catalog = before.catalog@;
    let graph = before.graph();
    let map = before.system_initializers@;
    lemma_graph_ordered(catalog, map, before.systems@);
    assert forall|i: int, k: int|
        0 <= i < before.count() && connected[i] && 0 <= k < graph[i].len() implies connected[(
    #[trigger] graph[i][k]).to] by {
        assert(before.anchored(i));
        let key = choose|key: usize| #[trigger]
            before.loaded(key) && before.system_initializers@[key].top_level && reaches(
                graph,
                false,
                before.system_initializers@[key].id as int,
                i,
            );
        assert(steps(graph, false, i, k));
        lemma_reaches_direct(graph, false, i, k);
        lemma_reaches_transitive(graph, false, map[key].id as int, i, graph[i][k].to);
        assert(before.loaded(key));
        assert(before.anchored(graph[i][k].to));
    }
    assert forall|key: usize| #[trigger] after.system_initializers@.dom().contains(key) implies key
        < catalog.len() && after.system_initializers@[key].descriptor == catalog[key as int] by {
        assert(after.loaded(key));
        assert(before.loaded(key));
    }
    assert forall|key: usize, k: int|
        #![trigger catalog[key as int].dependencies@[k]]
        after.system_initializers@.dom().contains(key) && 0 <= k
            < catalog[key as int].dependencies@.len() implies after.system_initializers@.dom().contains(
    catalog[key as int].dependencies@[k].type_id.key) by {
        assert(after.loaded(key));
        assert(before.loaded(key));
        let i = map[key].id as int;
        let dependency = catalog[key as int].dependencies@[k].type_id.key;
        assert(key_at(before.systems@, i) == key);
        assert(handle_wf(catalog, map, before.systems@[i], i));
        assert(before.systems@[i].handle.dependency_ids@[k] == map[dependency].id);
        assert(graph[i][k].to == map[dependency].id);
        assert(before.loaded(dependency));
        assert(after.loaded(dependency));
    }
    assert forall|i: int| 0 <= i < after.count() implies after.loaded(
        #[trigger] key_at(after.systems@, i),
    ) == connected[i] by {
        assert(before.loaded(key_at(before.systems@, i)));
    }
    assert forall|key: usize| #[trigger] after.loaded(key) implies after.system_initializers@[key].id
        < after.count() && key_at(after.systems@, after.system_initializers@[key].id as int)
        == key by {
        assert(before.loaded(key));
    }
    assert forall|i: int| 0 <= i < after.count() && connected[i] implies handle_wf(
        catalog,
        after.system_initializers@,
        #[trigger] after.systems@[i],
        i,
    ) && after.system_initializers@[key_at(after.systems@, i)].id == i by {
        let key = key_at(before.systems@, i);
        assert(before.loaded(key));
        assert(after.loaded(key));
        assert(handle_wf(catalog, map, before.systems@[i], i));
        let own = catalog[key as int].dependencies@;
        assert forall|k: int| 0 <= k < own.len() implies #[trigger]
        after.systems@[i].handle.dependency_ids@[k] < i
            && after.systems@[i].handle.dependency_ids@[k]
            == after.system_initializers@[own[k].type_id.key].id by {
            assert(after.system_initializers@.dom().contains(
                catalog[key as int].dependencies@[k].type_id.key,
            ));
            assert(after.loaded(own[k].type_id.key));
        }
    }
}

} // verus!
