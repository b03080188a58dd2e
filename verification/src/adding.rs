//! Adding of systems to a context, together with everything that they depend on.
use crate::const_type_id::ConstTypeId;
use crate::context::ascending_exactly;
use crate::context::fits;
use crate::context::handle_wf;
use crate::context::initializers_wf;
use crate::context::key_at;
use crate::context::ContextInner;
use crate::graph::lemma_reaches_backward;
use crate::graph::lemma_reaches_direct;
use crate::graph::lemma_reaches_last_step;
use crate::graph::lemma_reaches_transitive;
use crate::graph::ordered;
use crate::graph::reaches;
use crate::graph::steps;
use crate::graph::Link;
use crate::instantiation::carried;
use crate::maps::map_get;
use crate::small::IdList;
use crate::static_eval::const_unwrap;
use crate::system::NO_ID;
use crate::traits::follows;
use crate::traits::lemma_catalog_ordered;
use crate::traits::needs;
use crate::traits::type_graph;
use vstd::prelude::*;

verus! {

/// The keys below a bound that are marked.
pub open spec fn marked(marks: Seq<bool>, bound: int) -> Set<usize> {
    Set::new(|key: usize| key < bound && key < marks.len() && marks[key as int])
}

/// There is one more marked key below the next bound exactly if the bound is marked.
proof fn lemma_marked_step(marks: Seq<bool>, bound: int)
    requires
        0 <= bound < marks.len() <= usize::MAX,
        marked(marks, bound).finite(),
    ensures
        marked(marks, bound + 1).finite(),
        marked(marks, bound + 1).len() == marked(marks, bound).len() + if marks[bound] {
            1int
        } else {
            0int
        },
{
    if marks[bound] {
        assert(marked(marks, bound + 1) =~= marked(marks, bound).insert(bound as usize));
    } else {
        assert(marked(marks, bound + 1) =~= marked(marks, bound));
    }
}

impl<V> ContextInner<V> {
    /// The keys of the system types that are loaded once a system has been added.
    pub open spec fn keys_with(&self, system: ConstTypeId) -> Set<usize> {
        Set::new(
            |key: usize|
                self.loaded(key) || needs(self.catalog@, system.key as int, key as int),
        )
    }

    /// Whether a system can be added: its type is known, no list of dependencies that it leads to
    /// holds a system twice, it is not present already, and there is space for all that it needs.
    pub open spec fn addable(&self, system: ConstTypeId) -> bool {
        &&& system.key < self.catalog@.len()
        &&& !self.catalog.has_duplicates(self.catalog@[system.key as int].dependencies@)
        &&& !self.loaded(system.key)
        &&& fits(self.keys_with(system).len() as int)
    }

    /// Determines the number of systems that are loaded once a system has been added.
    pub fn count_with(&self, system: ConstTypeId) -> (count: usize)
        requires
            self.wf(),
            system.key < self.catalog@.len(),
        ensures
            self.keys_with(system).finite(),
            count == self.keys_with(system).len(),
    {
        let ghost catalog = self.catalog@;
        let ghost graph = type_graph(catalog);
        let len: usize = self.catalog.len();
        let mut marks: Vec<bool> = Vec::new();
        let mut i: usize = 0;
        while i < len
            invariant
                i <= len,
                marks@.len() == i,
                forall|k: int| 0 <= k < i ==> #[trigger] marks@[k] == (k == system.key),
            decreases len - i,
        {
            marks.push(i == system.key);
            i = i + 1;
        }
        proof {
            lemma_catalog_ordered(&self.catalog);
            assert forall|k: int| 0 <= k < len implies #[trigger] marks@[k] == (k == system.key
                || exists|p: int, d: int|
                len <= p && #[trigger] steps(graph, false, p, d) && graph[p][d].to == k && reaches(
                    graph,
                    false,
                    system.key as int,
                    p,
                )) by {}
        }
        let mut bound: usize = len;
        while bound > 0
            invariant
                self.wf(),
                catalog == self.catalog@,
                graph == type_graph(catalog),
                ordered(graph),
                len == catalog.len(),
                bound <= len,
                marks@.len() == len,
                forall|k: int|
                    0 <= k < len ==> #[trigger] marks@[k] == (k == system.key || exists|
                        p: int,
                        d: int,
                    |
                        bound <= p && #[trigger] steps(graph, false, p, d) && graph[p][d].to == k
                            && reaches(graph, false, system.key as int, p)),
            decreases bound,
        {
            let ghost before = marks@;
            bound = bound - 1;
            let ghost row = bound as int;
            let descriptor = self.catalog.descriptor(ConstTypeId { key: bound });
            let ghost list = descriptor.dependencies@;
            proof {
                assert(follows(catalog.take(row), catalog[row]));
                lemma_mark_is_need(graph, system.key as int, row, before);
                assert(before[row] || !before[row]);
            }
            if marks[bound] {
                let mut d: usize = 0;
                while d < descriptor.dependency_len()
                    invariant
                        list == descriptor.dependencies@,
                        list.len() <= usize::MAX,
                        len == marks@.len(),
                        before.len() == len,
                        row < len,
                        forall|k: int|
                            0 <= k < list.len() ==> (#[trigger] list[k]).type_id.key < row,
                        d <= list.len(),
                        forall|k: int|
                            0 <= k < len ==> #[trigger] marks@[k] == (before[k] || exists|e: int|
                                0 <= e < d && (#[trigger] list[e]).type_id.key == k),
                    decreases list.len() - d,
                {
                    let ghost current = marks@;
                    let dependency = const_unwrap(descriptor.dependencies().as_inner().get(d));
                    assert(list[d as int].type_id.key < row);
                    let key: usize = dependency.dependency_id().key;
                    marks[key] = true;
                    proof {
                        assert forall|k: int| 0 <= k < len implies #[trigger] marks@[k] == (
                        before[k] || exists|e: int|
                            0 <= e < d + 1 && (#[trigger] list[e]).type_id.key == k) by {
                            assert(current[k] || !current[k]);
                            if k == key {
                                assert(list[d as int].type_id.key == k);
                            }
                            if exists|e: int| 0 <= e < d && (#[trigger] list[e]).type_id.key == k {
                                let e = choose|e: int|
                                    0 <= e < d && (#[trigger] list[e]).type_id.key == k;
                                assert(0 <= e < d + 1 && list[e].type_id.key == k);
                            }
                        }
                    }
                    d = d + 1;
                }
            }
            proof {
                let need = reaches(graph, false, system.key as int, row);
                assert forall|k: int| 0 <= k < len implies #[trigger] marks@[k] == (k == system.key
                    || exists|p: int, d: int|
                    row <= p && #[trigger] steps(graph, false, p, d) && graph[p][d].to == k
                        && reaches(graph, false, system.key as int, p)) by {
                    let was = exists|p: int, d: int|
                        row + 1 <= p && #[trigger] steps(graph, false, p, d) && graph[p][d].to == k
                            && reaches(graph, false, system.key as int, p);
                    let is = exists|p: int, d: int|
                        row <= p && #[trigger] steps(graph, false, p, d) && graph[p][d].to == k
                            && reaches(graph, false, system.key as int, p);
                    assert(before[k] == (k == system.key || was));
                    if was {
                        let (p, d) = choose|p: int, d: int|
                            row + 1 <= p && #[trigger] steps(graph, false, p, d) && graph[p][d].to
                                == k && reaches(graph, false, system.key as int, p);
                        assert(row <= p && steps(graph, false, p, d));
                        assert(is);
                    }
                    if need && exists|e: int|
                        0 <= e < list.len() && (#[trigger] list[e]).type_id.key == k {
                        let e = choose|e: int|
                            0 <= e < list.len() && (#[trigger] list[e]).type_id.key == k;
                        assert(graph[row][e].to == k);
                        assert(steps(graph, false, row, e));
                        assert(is);
                    }
                    if is && !was {
                        let (p, d) = choose|p: int, d: int|
                            row <= p && #[trigger] steps(graph, false, p, d) && graph[p][d].to == k
                                && reaches(graph, false, system.key as int, p);
                        assert(p == row);
                        assert(list[d].type_id.key == k);
                    }
                }
            }
        }
        let mut all: Vec<bool> = Vec::new();
        let mut count: usize = 0;
        let mut key: usize = 0;
        proof {
            assert(marked(all@, 0) =~= Set::empty());
        }
        while key < len
            invariant
                self.wf(),
                catalog == self.catalog@,
                graph == type_graph(catalog),
                len == catalog.len(),
                marks@.len() == len,
                key <= len,
                count <= key,
                all@.len() == key,
                forall|k: usize|
                    k < key ==> #[trigger] all@[k as int] == (self.loaded(k) || marks@[k as int]),
                marked(all@, key as int).finite(),
                count == marked(all@, key as int).len(),
            decreases len - key,
        {
            let present: bool = marks[key] || map_get(&self.system_initializers, key).is_some();
            let ghost before = all@;
            all.push(present);
            if present {
                count = count + 1;
            }
            proof {
                assert(marked(all@, key as int) =~= marked(before, key as int));
                lemma_marked_step(all@, key as int);
            }
            key = key + 1;
        }
        proof {
            assert forall|k: usize| #[trigger]
                self.keys_with(system).contains(k) <==> marked(all@, len as int).contains(k) by {
                if self.loaded(k) {
                    assert(self.system_initializers@.dom().contains(k));
                }
                if needs(catalog, system.key as int, k as int) {
                    lemma_reaches_backward(graph, false, system.key as int, k as int);
                    if k != system.key {
                        let last = lemma_reaches_last_step(
                            graph,
                            false,
                            system.key as int,
                            k as int,
                        );
                        assert(0 <= last.0);
                    }
                    assert(marks@[k as int]);
                }
                if k < len && marks@[k as int] && k != system.key {
                    let (p, d) = choose|p: int, d: int|
                        0 <= p && #[trigger] steps(graph, false, p, d) && graph[p][d].to == k
                            && reaches(graph, false, system.key as int, p);
                    lemma_reaches_direct(graph, false, p, d);
                    lemma_reaches_transitive(graph, false, system.key as int, p, k as int);
                }
                if k < len {
                    assert(all@[k as int] == (self.loaded(k) || marks@[k as int]));
                }
            }
            assert(self.keys_with(system) =~= marked(all@, len as int));
        }
        count
    }

    /// Adds a system to the context. Produces the IDs of the systems that must be initialized,
    /// with those of dependencies before those of dependents.
    pub fn add_system(&mut self, system: ConstTypeId) -> (to_initialize: IdList)
        requires
            old(self).wf(),
            old(self).addable(system),
            old(self).unborrowed(),
        ensures
            final(self).wf(),
            final(self).catalog == old(self).catalog,
            final(self).owning_thread == old(self).owning_thread,
            final(self).system_initializers@.dom() == old(self).keys_with(system),
            forall|key: usize| #[trigger]
                final(self).loaded(key) ==> final(self).system_initializers@[key].top_level == (key
                    == system.key || (old(self).loaded(key)
                    && old(self).system_initializers@[key].top_level)),
            forall|key: usize| #[trigger]
                final(self).loaded(key) ==> {
                    let holder = final(self).systems@[final(self).system_initializers@[key].id as int];
                    if old(self).loaded(key) {
                        holder.value == old(self).systems@[old(self).system_initializers@[key].id as int].value
                    } else {
                        holder.value.content() is None && holder.value.state() == 0
                    }
                },
            ascending_exactly(
                to_initialize@,
                final(self).count(),
                |i: int| !old(self).loaded(key_at(final(self).systems@, i)),
            ),
    {
        let ghost before = *self;
        self.add_new_system(system);
        let ghost staged = *self;
        proof {
            assert(self.system_initializers@.dom() =~= before.keys_with(system)) by {
                assert forall|key: usize|
                    self.system_initializers@.dom().contains(key) <==> #[trigger] before.keys_with(
                    system).contains(key) by {
                    assert(self.loaded(key) == self.system_initializers@.dom().contains(key));
                }
            }
            lemma_staged(&before, self);
        }
        let to_initialize = self.instantiate_added_systems();
        proof {
            lemma_added(&before, &staged, self, to_initialize@);
            assert forall|key: usize| #[trigger] self.loaded(
                key,
            ) implies self.system_initializers@[key].top_level == (key == system.key || (
            before.loaded(key) && before.system_initializers@[key].top_level)) by {
                assert(staged.loaded(key));
                assert(before.loaded(key) || !before.loaded(key));
            }
        }
        to_initialize
    }
}

/// What has been marked so far of a system type is already final.
proof fn lemma_mark_is_need(graph: Seq<Seq<Link>>, start: int, row: int, marks: Seq<bool>)
    requires
        ordered(graph),
        0 <= row < graph.len(),
        marks.len() == graph.len(),
        forall|k: int|
            0 <= k < graph.len() ==> #[trigger] marks[k] == (k == start || exists|p: int, d: int|
                row + 1 <= p && #[trigger] steps(graph, false, p, d) && graph[p][d].to == k
                    && reaches(graph, false, start, p)),
    ensures
        marks[row] == reaches(graph, false, start, row),
{
    if reaches(graph, false, start, row) && row != start {
        let last = lemma_reaches_last_step(graph, false, start, row);
        assert(row + 1 <= last.0);
    }
    if marks[row] && row != start {
        let (p, d) = choose|p: int, d: int|
            row + 1 <= p && #[trigger] steps(graph, false, p, d) && graph[p][d].to == row
                && reaches(graph, false, start, p);
        lemma_reaches_direct(graph, false, p, d);
        lemma_reaches_transitive(graph, false, start, p, row);
    }
}

/// A context is ready for instantiation once initializers have been added to it.
proof fn lemma_staged<V>(before: &ContextInner<V>, after: &ContextInner<V>)
    requires
        before.wf(),
        *after == (ContextInner { system_initializers: after.system_initializers, ..*before }),
        initializers_wf(after.catalog@, after.system_initializers@),
        forall|key: usize| #[trigger]
            before.loaded(key) ==> after.loaded(key) && after.system_initializers@[key]
                == before.system_initializers@[key],
        forall|key: usize| #[trigger]
            after.loaded(key) && !before.loaded(key) ==> after.system_initializers@[key].id
                == NO_ID,
    ensures
        after.staged(),
{
    assert forall|i: int| 0 <= i < after.count() implies after.loaded(
        #[trigger] key_at(after.systems@, i),
    ) && after.system_initializers@[key_at(after.systems@, i)].id == i
        && after.systems@[i].handle.dependency_ids@.len() == after.catalog@[key_at(
        after.systems@,
        i,
    ) as int].dependencies@.len() by {
        assert(before.loaded(key_at(before.systems@, i)));
        assert(handle_wf(before.catalog@, before.system_initializers@, before.systems@[i], i));
    }
    assert forall|key: usize| #[trigger] after.loaded(key) && after.system_initializers@[key].id
        != NO_ID implies after.system_initializers@[key].id < after.count() && key_at(
        after.systems@,
        after.system_initializers@[key].id as int,
    ) == key by {
        assert(before.loaded(key));
    }
}

/// What instantiation says of added systems, in terms of the context before anything was added.
proof fn lemma_added<V>(
    before: &ContextInner<V>,
    staged: &ContextInner<V>,
    after: &ContextInner<V>,
    ids: Seq<u16>,
)
    requires
        before.wf(),
        *staged == (ContextInner { system_initializers: staged.system_initializers, ..*before }),
        forall|key: usize| #[trigger]
            before.loaded(key) ==> staged.loaded(key) && staged.system_initializers@[key]
                == before.system_initializers@[key],
        forall|key: usize| #[trigger]
            staged.loaded(key) && !before.loaded(key) ==> staged.system_initializers@[key].id
                == NO_ID,
        after.wf(),
        after.same_systems(staged),
        forall|i: int|
            0 <= i < after.count() ==> carried(
                staged.system_initializers@,
                staged.systems@,
                #[trigger] after.systems@[i],
            ),
        ascending_exactly(
            ids,
            after.count(),
            |i: int| staged.system_initializers@[key_at(after.systems@, i)].id == NO_ID,
        ),
    ensures
        forall|key: usize| #[trigger]
            after.loaded(key) ==> {
                let holder = after.systems@[after.system_initializers@[key].id as int];
                if before.loaded(key) {
                    holder.value
                        == before.systems@[before.system_initializers@[key].id as int].value
                } else {
                    holder.value.content() is None && holder.value.state() == 0
                }
            },
        ascending_exactly(
            ids,
            after.count(),
            |i: int| !before.loaded(key_at(after.systems@, i)),
        ),
{
    assert forall|key: usize| #[trigger] after.loaded(key) implies {
        let holder = after.systems@[after.system_initializers@[key].id as int];
        if before.loaded(key) {
            holder.value == before.systems@[before.system_initializers@[key].id as int].value
        } else {
            holder.value.content() is None && holder.value.state() == 0
        }
    } by {
        let id = after.system_initializers@[key].id as int;
        assert(after.system_initializers@.dom().contains(key));
        assert(key_at(after.systems@, id) == key);
        assert(staged.loaded(key));
        assert(carried(staged.system_initializers@, staged.systems@, after.systems@[id]));
        if before.loaded(key) {
            assert(before.system_initializers@.dom().contains(key));
        }
    }
    let given = |i: int| staged.system_initializers@[key_at(after.systems@, i)].id == NO_ID;
    let wanted = |i: int| !before.loaded(key_at(after.systems@, i));
    assert forall|i: int| 0 <= i < after.count() implies #[trigger] wanted(i) == given(i) by {
        let key = key_at(after.systems@, i);
        assert(after.loaded(key));
        assert(staged.loaded(key));
        if before.loaded(key) {
            assert(before.system_initializers@.dom().contains(key));
        }
    }
    assert forall|k: int| 0 <= k < ids.len() implies (#[trigger] ids[k]) < after.count() && wanted(
        ids[k] as int,
    ) by {
        assert(wanted(ids[k] as int) == given(ids[k] as int));
    }
    assert forall|i: int| 0 <= i < after.count() && #[trigger] wanted(i) implies ids.contains(
        i as u16,
    ) by {
        assert(given(i));
    }
}

} // verus!
