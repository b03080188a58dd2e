//! Unloading and reloading of system values: in which order systems are dropped and created.
use crate::const_type_id::ConstTypeId;
use crate::context::ascending_exactly;
use crate::context::handle_wf;
use crate::context::key_at;
use crate::context::ContextInner;
use crate::event_map::all_responding;
use crate::graph::lemma_reaches_backward;
use crate::graph::reaches;
use crate::maps::map_get;
use crate::removal::descending_exactly;
use crate::small::IdList;
use crate::system::SystemHolder;
use vstd::prelude::*;

verus! {

impl<V> SystemHolder<V> {
    /// Takes the loaded system out of its holder, which must not be borrowed.
    pub fn unload(&mut self) -> (value: Option<V>)
        requires
            old(self).value.state() == 0,
        ensures
            value == old(self).value.content(),
            final(self).value.content() is None,
            final(self).value.state() == 0,
            final(self).handle == old(self).handle,
            final(self).system_id == old(self).system_id,
    {
        let guard = self.value.borrow_mut();
        guard.value.take()
    }

    /// Puts a system into its holder, which must not be borrowed.
    pub fn load(&mut self, value: V)
        requires
            old(self).value.state() == 0,
        ensures
            final(self).value.content() == Some(value),
            final(self).value.state() == 0,
            final(self).handle == old(self).handle,
            final(self).system_id == old(self).system_id,
    {
        let guard = self.value.borrow_mut();
        *guard.value = Some(value);
    }
}

/// Tells which systems a reset replaces.
pub struct Reset {
    /// The IDs of the systems in the order in which they must be dropped.
    pub unload: IdList,
    /// The IDs of the systems in the order in which they must be created anew.
    pub load: IdList,
}

impl<V> ContextInner<V> {
    /// Whether only the values of systems may differ from those of another context.
    pub open spec fn same_structure(&self, before: &Self) -> bool {
        &&& *self == (ContextInner { systems: self.systems, ..*before })
        &&& self.count() == before.count()
        &&& forall|i: int|
            0 <= i < self.count() ==> (#[trigger] self.systems@[i]).handle
                == before.systems@[i].handle && self.systems@[i].system_id
                == before.systems@[i].system_id
    }

    /// Gets the holder for the system at the given index.
    pub fn system_holder(&self, index: usize) -> (holder: &SystemHolder<V>)
        requires
            index < self.count(),
        ensures
            *holder == self.systems@[index as int],
    {
        &self.systems[index]
    }

    /// Takes the value of a system out of the context.
    pub fn unload_system(&mut self, id: u16) -> (value: Option<V>)
        requires
            id < old(self).count(),
            old(self).systems@[id as int].value.state() == 0,
        ensures
            old(self).wf() ==> final(self).wf(),
            final(self).same_structure(old(self)),
            value == old(self).systems@[id as int].value.content(),
            final(self).systems@[id as int].value.content() is None,
            final(self).systems@[id as int].value.state() == 0,
            forall|i: int|
                0 <= i < old(self).count() && i != id ==> #[trigger] final(self).systems@[i]
                    == old(self).systems@[i],
    {
        let ghost before = *self;
        let value = self.systems[id as usize].unload();
        proof {
            if before.wf() {
                lemma_values_irrelevant(&before, self);
            }
        }
        value
    }

    /// Puts the value of a system into the context.
    pub fn load_system(&mut self, id: u16, value: V)
        requires
            id < old(self).count(),
            old(self).systems@[id as int].value.state() == 0,
        ensures
            old(self).wf() ==> final(self).wf(),
            final(self).same_structure(old(self)),
            final(self).systems@[id as int].value.content() == Some(value),
            final(self).systems@[id as int].value.state() == 0,
            forall|i: int|
                0 <= i < old(self).count() && i != id ==> #[trigger] final(self).systems@[i]
                    == old(self).systems@[i],
    {
        let ghost before = *self;
        self.systems[id as usize].load(value);
        proof {
            if before.wf() {
                lemma_values_irrelevant(&before, self);
            }
        }
    }

    /// Lists all systems in the order in which they must be dropped when the context is.
    pub fn clear_all_systems(&self) -> (dropped: IdList)
        requires
            self.wf(),
        ensures
            descending_exactly(dropped@, self.count(), |i: int| true),
    {
        let ghost every = |i: int| true;
        let mut dropped = IdList::new();
        let mut i: usize = self.systems.len();
        while i > 0
            invariant
                self.wf(),
                i <= self.count(),
                every == (|i: int| true),
                lists_down_to(dropped@, self.count(), i as int, every),
            decreases i,
        {
            let ghost before = dropped@;
            i = i - 1;
            dropped.push(i as u16);
            proof {
                lemma_descending_step(dropped@, self.count(), i as int, every, before);
            }
        }
        dropped
    }

    /// Lists the system with the given ID and all systems that depend upon it, in the order in
    /// which they must be unloaded: reverse topological order.
    pub fn unload_dependents(&self, id: u16) -> (dropped: IdList)
        requires
            self.wf(),
            id < self.count(),
        ensures
            descending_exactly(
                dropped@,
                self.count(),
                |i: int| reaches(self.graph(), false, i, id as int),
            ),
    {
        let ghost graph = self.graph();
        let ghost dependent = |i: int| reaches(self.graph(), false, i, id as int);
        let mut dropped = IdList::new();
        let mut i: usize = self.systems.len();
        while i > id as usize + 1
            invariant
                self.wf(),
                id < self.count(),
                id < i <= self.count(),
                graph == self.graph(),
                dependent == (|i: int| reaches(self.graph(), false, i, id as int)),
                lists_down_to(dropped@, self.count(), i as int, dependent),
            decreases i,
        {
            let ghost before = dropped@;
            i = i - 1;
            proof {
                assert(self.transitive_dependencies.flag(i as int, id as int) == reaches(
                    graph,
                    false,
                    i as int,
                    id as int,
                ));
            }
            let row = self.transitive_dependencies.get_unchecked(i);
            if row.get(id as usize) {
                dropped.push(i as u16);
            }
            proof {
                lemma_descending_step(dropped@, self.count(), i as int, dependent, before);
            }
        }
        let ghost before = dropped@;
        dropped.push(id);
        proof {
            assert(reaches(graph, false, id as int, id as int));
            lemma_descending_step(dropped@, self.count(), id as int, dependent, before);
            assert forall|j: int| 0 <= j < id implies !#[trigger] dependent(j) by {
                if reaches(graph, false, j, id as int) {
                    lemma_reaches_backward(graph, false, j, id as int);
                }
            }
        }
        dropped
    }

    /// Puts the systems that were unloaded into the order in which they must be loaded again:
    /// topological order.
    pub fn load_dependents(&self, to_load: &IdList) -> (order: IdList)
        ensures
            order@ == to_load@.reverse(),
    {
        let mut order = IdList::new();
        let mut i: usize = to_load.len();
        while i > 0
            invariant
                i <= to_load@.len(),
                order@.len() == to_load@.len() - i,
                forall|k: int|
                    0 <= k < order@.len() ==> #[trigger] order@[k] == to_load@[to_load@.len() - 1
                        - k],
            decreases i,
        {
            i = i - 1;
            order.push(to_load.get(i));
        }
        assert(order@ =~= to_load@.reverse());
        order
    }

    /// Determines which system instances must be replaced when the given system is reloaded: its
    /// own, and those of all systems that depend upon it.
    pub fn reset_system(&self, system: ConstTypeId) -> (reset: Reset)
        requires
            self.wf(),
            self.loaded(system.key),
        ensures
            descending_exactly(
                reset.unload@,
                self.count(),
                |i: int|
                    reaches(
                        self.graph(),
                        false,
                        i,
                        self.system_initializers@[system.key].id as int,
                    ),
            ),
            ascending_exactly(
                reset.load@,
                self.count(),
                |i: int|
                    reaches(
                        self.graph(),
                        false,
                        i,
                        self.system_initializers@[system.key].id as int,
                    ),
            ),
    {
        let id: u16 = match map_get(&self.system_initializers, system.key) {
            Some(initializer) => initializer.id(),
            None => 0,
        };
        let unload = self.unload_dependents(id);
        let load = self.load_dependents(&unload);
        proof {
            law_reversal_of_descending(
                unload@,
                self.count(),
                |i: int| reaches(self.graph(), false, i, id as int),
            );
        }
        Reset { unload, load }
    }
}

/// Whether a list holds exactly those places between two bounds that satisfy a condition, in
/// descending order.
pub open spec fn lists_down_to(
    ids: Seq<u16>,
    bound: int,
    start: int,
    condition: spec_fn(int) -> bool,
) -> bool {
    &&& forall|k: int|
        0 <= k < ids.len() ==> start <= (#[trigger] ids[k]) < bound && condition(ids[k] as int)
    &&& forall|j: int, k: int| 0 <= j < k < ids.len() ==> ids[j] > ids[k]
    &&& forall|i: int| start <= i < bound && #[trigger] condition(i) ==> ids.contains(i as u16)
}

/// One more place has been looked at, from the end on, for a list of those that satisfy a
/// condition.
proof fn lemma_descending_step(
    after: Seq<u16>,
    bound: int,
    start: int,
    condition: spec_fn(int) -> bool,
    before: Seq<u16>,
)
    requires
        0 <= start < bound <= u16::MAX,
        lists_down_to(before, bound, start + 1, condition),
        after == if condition(start) {
            before.push(start as u16)
        } else {
            before
        },
    ensures
        lists_down_to(after, bound, start, condition),
{
    assert forall|i: int| start <= i < bound && #[trigger] condition(i) implies after.contains(
        i as u16,
    ) by {
        if i > start {
            assert(before.contains(i as u16));
            let k = choose|k: int| 0 <= k < before.len() && before[k] == i as u16;
            assert(after[k] == i as u16);
        } else {
            assert(after[before.len() as int] == i as u16);
        }
    }
}

/// The order in which systems are loaded again is the reverse of that in which they were dropped:
/// a list in descending order, read from its end, is in ascending order.
pub proof fn law_reversal_of_descending(
    ids: Seq<u16>,
    bound: int,
    condition: spec_fn(int) -> bool,
)
    requires
        descending_exactly(ids, bound, condition),
    ensures
        ascending_exactly(ids.reverse(), bound, condition),
{
    let order = ids.reverse();
    assert forall|i: int| 0 <= i < bound && #[trigger] condition(i) implies order.contains(
        i as u16,
    ) by {
        assert(ids.contains(i as u16));
        let k = choose|k: int| 0 <= k < ids.len() && ids[k] == i as u16;
        assert(order[ids.len() - 1 - k] == i as u16);
    }
    assert forall|k: int| 0 <= k < order.len() implies (#[trigger] order[k]) < bound && condition(
        order[k] as int,
    ) by {
        assert(order[k] == ids[ids.len() - 1 - k]);
    }
}

/// Nothing that a context keeps rests on the values of its systems.
pub proof fn lemma_values_irrelevant<V>(before: &ContextInner<V>, after: &ContextInner<V>)
    requires
        before.wf(),
        after.same_structure(before),
    ensures
        after.wf(),
        after.graph() == before.graph(),
        after.descriptors() == before.descriptors(),
{
    lemma_same_structure(before, after);
    assert forall|i: int| 0 <= i < after.count() implies handle_wf(
        after.catalog@,
        after.system_initializers@,
        #[trigger] after.systems@[i],
        i,
    ) by {
        assert(handle_wf(before.catalog@, before.system_initializers@, before.systems@[i], i));
    }
    assert forall|event: ConstTypeId| #[trigger]
        after.event_handlers.entries(event) == all_responding(
            after.descriptors(),
            event,
        ) by {
        assert(before.event_handlers.entries(event) == all_responding(
            before.descriptors(),
            event,
        ));
    }
}

/// The graph and the descriptors of a context do not rest on the values of its systems.
proof fn lemma_same_structure<V>(before: &ContextInner<V>, after: &ContextInner<V>)
    requires
        after.same_structure(before),
    ensures
        after.graph() == before.graph(),
        after.descriptors() == before.descriptors(),
        forall|i: int|
            0 <= i < after.count() ==> #[trigger] key_at(after.systems@, i) == key_at(
                before.systems@,
                i,
            ),
{
    assert(after.graph() =~= before.graph()) by {
        assert forall|i: int| 0 <= i < after.count() implies after.graph()[i]
            == before.graph()[i] by {
            assert(after.systems@[i].handle == before.systems@[i].handle);
            assert(after.graph()[i] =~= before.graph()[i]);
        }
    }
    assert(after.descriptors() =~= before.descriptors()) by {
        assert forall|i: int| 0 <= i < after.count() implies after.descriptors()[i]
            == before.descriptors()[i] by {
            assert(after.systems@[i].system_id == before.systems@[i].system_id);
        }
    }
    assert forall|i: int| 0 <= i < after.count() implies #[trigger] key_at(after.systems@, i)
        == key_at(before.systems@, i) by {
        assert(after.systems@[i].system_id == before.systems@[i].system_id);
    }
}

} // verus!
