//! Borrowing of systems, by the systems that depend on them and from outside.
use crate::const_type_id::ConstTypeId;
use crate::context::handle_wf;
use crate::context::key_at;
use crate::context::ContextInner;
use crate::maps::map_get;
use crate::reset::lemma_values_irrelevant;
use crate::rw_cell::borrow_conflict;
use crate::rw_cell::borrow_mut_conflict;
use crate::rw_cell::RwCellGuard;
use crate::rw_cell::RwCellGuardMut;
use crate::rw_cell::BORROWED_MUTABLY;
use crate::system_laws::law_sharing_rests_on_all_dependencies;
use crate::traits::first_at;
use crate::traits::follows;
use crate::traits::needs;
use crate::traits::DependencyHolder;
use vstd::prelude::*;

verus! {

/// Represents an immutable reference to a system.
pub struct SystemRef<'a, T> {
    /// The backing guard for the system.
    pub inner: RwCellGuard<'a, T>,
}

impl<'a, T> SystemRef<'a, T> {
    /// Creates a new immutable reference to a system from a
    /// `RwCell` borrow.
    fn new(inner: RwCellGuard<'a, T>) -> (result: Self)
        ensures
            result.inner == inner,
    {
        SystemRef { inner }
    }

    /// Creates a reference to a specific borrowed component of a system.
    pub fn map<U, F>(orig: SystemRef<'a, T>, f: F) -> (result: SystemRef<'a, U>) where
        F: FnOnce(&'a T) -> &'a U,

        requires
            call_requires(f, (orig.inner.value,)),
        ensures
            call_ensures(f, (orig.inner.value,), result.inner.value),
            *result.inner.others == *old(orig.inner.others),
            *final(result.inner.others) == *final(orig.inner.others),
    {
        SystemRef::new(RwCellGuard::map(orig.inner, f))
    }

    /// Gets a reference to the system.
    pub fn deref(&self) -> (value: &T)
        ensures
            value == self.inner.value,
    {
        self.inner.deref()
    }
}

/// Represents a mutable reference to a system.
pub struct SystemRefMut<'a, T> {
    /// The backing guard for the system.
    pub inner: RwCellGuardMut<'a, T>,
}

impl<'a, T> SystemRefMut<'a, T> {
    /// Creates a new mutable reference to a system from a mutable
    /// `RwCell` borrow.
    fn new(inner: RwCellGuardMut<'a, T>) -> (result: Self)
        ensures
            result.inner == inner,
    {
        SystemRefMut { inner }
    }

    /// Creates a reference to a specific borrowed component of a system.
    pub fn map<U, F>(orig: SystemRefMut<'a, T>, f: F) -> (result: SystemRefMut<'a, U>) where
        F: FnOnce(&'a mut T) -> &'a mut U,

        requires
            forall|value: &'a mut T|
                *value == *orig.inner.value ==> #[trigger] call_requires(f, (value,)),
        ensures
            exists|value: &'a mut T, portion: &'a mut U|
                {
                    &&& *value == *old(orig.inner.value)
                    &&& *final(value) == *final(orig.inner.value)
                    &&& *portion == *result.inner.value
                    &&& *final(portion) == *final(result.inner.value)
                    &&& #[trigger] call_ensures(f, (value,), portion)
                },
            *result.inner.others == *old(orig.inner.others),
            *final(result.inner.others) == *final(orig.inner.others),
    {
        SystemRefMut::new(RwCellGuardMut::map(orig.inner, f))
    }

    /// Gets a reference to the system.
    pub fn deref(&self) -> (value: &T)
        ensures
            *value == *old(self.inner.value),
    {
        self.inner.deref()
    }

    /// Gets a mutable reference to the system.
    pub fn deref_mut(&mut self) -> (value: &mut T)
        ensures
            *value == *old(self).inner.value,
            *final(self).inner.value == *final(value),
            *final(final(self).inner.value) == *final(old(self).inner.value),
            final(self).inner.others == old(self).inner.others,
    {
        self.inner.deref_mut()
    }
}

impl<V> ContextInner<V> {
    /// The ID of a loaded system type.
    pub open spec fn id_of(&self, system: ConstTypeId) -> int {
        self.system_initializers@[system.key].id as int
    }

    /// Whether a system type is loaded and a thread may borrow it.
    pub open spec fn shared_with(&self, system: ConstTypeId, thread: u64) -> bool {
        self.sync_systems@[self.id_of(system)] || self.owning_thread == thread
    }

    /// The context after the borrow state and the value of one system may have changed.
    pub open spec fn borrowed_at(
        &self,
        before: &Self,
        id: int,
        value: Option<V>,
        state: u16,
    ) -> bool {
        &&& self.same_structure(before)
        &&& forall|i: int|
            0 <= i < before.count() && i != id ==> #[trigger] self.systems@[i] == before.systems@[i]
        &&& self.systems@[id].value.content() == value
        &&& self.systems@[id].value.state() == state
    }

    /// Obtains a reference to the given system.
    pub fn get(&mut self, system: ConstTypeId) -> (result: SystemRef<'_, Option<V>>)
        requires
            old(self).wf(),
            old(self).loaded(system.key),
            !borrow_conflict(old(self).systems@[old(self).id_of(system)].value.state()),
        ensures
            *result.inner.value == old(self).systems@[old(self).id_of(system)].value.content(),
            result.inner.counted() == old(self).systems@[old(self).id_of(system)].value.state() + 1,
            *result.inner.others == old(self).systems@[old(self).id_of(system)].value.state(),
            final(self).borrowed_at(
                old(self),
                old(self).id_of(system),
                old(self).systems@[old(self).id_of(system)].value.content(),
                *final(result.inner.others),
            ),
            final(self).wf(),
    {
        let ghost before = *self;
        proof {
            assert forall|after: Self| #[trigger] after.same_structure(&before) implies after.wf() by {
                lemma_values_irrelevant(&before, &after);
            }
        }
        let index: usize = match map_get(&self.system_initializers, system.key) {
            Some(initializer) => initializer.id() as usize,
            None => 0,
        };
        SystemRef::new(self.systems[index].value.borrow())
    }

    /// Mutably obtains a reference to the given system.
    pub fn get_mut(&mut self, system: ConstTypeId) -> (result: SystemRefMut<'_, Option<V>>)
        requires
            old(self).wf(),
            old(self).loaded(system.key),
            !borrow_mut_conflict(old(self).systems@[old(self).id_of(system)].value.state()),
        ensures
            *result.inner.value == old(self).systems@[old(self).id_of(system)].value.content(),
            result.inner.counted() == BORROWED_MUTABLY,
            *result.inner.others == 0,
            final(self).borrowed_at(
                old(self),
                old(self).id_of(system),
                *final(result.inner.value),
                *final(result.inner.others),
            ),
            final(self).wf(),
    {
        let ghost before = *self;
        proof {
            assert forall|after: Self| #[trigger] after.same_structure(&before) implies after.wf() by {
                lemma_values_irrelevant(&before, &after);
            }
        }
        let index: usize = match map_get(&self.system_initializers, system.key) {
            Some(initializer) => initializer.id() as usize,
            None => 0,
        };
        SystemRefMut::new(self.systems[index].value.borrow_mut())
    }
}

/// Represents a system-specific handle to a Geese context.
#[derive(Copy, Clone, Debug)]
pub struct GeeseContextHandle {
    /// The system that the handle belongs to.
    pub system: ConstTypeId,
}

impl GeeseContextHandle {
    /// Whether the system of this handle has declared a dependency on another one.
    pub open spec fn declares<V>(&self, ctx: &ContextInner<V>, dependency: ConstTypeId) -> bool {
        let list = ctx.catalog@[self.system.key as int].dependencies@;
        exists|place: int| #[trigger] first_at(list, dependency, place)
    }

    /// Whether the system of this handle has declared a dependency on another one, which it may
    /// mutably borrow.
    pub open spec fn declares_mutable<V>(
        &self,
        ctx: &ContextInner<V>,
        dependency: ConstTypeId,
    ) -> bool {
        let list = ctx.catalog@[self.system.key as int].dependencies@;
        exists|place: int| #[trigger] first_at(list, dependency, place) && list[place].mutable
    }

    /// Creates a new handle for a system.
    pub fn new(system: ConstTypeId) -> (handle: Self)
        ensures
            handle.system == system,
    {
        GeeseContextHandle { system }
    }

    /// Determines the ID of the specified system dependency, which must have been declared.
    fn dependency_id<V>(&self, ctx: &ContextInner<V>, dependency: ConstTypeId) -> (id: usize)
        requires
            ctx.wf(),
            ctx.loaded(self.system.key),
            self.declares(ctx, dependency),
        ensures
            ctx.loaded(dependency.key),
            id == ctx.id_of(dependency),
            id < ctx.count(),
    {
        let ghost key = self.system.key as int;
        let ghost list = ctx.catalog@[key].dependencies@;
        proof {
            assert(ctx.system_initializers@.dom().contains(self.system.key));
            assert(follows(ctx.catalog@.take(key), ctx.catalog@[key]));
            let place = choose|place: int| #[trigger] first_at(list, dependency, place);
            assert(list[place].type_id == dependency);
        }
        let descriptor = ctx.catalog.descriptor(self.system);
        let index: usize = match descriptor.dependencies().index_of(dependency) {
            Some(index) => index,
            None => 0,
        };
        let own: usize = match map_get(&ctx.system_initializers, self.system.key) {
            Some(initializer) => initializer.id() as usize,
            None => 0,
        };
        proof {
            assert(key_at(ctx.systems@, own as int) == self.system.key);
            assert(handle_wf(
                ctx.catalog@,
                ctx.system_initializers@,
                ctx.systems@[own as int],
                own as int,
            ));
            assert(ctx.catalog@[key].dependencies@[index as int].type_id == dependency);
        }
        ctx.systems[own].handle.dependency_id(index) as usize
    }

    /// Obtains the specified system dependency. It must have been declared, and the current thread
    /// must be the one that owns the context unless the dependency may be shared across threads.
    pub fn get<'a, V>(
        &self,
        ctx: &'a mut ContextInner<V>,
        dependency: ConstTypeId,
        thread: u64,
    ) -> (result: SystemRef<'a, Option<V>>)
        requires
            old(ctx).wf(),
            old(ctx).loaded(self.system.key),
            self.declares(old(ctx), dependency),
            old(ctx).shared_with(dependency, thread),
            !borrow_conflict(old(ctx).systems@[old(ctx).id_of(dependency)].value.state()),
        ensures
            *result.inner.value == old(ctx).systems@[old(ctx).id_of(dependency)].value.content(),
            result.inner.counted() == old(ctx).systems@[old(ctx).id_of(
                dependency,
            )].value.state() + 1,
            *result.inner.others == old(ctx).systems@[old(ctx).id_of(dependency)].value.state(),
            final(ctx).borrowed_at(
                old(ctx),
                old(ctx).id_of(dependency),
                old(ctx).systems@[old(ctx).id_of(dependency)].value.content(),
                *final(result.inner.others),
            ),
            final(ctx).wf(),
    {
        let ghost before = *ctx;
        proof {
            assert forall|after: ContextInner<V>| #[trigger] after.same_structure(&before) implies after.wf() by {
                lemma_values_irrelevant(&before, &after);
            }
        }
        let global_index: usize = self.dependency_id(&*ctx, dependency);
        SystemRef::new(ctx.systems[global_index].value.borrow())
    }

    /// Mutably obtains the specified system dependency. It must have been declared as mutable, and
    /// the current thread must be the one that owns the context unless the dependency may be
    /// shared across threads.
    pub fn get_mut<'a, V>(
        &self,
        ctx: &'a mut ContextInner<V>,
        dependency: ConstTypeId,
        thread: u64,
    ) -> (result: SystemRefMut<'a, Option<V>>)
        requires
            old(ctx).wf(),
            old(ctx).loaded(self.system.key),
            self.declares_mutable(old(ctx), dependency),
            old(ctx).shared_with(dependency, thread),
            !borrow_mut_conflict(old(ctx).systems@[old(ctx).id_of(dependency)].value.state()),
        ensures
            *result.inner.value == old(ctx).systems@[old(ctx).id_of(dependency)].value.content(),
            result.inner.counted() == BORROWED_MUTABLY,
            *result.inner.others == 0,
            final(ctx).borrowed_at(
                old(ctx),
                old(ctx).id_of(dependency),
                *final(result.inner.value),
                *final(result.inner.others),
            ),
            final(ctx).wf(),
    {
        let ghost before = *ctx;
        proof {
            assert forall|after: ContextInner<V>| #[trigger] after.same_structure(&before) implies after.wf() by {
                lemma_values_irrelevant(&before, &after);
            }
        }
        let global_index: usize = self.dependency_id(&*ctx, dependency);
        SystemRefMut::new(ctx.systems[global_index].value.borrow_mut())
    }

    /// Determines whether a dependency may be obtained on the given thread, and mutably if that is
    /// asked for: whether it was declared so, and may be shared with the thread.
    pub fn permits<V>(
        &self,
        ctx: &ContextInner<V>,
        dependency: ConstTypeId,
        mutably: bool,
        thread: u64,
    ) -> (access: DependencyAccess)
        requires
            ctx.wf(),
            ctx.loaded(self.system.key),
        ensures
            match access {
                DependencyAccess::Undeclared => !self.declares(ctx, dependency),
                DependencyAccess::Immutable => self.declares(ctx, dependency) && mutably
                    && !self.declares_mutable(ctx, dependency),
                DependencyAccess::CrossThread => self.declares(ctx, dependency) && (mutably
                    ==> self.declares_mutable(ctx, dependency)) && !ctx.shared_with(
                    dependency,
                    thread,
                ),
                DependencyAccess::Allowed => self.declares(ctx, dependency) && (mutably
                    ==> self.declares_mutable(ctx, dependency)) && ctx.shared_with(
                    dependency,
                    thread,
                ),
            },
            ({
                let list = ctx.catalog@[self.system.key as int].dependencies@;
                &&& access == DependencyAccess::Undeclared <==> forall|k: int|
                    0 <= k < list.len() ==> (#[trigger] list[k]).type_id != dependency
                &&& forall|place: int|
                    {
                        &&& 0 <= place < list.len()
                        &&& (#[trigger] list[place]).type_id == dependency
                        &&& forall|j: int| 0 <= j < place ==> (#[trigger] list[j]).type_id
                            != dependency
                    } ==> access == if mutably && !list[place].mutable {
                        DependencyAccess::Immutable
                    } else if ctx.owning_thread == thread || forall|other: int| #[trigger]
                        needs(ctx.catalog@, dependency.key as int, other)
                            ==> ctx.catalog@[other].sync {
                        DependencyAccess::Allowed
                    } else {
                        DependencyAccess::CrossThread
                    }
            }),
    {
        let ghost key = self.system.key as int;
        let ghost list = ctx.catalog@[key].dependencies@;
        proof {
            assert(ctx.system_initializers@.dom().contains(self.system.key));
            assert(follows(ctx.catalog@.take(key), ctx.catalog@[key]));
        }
        let descriptor = ctx.catalog.descriptor(self.system);
        match descriptor.dependencies().index_of(dependency) {
            None => {
                proof {
                    assert forall|place: int| !#[trigger] first_at(list, dependency, place) by {}
                }
                DependencyAccess::Undeclared
            },
            Some(index) => {
                assert(first_at(list, dependency, index as int));
                let mutable: bool = match descriptor.dependencies().as_inner().get(index) {
                    Some(holder) => holder.mutable(),
                    None => false,
                };
                proof {
                    assert forall|place: int| #[trigger]
                        first_at(list, dependency, place) implies place == index by {
                        if place < index {
                            assert(list[place].type_id != dependency);
                        } else if index < place {
                            assert(list[index as int].type_id != dependency);
                        }
                    }
                }
                if mutably && !mutable {
                    DependencyAccess::Immutable
                } else {
                    let id: usize = self.dependency_id(ctx, dependency);
                    proof {
                        law_sharing_rests_on_all_dependencies(ctx, dependency.key);
                    }
                    if ctx.sync_systems.get(id) || ctx.owning_thread == thread {
                        DependencyAccess::Allowed
                    } else {
                        DependencyAccess::CrossThread
                    }
                }
            },
        }
    }
}

/// Tells whether a system may obtain a dependency.
#[derive(Copy, Clone, Debug, PartialEq, Eq, Structural)]
pub enum DependencyAccess {
    /// The dependency may be obtained.
    Allowed,
    /// The specified system was not a dependency of this one.
    Undeclared,
    /// The dependency was asked for mutably, but is immutable.
    Immutable,
    /// The dependency belongs to another thread and may not be shared.
    CrossThread,
}

/// What a system has declared is what stands first for the dependency in its list: whether it may
/// mutably borrow it is what that entry says, and nothing else counts. What does not stand in the
/// list is not declared.
pub proof fn law_first_entry_declares<V>(
    handle: GeeseContextHandle,
    ctx: &ContextInner<V>,
    dependency: ConstTypeId,
    place: int,
)
    ensures
        ({
            let list = ctx.catalog@[handle.system.key as int].dependencies@;
            &&& handle.declares(ctx, dependency) <==> exists|k: int|
                0 <= k < list.len() && (#[trigger] list[k]).type_id == dependency
            &&& handle.declares_mutable(ctx, dependency) ==> handle.declares(ctx, dependency)
            &&& {
                &&& 0 <= place < list.len()
                &&& list[place].type_id == dependency
                &&& forall|j: int| 0 <= j < place ==> (#[trigger] list[j]).type_id != dependency
            } ==> handle.declares_mutable(ctx, dependency) == list[place].mutable
        }),
{
    let list = ctx.catalog@[handle.system.key as int].dependencies@;
    if exists|k: int| 0 <= k < list.len() && (#[trigger] list[k]).type_id == dependency {
        let k = choose|k: int| 0 <= k < list.len() && (#[trigger] list[k]).type_id == dependency;
        lemma_stands_first(list, dependency, k);
    }
    if 0 <= place < list.len() && list[place].type_id == dependency && forall|j: int|
        0 <= j < place ==> (#[trigger] list[j]).type_id != dependency {
        assert(first_at(list, dependency, place));
        assert forall|other: int| #[trigger] first_at(list, dependency, other) implies other
            == place by {
            if other < place {
                assert(list[other].type_id != dependency);
            } else if place < other {
                assert(list[place].type_id != dependency);
            }
        }
    }
}

/// What stands in a list stands first at some place.
proof fn lemma_stands_first(list: Seq<DependencyHolder>, dependency: ConstTypeId, k: int)
    requires
        0 <= k < list.len(),
        list[k].type_id == dependency,
    ensures
        exists|place: int| #[trigger] first_at(list, dependency, place),
    decreases k,
{
    if exists|j: int| 0 <= j < k && (#[trigger] list[j]).type_id == dependency {
        let j = choose|j: int| 0 <= j < k && (#[trigger] list[j]).type_id == dependency;
        lemma_stands_first(list, dependency, j);
    } else {
        assert(first_at(list, dependency, k));
    }
}

/// A loaded system is shared with the thread that owns the context, and with all threads if
/// everything that its type needs may be shared.
pub proof fn law_threads_share_what_may_be_shared<V>(
    ctx: &ContextInner<V>,
    system: ConstTypeId,
    thread: u64,
)
    requires
        ctx.wf(),
        ctx.system_initializers@.dom().contains(system.key),
    ensures
        ctx.shared_with(system, thread) <==> (thread == ctx.owning_thread || forall|other: int|
            #[trigger] needs(ctx.catalog@, system.key as int, other) ==> ctx.catalog@[other].sync),
{
    law_sharing_rests_on_all_dependencies(ctx, system.key);
}

/// A system is found by its type: the ID of a loaded type is that of the system of this type, and
/// each system is the one that is found by its own type.
pub proof fn law_systems_are_found_by_type<V>(
    ctx: &ContextInner<V>,
    system: ConstTypeId,
    id: int,
)
    requires
        ctx.wf(),
    ensures
        ctx.loaded(system.key) <==> exists|i: int|
            0 <= i < ctx.systems@.len() && (#[trigger] ctx.systems@[i]).system_id == system,
        ctx.loaded(system.key) ==> 0 <= ctx.id_of(system) < ctx.systems@.len()
            && ctx.systems@[ctx.id_of(system)].system_id == system,
        0 <= id < ctx.systems@.len() ==> ctx.loaded(ctx.systems@[id].system_id.key) && ctx.id_of(
            ctx.systems@[id].system_id,
        ) == id,
{
    if ctx.loaded(system.key) {
        assert(ctx.system_initializers@.dom().contains(system.key));
        let own = ctx.id_of(system);
        assert(key_at(ctx.systems@, own) == system.key);
        assert(ctx.systems@[own].system_id == system);
    }
    if exists|i: int|
        0 <= i < ctx.systems@.len() && (#[trigger] ctx.systems@[i]).system_id == system {
        let i = choose|i: int|
            0 <= i < ctx.systems@.len() && (#[trigger] ctx.systems@[i]).system_id == system;
        assert(ctx.system_initializers@.dom().contains(key_at(ctx.systems@, i)));
    }
    if 0 <= id < ctx.systems@.len() {
        assert(ctx.system_initializers@.dom().contains(key_at(ctx.systems@, id)));
    }
}

/// Borrowing a system changes nothing but its own value and borrow state: not what is loaded, nor any
/// other system.
pub proof fn law_borrowing_touches_one_system<V>(
    before: &ContextInner<V>,
    after: &ContextInner<V>,
    id: int,
    value: Option<V>,
    state: u16,
    other: int,
)
    requires
        after.borrowed_at(before, id, value, state),
        0 <= id < before.systems@.len(),
        0 <= other < before.systems@.len(),
    ensures
        after.catalog == before.catalog,
        after.owning_thread == before.owning_thread,
        after.system_initializers == before.system_initializers,
        after.event_handlers == before.event_handlers,
        after.sync_systems == before.sync_systems,
        after.transitive_dependencies == before.transitive_dependencies,
        after.transitive_dependencies_bi == before.transitive_dependencies_bi,
        after.transitive_dependencies_mut == before.transitive_dependencies_mut,
        after.systems@.len() == before.systems@.len(),
        after.systems@[other].system_id == before.systems@[other].system_id,
        after.systems@[other].handle == before.systems@[other].handle,
        after.systems@[id].value.content() == value,
        after.systems@[id].value.state() == state,
        other != id ==> after.systems@[other].value == before.systems@[other].value,
{
    assert(after.systems@[other].handle == before.systems@[other].handle);
}

} // verus!
