//! The records that a context keeps of its systems.
use crate::const_type_id::ConstTypeId;
use crate::rw_cell::RwCell;
use crate::small::IdList;
use crate::traits::SystemDescriptor;
use vstd::prelude::*;

verus! {

/// The ID of a system that has not been given one yet.
pub const NO_ID: u16 = 0xffff;

/// Stores the inner data about a context handle.
pub struct ContextHandleInner {
    /// A mapping from local to global IDs of system dependencies.
    pub dependency_ids: IdList,
    /// The current ID of this system.
    pub id: u16,
}

impl ContextHandleInner {
    /// Gets the current ID of this context handle.
    pub fn id(&self) -> (id: u16)
        ensures
            id == self.id,
    {
        self.id
    }

    /// Sets the current ID of this context handle.
    pub fn set_id(&mut self, value: u16)
        ensures
            final(self).id == value,
            final(self).dependency_ids == old(self).dependency_ids,
    {
        self.id = value;
    }

    /// Gets the number of dependencies that this system has.
    pub fn dependency_len(&self) -> (len: usize)
        ensures
            len == self.dependency_ids@.len(),
    {
        self.dependency_ids.len()
    }

    /// Gets the global ID of the dependency with the provided local index.
    pub fn dependency_id(&self, index: usize) -> (id: u16)
        requires
            index < self.dependency_ids@.len(),
        ensures
            id == self.dependency_ids@[index as int],
    {
        self.dependency_ids.get(index)
    }

    /// Sets the global ID of the dependency with the provided local index.
    pub fn set_dependency_id(&mut self, index: usize, value: u16)
        requires
            index < old(self).dependency_ids@.len(),
        ensures
            final(self).id == old(self).id,
            final(self).dependency_ids@ == old(self).dependency_ids@.update(index as int, value),
    {
        self.dependency_ids.set(index, value);
    }
}

/// Stores the current state of a system.
pub struct SystemHolder<V> {
    /// The handle used to manage system state.
    pub handle: ContextHandleInner,
    /// The type ID of the system.
    pub system_id: ConstTypeId,
    /// The loaded system itself, if it has been initialized.
    pub value: RwCell<Option<V>>,
}

impl<V> SystemHolder<V> {
    /// Creates a new holder with the provided information. The context handle's ID and dependency
    /// map are to be filled in afterwards, and the system is to be initialized.
    pub fn new(system_id: ConstTypeId, dependency_len: usize) -> (holder: Self)
        ensures
            holder.system_id == system_id,
            holder.handle.id == 0,
            holder.handle.dependency_ids@ == Seq::new(dependency_len as nat, |k: int| 0u16),
            holder.value.content() is None,
            holder.value.state() == 0,
    {
        let mut dependency_ids = IdList::new();
        let mut i: usize = 0;
        while i < dependency_len
            invariant
                i <= dependency_len,
                dependency_ids@ == Seq::new(i as nat, |k: int| 0u16),
            decreases dependency_len - i,
        {
            dependency_ids.push(0);
            i = i + 1;
            assert(dependency_ids@ =~= Seq::new(i as nat, |k: int| 0u16));
        }
        SystemHolder {
            handle: ContextHandleInner { dependency_ids, id: 0 },
            system_id,
            value: RwCell::new(None),
        }
    }
}

/// Tracks the ID and initialization information of loaded systems.
#[derive(Copy, Clone)]
pub struct SystemInitializer {
    /// The system descriptor.
    pub descriptor: SystemDescriptor,
    /// The ID assigned to the system.
    pub id: u16,
    /// Whether this is a top-level system in the dependency graph.
    pub top_level: bool,
}

impl SystemInitializer {
    /// Creates a new system initializer.
    pub fn new(descriptor: SystemDescriptor, top_level: bool) -> (initializer: Self)
        ensures
            initializer == (SystemInitializer { descriptor, id: NO_ID, top_level }),
    {
        SystemInitializer { descriptor, id: NO_ID, top_level }
    }

    /// Gets the descriptor associated with this initializer.
    pub fn descriptor(&self) -> (descriptor: &SystemDescriptor)
        ensures
            *descriptor == self.descriptor,
    {
        &self.descriptor
    }

    /// Gets the current ID for this system type.
    pub fn id(&self) -> (id: u16)
        ensures
            id == self.id,
    {
        self.id
    }

    /// Sets the current ID for this system type.
    pub fn set_id(&mut self, id: u16)
        ensures
            *final(self) == (SystemInitializer { id, ..*old(self) }),
    {
        self.id = id;
    }

    /// Gets whether this is a top-level system.
    pub fn top_level(&self) -> (result: bool)
        ensures
            result == self.top_level,
    {
        self.top_level
    }

    /// Sets whether this is a top-level system.
    pub fn set_top_level(&mut self, top_level: bool)
        ensures
            *final(self) == (SystemInitializer { top_level, ..*old(self) }),
    {
        self.top_level = top_level;
    }
}

} // verus!
