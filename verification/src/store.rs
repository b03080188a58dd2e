//! Storage of data of an arbitrary type as a system.
use crate::on::Changed;
use vstd::prelude::*;

verus! {

/// Provides the ability to store data of an arbitrary type as a system.
pub struct Store<T> {
    /// Whether this value has already been modified, emitting a changed event as a result.
    dirty: bool,
    /// The value held by the store.
    value: T,
}

impl<T> View for Store<T> {
    type V = T;

    /// The value held by the store.
    closed spec fn view(&self) -> T {
        self.value
    }
}

impl<T> Store<T> {
    /// Whether a changed event has been raised for the current value.
    pub closed spec fn is_dirty(&self) -> bool {
        self.dirty
    }

    /// Creates a store that holds the given value.
    pub fn new(value: T) -> (store: Self)
        ensures
            store@ == value,
            !store.is_dirty(),
    {
        Store { dirty: false, value }
    }

    /// Resets this system's dirty flag, allowing it to raise more changed events upon mutable
    /// access.
    pub fn reset_dirty(&mut self, event: &Changed<T>)
        ensures
            final(self)@ == old(self)@,
            !final(self).is_dirty(),
    {
        self.dirty = false;
    }

    /// Gets a reference to the value.
    pub fn deref(&self) -> (value: &T)
        ensures
            *value == self@,
    {
        &self.value
    }

    /// Gets a mutable reference to the value. If no changed event has been raised since the dirty
    /// flag was last reset, there is one to be raised.
    pub fn deref_mut(&mut self) -> (result: (Option<Changed<T>>, &mut T))
        ensures
            result.0 is Some == !old(self).is_dirty(),
            final(self).is_dirty(),
            *result.1 == old(self)@,
            final(self)@ == *final(result.1),
    {
        let raised: Option<Changed<T>> = if !self.dirty {
            self.dirty = true;
            Some(Changed::new())
        } else {
            None
        };
        (raised, &mut self.value)
    }
}

} // verus!
