//! The events which stores raise.
use std::marker::PhantomData;
use vstd::prelude::*;

verus! {

/// Raised whenever a store is mutably accessed.
pub struct Changed<T>(pub PhantomData<T>);

impl<T> Changed<T> {
    /// Creates a new changed event for the given store type.
    pub(crate) fn new() -> (event: Self)
        ensures
            event == Changed::<T>(PhantomData),
    {
        Changed(PhantomData)
    }
}

} // verus!
