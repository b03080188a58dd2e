//! Unwrapping of options whose value is known to be there.
use vstd::prelude::*;

verus! {

/// Unwraps an option, which must have a value.
pub fn const_unwrap<T: Copy>(value: Option<T>) -> (result: T)
    requires
        value is Some,
    ensures
        value == Some(result),
{
    value.unwrap()
}

} // verus!
