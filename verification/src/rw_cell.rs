//! Cells that count their borrows, and the guards that stand for those borrows.
use vstd::prelude::*;

verus! {

/// A cell whose value is only ever read.
#[derive(Debug)]
pub struct ReadCell<T> {
    /// The underlying value.
    inner: T,
}

impl<T> View for ReadCell<T> {
    type V = T;

    closed spec fn view(&self) -> T {
        self.inner
    }
}

impl<T> ReadCell<T> {
    /// Creates a new cell with the given value.
    pub fn new(value: T) -> (cell: Self)
        ensures
            cell@ == value,
    {
        ReadCell { inner: value }
    }

    /// Gets a reference to the value of this cell.
    pub fn deref(&self) -> (value: &T)
        ensures
            *value == self@,
    {
        &self.inner
    }
}

/// The borrow state of a cell that is mutably borrowed.
pub const BORROWED_MUTABLY: u16 = 0xffff;

/// Whether a cell with the given borrow state cannot be borrowed immutably.
pub open spec fn borrow_conflict(state: u16) -> bool {
    state >= BORROWED_MUTABLY - 1
}

/// Whether a cell with the given borrow state cannot be borrowed mutably.
pub open spec fn borrow_mut_conflict(state: u16) -> bool {
    state != 0
}

/// Determines whether a cell with the given borrow state cannot be borrowed immutably.
pub fn borrow_conflicts(state: u16) -> (result: bool)
    ensures
        result == borrow_conflict(state),
        result == (state == 0xffff || state == 0xfffe),
{
    state >= BORROWED_MUTABLY - 1
}

/// Determines whether a cell with the given borrow state cannot be borrowed mutably.
pub fn borrow_mut_conflicts(state: u16) -> (result: bool)
    ensures
        result == borrow_mut_conflict(state),
        result == (state > 0),
{
    state != 0
}

/// A lightweight reference-counted cell.
#[derive(Debug)]
pub struct RwCell<T> {
    /// The value contained in the cell.
    value: T,
    /// The borrow counter.
    borrow_state: u16,
}

impl<T> RwCell<T> {
    /// The value contained in the cell.
    pub closed spec fn content(&self) -> T {
        self.value
    }

    /// The number of immutable borrows, or the greatest number while there is a mutable one.
    pub closed spec fn state(&self) -> u16 {
        self.borrow_state
    }

    /// Creates a new cell that wraps the provided value.
    pub fn new(value: T) -> (cell: Self)
        ensures
            cell.content() == value,
            cell.state() == 0,
    {
        RwCell { value, borrow_state: 0 }
    }

    /// Immutably borrows the value of this cell. The borrow ends when its guard goes out of scope,
    /// and the cell is then borrowed as it was before.
    pub fn borrow(&mut self) -> (guard: RwCellGuard<'_, T>)
        requires
            !borrow_conflict(old(self).state()),
        ensures
            *guard.value == old(self).content(),
            guard.counted() == old(self).state() + 1,
            *guard.others == old(self).state(),
            final(self).content() == old(self).content(),
            final(self).state() == *final(guard.others),
    {
        RwCellGuard { value: &self.value, others: &mut self.borrow_state }
    }

    /// Mutably borrows the value of this cell. The borrow ends when its guard goes out of scope,
    /// and the cell is then free again.
    pub fn borrow_mut(&mut self) -> (guard: RwCellGuardMut<'_, T>)
        requires
            !borrow_mut_conflict(old(self).state()),
        ensures
            *guard.value == old(self).content(),
            guard.counted() == BORROWED_MUTABLY,
            *guard.others == 0,
            final(self).content() == *final(guard.value),
            final(self).state() == *final(guard.others),
    {
        RwCellGuardMut { value: &mut self.value, others: &mut self.borrow_state }
    }

    /// Ends an immutable borrow whose guard was detached.
    pub fn end_borrow(&mut self)
        requires
            0 < old(self).state() < BORROWED_MUTABLY,
        ensures
            final(self).content() == old(self).content(),
            final(self).state() == old(self).state() - 1,
    {
        self.borrow_state = self.borrow_state - 1;
    }

    /// Ends a mutable borrow whose guard was detached.
    pub fn end_borrow_mut(&mut self)
        requires
            old(self).state() == BORROWED_MUTABLY,
        ensures
            final(self).content() == old(self).content(),
            final(self).state() == 0,
    {
        self.borrow_state = 0;
    }

    /// Determines whether this cell is free to be borrowed.
    pub fn free(&self) -> (result: bool)
        ensures
            result == (self.state() == 0),
    {
        self.borrow_state == 0
    }

    /// Gets the borrow state of this cell.
    pub fn borrow_state(&self) -> (state: u16)
        ensures
            state == self.state(),
    {
        self.borrow_state
    }
}

/// A resource guard that controls the lifetime of an immutable read-write cell borrow. As nobody
/// else can look at the cell while the guard lives, the borrow is only written into the counter if
/// it is to outlive the guard.
pub struct RwCellGuard<'a, T> {
    /// The value currently being borrowed.
    pub value: &'a T,
    /// The borrow counter, as it is without this borrow.
    pub others: &'a mut u16,
}

impl<'a, T> RwCellGuard<'a, T> {
    /// The borrow state of the cell while the guard lives.
    pub open spec fn counted(&self) -> int {
        *self.others + 1
    }

    /// Removes the lifetime from a guard: the borrow goes on after the guard, until it is ended.
    pub fn detach(self)
        requires
            !borrow_conflict(*self.others),
        ensures
            *final(self.others) == *old(self.others) + 1,
    {
        *self.others = *self.others + 1;
    }

    /// Creates a reference to a specific portion of a value.
    pub fn map<U, F>(orig: Self, f: F) -> (result: RwCellGuard<'a, U>) where
        F: FnOnce(&'a T) -> &'a U,

        requires
            call_requires(f, (orig.value,)),
        ensures
            call_ensures(f, (orig.value,), result.value),
            *result.others == *old(orig.others),
            *final(result.others) == *final(orig.others),
    {
        RwCellGuard { value: f(orig.value), others: orig.others }
    }

    /// Gets a reference to the value that is borrowed.
    pub fn deref(&self) -> (value: &T)
        ensures
            value == self.value,
    {
        self.value
    }
}

/// A resource guard that controls the lifetime of a mutable read-write cell borrow. As nobody else
/// can look at the cell while the guard lives, the borrow is only written into the counter if it is
/// to outlive the guard.
pub struct RwCellGuardMut<'a, T> {
    /// The value currently being borrowed.
    pub value: &'a mut T,
    /// The borrow counter, as it is without this borrow.
    pub others: &'a mut u16,
}

impl<'a, T> RwCellGuardMut<'a, T> {
    /// The borrow state of the cell while the guard lives.
    pub open spec fn counted(&self) -> u16 {
        BORROWED_MUTABLY
    }

    /// Removes the lifetime from a guard: the borrow goes on after the guard, until it is ended.
    pub fn detach(self)
        ensures
            *final(self.value) == *old(self.value),
            *final(self.others) == BORROWED_MUTABLY,
    {
        *self.others = BORROWED_MUTABLY;
    }

    /// Creates a reference to a specific portion of a value.
    pub fn map<U, F>(orig: Self, f: F) -> (result: RwCellGuardMut<'a, U>) where
        F: FnOnce(&'a mut T) -> &'a mut U,

        requires
            forall|value: &'a mut T|
                *value == *orig.value ==> #[trigger] call_requires(f, (value,)),
        ensures
            exists|value: &'a mut T, portion: &'a mut U|
                {
                    &&& *value == *old(orig.value)
                    &&& *final(value) == *final(orig.value)
                    &&& *portion == *result.value
                    &&& *final(portion) == *final(result.value)
                    &&& #[trigger] call_ensures(f, (value,), portion)
                },
            *result.others == *old(orig.others),
            *final(result.others) == *final(orig.others),
    {
        let RwCellGuardMut { value, others } = orig;
        let portion = f(&mut *value);
        assert(has_resolved(value));
        let result = RwCellGuardMut { value: portion, others };
        result
    }

    /// Gets a reference to the value that is borrowed.
    pub fn deref(&self) -> (value: &T)
        ensures
            *value == *old(self.value),
    {
        &*self.value
    }

    /// Gets a mutable reference to the value that is borrowed.
    pub fn deref_mut(&mut self) -> (value: &mut T)
        ensures
            *value == *old(self).value,
            *final(self).value == *final(value),
            *final(final(self).value) == *final(old(self).value),
            final(self).others == old(self).others,
    {
        &mut *self.value
    }
}

/// A cell can be mutably borrowed only while it is free. Once it is, it cannot be borrowed at all. It
/// can be immutably borrowed again and again, as long as the counter does not reach the state of a
/// mutable borrow.
pub proof fn law_mutable_borrows_are_exclusive(state: u16)
    ensures
        !borrow_mut_conflict(state) <==> state == 0,
        borrow_conflict(BORROWED_MUTABLY),
        borrow_mut_conflict(BORROWED_MUTABLY),
        BORROWED_MUTABLY == u16::MAX,
        state + 1 < u16::MAX <==> !borrow_conflict(state),
{
}

} // verus!
