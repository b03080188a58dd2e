//! Immutable singly-linked lists, which share their tails.
use vstd::prelude::*;

verus! {

/// A singly-linked list of items, to which items are added at the front.
#[derive(Copy, Clone, Debug)]
pub struct ConstList<'a, T>(Option<ConstListItem<'a, T>>);

/// A linked list node in a `ConstList`.
#[derive(Copy, Clone, Debug)]
struct ConstListItem<'a, T> {
    /// The item represented by this node.
    first: T,
    /// The rest of the list.
    rest: &'a ConstList<'a, T>,
}

impl<'a, T> View for ConstList<'a, T> {
    type V = Seq<T>;

    closed spec fn view(&self) -> Seq<T>
        decreases self,
    {
        match self.0 {
            Some(item) => seq![item.first] + item.rest.view(),
            None => Seq::empty(),
        }
    }
}

impl<'a, T> ConstList<'a, T> {
    /// Creates a new, empty list.
    pub fn new() -> (list: Self)
        ensures
            list@ == Seq::<T>::empty(),
    {
        ConstList(None)
    }

    /// Gets a reference to the item at the provided index in this list, if any.
    pub fn get(&self, index: usize) -> (item: Option<&T>)
        ensures
            match item {
                Some(item) => index < self@.len() && *item == self@[index as int],
                None => index >= self@.len(),
            },
        decreases self,
    {
        if let Some(value) = &self.0 {
            assert(self@ =~= seq![value.first] + value.rest@);
            if index == 0 {
                Some(&value.first)
            } else {
                value.rest.get(index - 1)
            }
        } else {
            None
        }
    }

    /// Determines the length of this list.
    pub fn len(&self) -> (len: usize)
        requires
            self@.len() <= usize::MAX,
        ensures
            len == self@.len(),
        decreases self,
    {
        if let Some(value) = &self.0 {
            value.rest.len() + 1
        } else {
            0
        }
    }

    /// Pushes a new item onto the beginning of this list,
    /// producing a new list head.
    pub fn push(&'a self, value: T) -> (list: Self)
        ensures
            list@ == seq![value] + self@,
    {
        ConstList(Some(ConstListItem { first: value, rest: self }))
    }

    /// Removes the first item (if any) from this list, and produces
    /// the rest of the list.
    pub fn pop(&'a self) -> (result: (Option<&'a T>, &'a Self))
        ensures
            match result.0 {
                Some(first) => self@.len() > 0 && *first == self@[0] && result.1@
                    == self@.drop_first(),
                None => self@.len() == 0 && result.1 == self,
            },
    {
        if let Some(value) = &self.0 {
            assert(self@.drop_first() =~= value.rest@);
            (Some(&value.first), value.rest)
        } else {
            (None, self)
        }
    }

    /// Creates an iterator over the items of this list, from the first one on.
    pub fn into_iter(&'a self) -> (iterator: ConstListIterator<'a, T>)
        ensures
            iterator@ == self@,
    {
        ConstListIterator { target: self }
    }
}

/// Iterates over the contents of a `ConstList`.
pub struct ConstListIterator<'a, T> {
    /// The current list head.
    target: &'a ConstList<'a, T>,
}

impl<'a, T> View for ConstListIterator<'a, T> {
    type V = Seq<T>;

    /// The items that are still to come.
    closed spec fn view(&self) -> Seq<T> {
        self.target@
    }
}

impl<'a, T> ConstListIterator<'a, T> {
    /// Yields the next item, if any.
    pub fn next(&mut self) -> (item: Option<&'a T>)
        ensures
            match item {
                Some(item) => old(self)@.len() > 0 && *item == old(self)@[0] && final(self)@ == old(
                    self,
                )@.drop_first(),
                None => old(self)@.len() == 0 && final(self)@ == old(self)@,
            },
    {
        let (first, rest) = self.target.pop();
        self.target = rest;
        first
    }
}

/// Taking the first item off a list onto which an item was pushed gives back the item and the
/// list.
pub proof fn law_pop_undoes_push<T>(list: Seq<T>, value: T)
    ensures
        (seq![value] + list)[0] == value,
        (seq![value] + list).drop_first() == list,
{
    assert((seq![value] + list).drop_first() =~= list);
}

} // verus!
