//! Queues whose items keep their indices, by the `vecdeque-stableix` crate: what they hold, and the
//! calls that are made on them.
use crate::event_node::EventNode;
use vecdeque_stableix::Deque;
use vstd::prelude::*;

verus! {

/// A queue of event nodes, which keep their indices while nodes are added and taken off.
#[verifier::external_body]
pub struct NodeDeque {
    /// The nodes.
    inner: Deque<EventNode, isize>,
}

/// The nodes that a queue holds, from the front to the back.
pub uninterp spec fn nodes_of(deque: NodeDeque) -> Seq<EventNode>;

/// The index of the node at the front of a queue.
pub uninterp spec fn counter_of(deque: NodeDeque) -> isize;

impl View for NodeDeque {
    type V = Seq<EventNode>;

    open spec fn view(&self) -> Seq<EventNode> {
        nodes_of(*self)
    }
}

impl NodeDeque {
    /// Calls `Deque::new`: the result holds nothing, and its first index is zero.
    #[verifier::external_body]
    pub(crate) fn new() -> (deque: NodeDeque)
        ensures
            nodes_of(deque) == Seq::<EventNode>::empty(),
            counter_of(deque) == 0,
    {
        NodeDeque { inner: Deque::new() }
    }

    /// Calls `Deque::len`: the number of nodes held.
    #[verifier::external_body]
    pub(crate) fn len(&self) -> (len: usize)
        ensures
            len == nodes_of(*self).len(),
    {
        self.inner.len()
    }

    /// Calls `Deque::is_empty`: whether no node is held.
    #[verifier::external_body]
    pub(crate) fn is_empty(&self) -> (result: bool)
        ensures
            result == (nodes_of(*self).len() == 0),
    {
        self.inner.is_empty()
    }

    /// Calls `Deque::counter`: the index of the node at the front, or of the next node to be added
    /// if there is none.
    #[verifier::external_body]
    pub(crate) fn counter(&self) -> (counter: isize)
        ensures
            counter == counter_of(*self),
    {
        *self.inner.counter()
    }

    /// Writes through `Deque::counter_mut`: changes the index of the node at the front, and with it
    /// all indices.
    #[verifier::external_body]
    pub(crate) fn set_counter(&mut self, counter: isize)
        ensures
            nodes_of(*final(self)) == nodes_of(*old(self)),
            counter_of(*final(self)) == counter,
    {
        *self.inner.counter_mut() = counter;
    }

    /// Calls `Deque::front`: the node at the front, if there is one.
    #[verifier::external_body]
    pub(crate) fn front(&self) -> (node: Option<&EventNode>)
        ensures
            match node {
                Some(node) => nodes_of(*self).len() > 0 && *node == nodes_of(*self)[0],
                None => nodes_of(*self).len() == 0,
            },
    {
        self.inner.front()
    }

    /// Calls `Deque::get_mut`: access to the node at an index, which must be in bounds. What is
    /// written to it is held at that index from then on, and nothing else changes.
    #[verifier::external_body]
    pub(crate) fn get_mut(&mut self, index: isize) -> (node: &mut EventNode)
        requires
            counter_of(*old(self)) <= index < counter_of(*old(self)) + nodes_of(*old(self)).len(),
        ensures
            *node == nodes_of(*old(self))[index - counter_of(*old(self))],
            nodes_of(*final(self)) == nodes_of(*old(self)).update(
                index - counter_of(*old(self)),
                *final(node),
            ),
            counter_of(*final(self)) == counter_of(*old(self)),
    {
        self.inner.get_mut(index).unwrap()
    }

    /// Calls `Deque::push_back`: adds a node at the back. The call panics if there is no index for
    /// the node.
    #[verifier::external_body]
    pub(crate) fn push_back(&mut self, node: EventNode)
        requires
            counter_of(*old(self)) + nodes_of(*old(self)).len() <= isize::MAX,
        ensures
            nodes_of(*final(self)) == nodes_of(*old(self)).push(node),
            counter_of(*final(self)) == counter_of(*old(self)),
    {
        self.inner.push_back(node);
    }

    /// Calls `Deque::pop_front`: takes the node at the front off, if there is one, and leaves the
    /// indices of the others as they are. The call panics if there is no index for the node after
    /// it.
    #[verifier::external_body]
    pub(crate) fn pop_front(&mut self) -> (node: Option<EventNode>)
        requires
            counter_of(*old(self)) < isize::MAX,
        ensures
            match node {
                Some(node) => nodes_of(*old(self)).len() > 0 && node == nodes_of(*old(self))[0]
                    && nodes_of(*final(self)) == nodes_of(*old(self)).drop_first() && counter_of(
                    *final(self),
                ) == counter_of(*old(self)) + 1,
                None => nodes_of(*old(self)).len() == 0 && nodes_of(*final(self)) == nodes_of(
                    *old(self),
                ) && counter_of(*final(self)) == counter_of(*old(self)),
            },
    {
        self.inner.pop_front()
    }

    /// Calls `Deque::end_index`: the index after that of the last node. The call panics if there is
    /// no such index.
    #[verifier::external_body]
    pub(crate) fn end_index(&self) -> (index: isize)
        requires
            counter_of(*self) + nodes_of(*self).len() <= isize::MAX,
        ensures
            index == counter_of(*self) + nodes_of(*self).len(),
    {
        self.inner.end_index()
    }
}

} // verus!
