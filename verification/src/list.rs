//! A simple singly linked list with head insertion: the bookkeeping
//! structure the collector's design grew out of, kept for callers that
//! want an order-preserving bag of items without index arithmetic.

use vstd::prelude::*;

verus! {

/// One link: empty, or an item and the rest.
pub enum ListNode<T> {
    Empty,
    Node(T, Box<ListNode<T>>),
}

/// The items of a chain of nodes, head first.
pub open spec fn node_elems<T>(n: ListNode<T>) -> Seq<T>
    decreases n,
{
    match n {
        ListNode::Empty => Seq::empty(),
        ListNode::Node(t, rest) => seq![t] + node_elems(*rest),
    }
}

/// A list headed by its first node.
pub struct List<T> {
    pub head: Box<ListNode<T>>,
}

impl<T> List<T> {
    /// An empty list.
    pub fn new() -> (r: List<T>)
        ensures
            node_elems(*r.head) == Seq::<T>::empty(),
    {
        let r = List { head: Box::new(ListNode::Empty) };
        proof {
            assert(node_elems(*r.head) =~= Seq::<T>::empty());
        }
        r
    }

    /// Inserts an item at the head.
    pub fn insert(&mut self, t: T)
        ensures
            node_elems(*final(self).head) == seq![t] + node_elems(*old(self).head),
    {
        let mut nhead: Box<ListNode<T>> = Box::new(ListNode::Empty);
        core::mem::swap(&mut self.head, &mut nhead);
        self.head = Box::new(ListNode::Node(t, nhead));
    }
}

} // verus!
