//! A generic prepend-only singly-linked collection.
//!
//! The only insertion operation adds at the front, so the stored order is
//! the reverse of the insertion order. The collection tracks its own size;
//! `wf()` states that the count matches the chain that is actually reachable
//! from the head.

use vstd::prelude::*;

verus! {

/// One link of the chain: a value and exclusive ownership of the rest.
pub struct Node<T> {
    pub val: T,
    pub next: Option<Box<Node<T>>>,
}

/// The collection head: an optional owned first node and an element count.
pub struct List<T> {
    pub head: Option<Box<Node<T>>>,
    pub length: usize,
}

/// The values stored in a chain, front to back.
pub open spec fn node_seq<T>(n: Option<Box<Node<T>>>) -> Seq<T>
    decreases n,
{
    match n {
        None => Seq::empty(),
        Some(b) => seq![b.val] + node_seq(b.next),
    }
}

impl<T> Node<T> {
    pub fn new(val: T) -> (n: Node<T>)
        ensures
            n.val == val,
            n.next is None,
    {
        Node { val, next: None }
    }
}

impl<T> View for List<T> {
    type V = Seq<T>;

    open spec fn view(&self) -> Seq<T> {
        node_seq(self.head)
    }
}

impl<T> List<T> {
    /// The stored count agrees with the reachable chain.
    pub open spec fn wf(&self) -> bool {
        self.length == self@.len()
    }

    pub fn new() -> (l: List<T>)
        ensures
            l.wf(),
            l@ == Seq::<T>::empty(),
    {
        List { head: None, length: 0 }
    }

    /// Prepend: the new value becomes the front of the collection.
    pub fn add_list(&mut self, val: T)
        requires
            old(self).wf(),
            old(self)@.len() < usize::MAX,
        ensures
            final(self).wf(),
            final(self)@ == seq![val] + old(self)@,
    {
        let mut new_node: Box<Node<T>> = Box::new(Node::new(val));

        if self.length == 0 {
            proof {
                assert(self@.len() == 0);
                assert(self.head is None);
            }
            new_node.next = None;
            self.head = Some(new_node);
        } else {
            new_node.next = self.head.take();
            self.head = Some(new_node);
        }
        self.length = self.length + 1;
    }

    pub fn len(&self) -> (n: usize)
        requires
            self.wf(),
        ensures
            n == self@.len(),
    {
        self.length
    }

    /// Begin a forward traversal. Traversals are read-only and independent:
    /// several may walk the same collection at once.
    pub fn traverse<'a>(&'a self) -> (t: Traverse<'a, T>)
        ensures
            t.remaining() == self@,
    {
        Traverse { cur: &self.head }
    }
}

/// A cursor over a chain suffix; `remaining()` is what is left to visit.
pub struct Traverse<'a, T> {
    pub cur: &'a Option<Box<Node<T>>>,
}

impl<'a, T> Clone for Traverse<'a, T> {
    fn clone(&self) -> (c: Self)
        ensures
            c == *self,
    {
        Traverse { cur: self.cur }
    }
}

impl<'a, T> Copy for Traverse<'a, T> {

}

impl<'a, T> Traverse<'a, T> {
    pub open spec fn remaining(&self) -> Seq<T> {
        node_seq(*self.cur)
    }

    /// Yield the next value, or `None` at the end of the chain.
    pub fn next(&mut self) -> (r: Option<&'a T>)
        ensures
            old(self).remaining().len() == 0 ==> r is None && *final(self) == *old(self),
            old(self).remaining().len() > 0 ==> {
                &&& r matches Some(v) && *v == old(self).remaining()[0]
                &&& final(self).remaining() == old(self).remaining().skip(1)
            },
    {
        match self.cur {
            None => None,
            Some(node) => {
                self.cur = &node.next;
                proof {
                    assert(old(self).remaining() == seq![node.val] + node_seq(node.next));
                    assert(old(self).remaining().skip(1) =~= node_seq(node.next));
                }
                Some(&node.val)
            },
        }
    }
}

} // verus!
