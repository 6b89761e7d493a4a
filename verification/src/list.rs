//! A persistent (immutable) stack, as a singly-linked list with a cached
//! length.  Every operation returns a new list and leaves the receiver
//! unchanged; the tail of a pushed list is shared with the original.
//!
//! The view of a list is the sequence of its elements, top first.
use std::sync::Arc;

use crate::capabilities::EquatableAndCloneable;
use vstd::prelude::*;

verus! {

enum ListNode<E> {
    Nil,
    Node(usize, E, Arc<ListNode<E>>),
}

impl<E> ListNode<E> {
    /// The elements of the suffix headed by this node, top first.
    spec fn elems(self) -> Seq<E>
        decreases self,
    {
        match self {
            ListNode::Nil => Seq::empty(),
            ListNode::Node(_, e, tail) => seq![e] + tail.elems(),
        }
    }

    /// The cached length of every node equals the true length of the
    /// suffix it heads.
    spec fn wf(self) -> bool
        decreases self,
    {
        match self {
            ListNode::Nil => true,
            ListNode::Node(s, _, tail) => s == tail.elems().len() + 1 && tail.wf(),
        }
    }

    /// A well-formed list caches its length in a machine word, so the
    /// length is bounded by it.
    proof fn lemma_len_bound(&self)
        requires
            self.wf(),
        ensures
            self.elems().len() <= usize::MAX,
    {
        match *self {
            ListNode::Nil => {},
            ListNode::Node(s, _, tail) => {},
        }
    }
}

/// A persistent stack.  `push`, `pop` and `top` are constant-time; the
/// length is cached, so `len` is constant-time as well.
pub struct List<E> {
    n: Arc<ListNode<E>>,
}

impl<E> List<E> {
    #[verifier::type_invariant]
    spec fn inv(self) -> bool {
        self.n.wf()
    }

    /// The elements of the list, top first.
    pub closed spec fn as_seq(self) -> Seq<E> {
        self.n.elems()
    }
}

impl<E> View for List<E> {
    type V = Seq<E>;

    open spec fn view(&self) -> Seq<E> {
        self.as_seq()
    }
}

impl<E> Clone for List<E> {
    fn clone(&self) -> (r: Self)
        ensures
            r == *self,
    {
        proof {
            use_type_invariant(self);
        }
        List { n: self.n.clone() }
    }
}

impl<E> List<E> {
    /// Reads the cached length of a node.
    fn node_len(n: &ListNode<E>) -> (r: usize)
        requires
            n.wf(),
        ensures
            r == n.elems().len(),
    {
        match n {
            ListNode::Nil => 0,
            ListNode::Node(s, _, _) => *s,
        }
    }

    /// Creates a new empty list.
    pub fn empty() -> (r: Self)
        ensures
            r@ == Seq::<E>::empty(),
    {
        List { n: Arc::new(ListNode::Nil) }
    }

    /// Returns a new list with `e` on top; the tail is shared with `self`.
    pub fn push(&self, e: E) -> (r: Self)
        requires
            self@.len() < usize::MAX,
        ensures
            r@ == seq![e] + self@,
    {
        proof {
            use_type_invariant(self);
        }
        let s = Self::node_len(&*self.n);
        List { n: Arc::new(ListNode::Node(s + 1, e, self.n.clone())) }
    }

    /// Returns the tail of the list, shared with `self`.
    pub fn pop(&self) -> (r: Self)
        requires
            self@.len() > 0,
        ensures
            r@ == self@.drop_first(),
    {
        proof {
            use_type_invariant(self);
        }
        match &*self.n {
            ListNode::Nil => unreached(),
            ListNode::Node(_, _, tail) => {
                proof {
                    assert(self@.drop_first() =~= tail.elems());
                }
                List { n: tail.clone() }
            },
        }
    }

    /// Returns a reference to the top element.
    pub fn top(&self) -> (r: &E)
        requires
            self@.len() > 0,
        ensures
            *r == self@[0],
    {
        proof {
            use_type_invariant(self);
        }
        match &*self.n {
            ListNode::Nil => unreached(),
            ListNode::Node(_, e, _) => e,
        }
    }

    /// Returns true if the list has no elements.
    pub fn is_empty(&self) -> (r: bool)
        ensures
            r == (self@.len() == 0),
    {
        self.len() == 0
    }

    /// Returns the number of elements; the length is cached at the head.
    pub fn len(&self) -> (r: usize)
        ensures
            r == self@.len(),
    {
        proof {
            use_type_invariant(self);
        }
        Self::node_len(&*self.n)
    }
}

impl<E: EquatableAndCloneable> List<E> {
    /// Copies the elements into a vector, top first.
    pub fn to_vec(&self) -> (r: Vec<E>)
        ensures
            r@ == self@,
    {
        proof {
            use_type_invariant(self);
        }
        let mut v: Vec<E> = Vec::new();
        let mut cur: &ListNode<E> = &*self.n;
        loop
            invariant
                cur.wf(),
                v@ + cur.elems() == self@,
            ensures
                v@ == self@,
            decreases cur.elems().len(),
        {
            match cur {
                ListNode::Nil => {
                    proof {
                        assert(v@ =~= v@ + cur.elems());
                    }
                    break ;
                },
                ListNode::Node(_, e, tail) => {
                    v.push(e.dup());
                    proof {
                        assert(v@ + tail.elems() =~= self@);
                    }
                    cur = &**tail;
                },
            }
        }
        v
    }

    /// Returns a new list holding the same elements in reverse order.
    pub fn rev(&self) -> (r: Self)
        ensures
            r@ == self@.reverse(),
    {
        proof {
            use_type_invariant(self);
            self.n.lemma_len_bound();
        }
        let mut acc: List<E> = List::empty();
        let mut cur: &ListNode<E> = &*self.n;
        loop
            invariant
                cur.wf(),
                self@.len() <= usize::MAX,
                acc@.len() + cur.elems().len() == self@.len(),
                forall|j: int| 0 <= j < acc@.len() ==> acc@[j] == self@[acc@.len() - 1 - j],
                cur.elems() == self@.subrange(acc@.len() as int, self@.len() as int),
            ensures
                acc@ == self@.reverse(),
            decreases cur.elems().len(),
        {
            match cur {
                ListNode::Nil => {
                    proof {
                        assert(acc@ =~= self@.reverse());
                    }
                    break ;
                },
                ListNode::Node(_, e, tail) => {
                    let ghost prev = acc@;
                    acc = acc.push(e.dup());
                    proof {
                        assert(cur.elems()[0] == self@[prev.len() as int]);
                        assert forall|j: int| 0 <= j < tail.elems().len() implies tail.elems()[j]
                            == self@[prev.len() + 1 + j] by {
                            assert(cur.elems()[j + 1] == tail.elems()[j]);
                            assert(cur.elems()[j + 1] == self@.subrange(
                                prev.len() as int,
                                self@.len() as int,
                            )[j + 1]);
                        }
                        assert(tail.elems() =~= self@.subrange(
                            acc@.len() as int,
                            self@.len() as int,
                        ));
                    }
                    cur = &**tail;
                },
            }
        }
        acc
    }

    /// Returns an iterator that yields the elements top first.
    pub fn iter(&self) -> (r: Iter<E>)
        ensures
            r.remaining() == self@,
    {
        proof {
            use_type_invariant(self);
        }
        Iter { node: self.n.clone() }
    }
}

/// An iterator over a `List`, yielding elements from the top down.  It
/// holds a shared handle to the node it will visit next.
pub struct Iter<E> {
    node: Arc<ListNode<E>>,
}

impl<E> Iter<E> {
    #[verifier::type_invariant]
    spec fn inv(self) -> bool {
        self.node.wf()
    }

    /// The elements not yet yielded.
    pub closed spec fn remaining(self) -> Seq<E> {
        self.node.elems()
    }
}

impl<E: EquatableAndCloneable> Iter<E> {
    /// Yields the next element, or `None` when the iterator is exhausted.
    pub fn next(&mut self) -> (r: Option<E>)
        ensures
            old(self).remaining().len() == 0 ==> r is None && final(self).remaining()
                == old(self).remaining(),
            old(self).remaining().len() > 0 ==> r == Some(old(self).remaining()[0])
                && final(self).remaining() == old(self).remaining().drop_first(),
    {
        proof {
            use_type_invariant(&*self);
        }
        let node = self.node.clone();
        match &*node {
            ListNode::Nil => None,
            ListNode::Node(_, e, tail) => {
                self.node = tail.clone();
                proof {
                    assert(final(self).remaining() =~= old(self).remaining().drop_first());
                }
                Some(e.dup())
            },
        }
    }
}

/// Reversing a sequence twice gives back the original: the second
/// reversal of a list therefore restores its elements.
pub proof fn lemma_reverse_involution<E>(s: Seq<E>)
    ensures
        s.reverse().reverse() == s,
{
    assert(s.reverse().reverse() =~= s);
}

} // verus!
