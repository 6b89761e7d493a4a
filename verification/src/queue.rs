//! A persistent FIFO queue over two lists.  Elements are enqueued onto
//! the `back` list and dequeued from the `front` list; when the front
//! runs out, the back is reversed once, which makes dequeue amortized
//! constant-time.
//!
//! The view of a queue is the sequence of its elements, oldest first.
use std::sync::Arc;

use crate::capabilities::EquatableAndCloneable;
use crate::list::List;
use vstd::prelude::*;

verus! {

enum QueueNode<E> {
    Empty,
    Node { back: List<E>, front: List<E> },
}

impl<E> QueueNode<E> {
    /// The elements in queue order: the front list, then the back list
    /// reversed.
    spec fn elems(self) -> Seq<E> {
        match self {
            QueueNode::Empty => Seq::empty(),
            QueueNode::Node { back, front } => front@ + back@.reverse(),
        }
    }

    /// A non-empty node holds at least one element, and the two lists
    /// together never exceed a machine word's worth of elements.
    spec fn wf(self) -> bool {
        match self {
            QueueNode::Empty => true,
            QueueNode::Node { back, front } => {
                &&& front@.len() + back@.len() > 0
                &&& front@.len() + back@.len() <= usize::MAX
            },
        }
    }
}

/// A persistent first-in-first-out queue with amortized constant-time
/// `enqueue` and `dequeue`.
pub struct Queue<E> {
    n: Arc<QueueNode<E>>,
}

impl<E> Queue<E> {
    #[verifier::type_invariant]
    spec fn inv(self) -> bool {
        self.n.wf()
    }

    /// The elements of the queue, oldest first.
    pub closed spec fn as_seq(self) -> Seq<E> {
        self.n.elems()
    }
}

impl<E> View for Queue<E> {
    type V = Seq<E>;

    open spec fn view(&self) -> Seq<E> {
        self.as_seq()
    }
}

impl<E> Clone for Queue<E> {
    fn clone(&self) -> (r: Self)
        ensures
            r == *self,
    {
        proof {
            use_type_invariant(self);
        }
        Queue { n: self.n.clone() }
    }
}

impl<E> Queue<E> {
    /// Builds a queue from a back and a front list, collapsing the pair
    /// to the empty queue when both lists are empty.
    fn make_node(back: List<E>, front: List<E>) -> (r: Self)
        requires
            back@.len() + front@.len() <= usize::MAX,
        ensures
            r@ == front@ + back@.reverse(),
    {
        if back.len() == 0 && front.len() == 0 {
            proof {
                assert(front@ + back@.reverse() =~= Seq::<E>::empty());
            }
            Queue { n: Arc::new(QueueNode::Empty) }
        } else {
            Queue { n: Arc::new(QueueNode::Node { back, front }) }
        }
    }

    /// Creates a new empty queue.
    pub fn empty() -> (r: Self)
        ensures
            r@ == Seq::<E>::empty(),
    {
        Queue { n: Arc::new(QueueNode::Empty) }
    }

    /// Returns a new queue with `e` appended at the back; the lists are
    /// shared with `self`.
    pub fn enqueue(&self, e: E) -> (r: Self)
        requires
            self@.len() < usize::MAX,
        ensures
            r@ == self@.push(e),
    {
        proof {
            use_type_invariant(self);
        }
        match &*self.n {
            QueueNode::Empty => {
                let r = Self::make_node(List::empty().push(e), List::empty());
                proof {
                    assert(r@ =~= self@.push(e));
                }
                r
            },
            QueueNode::Node { back, front } => {
                let r = Self::make_node(back.push(e), front.clone());
                proof {
                    assert(r@ =~= self@.push(e));
                }
                r
            },
        }
    }

    /// Returns true if the queue has no elements.
    pub fn is_empty(&self) -> (r: bool)
        ensures
            r == (self@.len() == 0),
    {
        self.len() == 0
    }

    /// Returns the number of elements; both list lengths are cached.
    pub fn len(&self) -> (r: usize)
        ensures
            r == self@.len(),
    {
        proof {
            use_type_invariant(self);
        }
        match &*self.n {
            QueueNode::Empty => 0,
            QueueNode::Node { back, front } => back.len() + front.len(),
        }
    }
}

impl<E: EquatableAndCloneable> Queue<E> {
    /// Removes the oldest element, returning it together with the queue
    /// that remains.
    pub fn dequeue(&self) -> (r: (E, Self))
        requires
            self@.len() > 0,
        ensures
            r.0 == self@[0],
            r.1@ == self@.drop_first(),
    {
        proof {
            use_type_invariant(self);
        }
        match &*self.n {
            QueueNode::Empty => unreached(),
            QueueNode::Node { back, front } => {
                if front.len() == 0 {
                    let l = back.rev();
                    let p = l.pop();
                    let e = l.top().dup();
                    proof {
                        assert(self@ =~= l@);
                        assert(p@ + Seq::<E>::empty().reverse() =~= self@.drop_first());
                    }
                    (e, Self::make_node(List::empty(), p))
                } else {
                    let p = front.pop();
                    let e = front.top().dup();
                    proof {
                        assert(p@ + back@.reverse() =~= self@.drop_first());
                    }
                    (e, Self::make_node(back.clone(), p))
                }
            },
        }
    }

    /// Copies the elements into a vector, oldest first.
    pub fn to_vec(&self) -> (r: Vec<E>)
        ensures
            r@ == self@,
    {
        let mut v: Vec<E> = Vec::new();
        let mut q: Queue<E> = self.clone();
        loop
            invariant
                v@ + q@ == self@,
            ensures
                v@ == self@,
            decreases q@.len(),
        {
            if q.is_empty() {
                proof {
                    assert(v@ =~= v@ + q@);
                }
                break ;
            }
            let (e, q2) = q.dequeue();
            v.push(e);
            proof {
                assert(v@ + q2@ =~= self@);
            }
            q = q2;
        }
        v
    }

    /// Returns an iterator that yields the elements oldest first.
    pub fn iter(&self) -> (r: QueueIter<E>)
        ensures
            r.remaining() == self@,
    {
        QueueIter { queue: self.clone() }
    }
}

/// An iterator over a `Queue`, yielding elements in first-in-first-out
/// order.  It holds a shared handle to the queue version it walks.
pub struct QueueIter<E> {
    queue: Queue<E>,
}

impl<E> QueueIter<E> {
    /// The elements not yet yielded.
    pub closed spec fn remaining(self) -> Seq<E> {
        self.queue@
    }
}

impl<E: EquatableAndCloneable> QueueIter<E> {
    /// Yields the next element, or `None` when the iterator is exhausted.
    pub fn next(&mut self) -> (r: Option<E>)
        ensures
            old(self).remaining().len() == 0 ==> r is None && final(self).remaining()
                == old(self).remaining(),
            old(self).remaining().len() > 0 ==> r == Some(old(self).remaining()[0])
                && final(self).remaining() == old(self).remaining().drop_first(),
    {
        if self.queue.is_empty() {
            None
        } else {
            let (e, q) = self.queue.dequeue();
            self.queue = q;
            Some(e)
        }
    }
}

/// The first-in-first-out law at the level of views: an element
/// enqueued behind others leaves the queue only after all of them, so
/// enqueuing a row of elements and dequeuing them returns the same
/// row in the same order.
pub proof fn lemma_fifo_order<E>(q: Seq<E>, e: E)
    ensures
        q.push(e).len() == q.len() + 1,
        q.len() == 0 ==> q.push(e)[0] == e,
        q.len() > 0 ==> q.push(e)[0] == q[0] && q.push(e).drop_first() == q.drop_first().push(e),
{
    if q.len() > 0 {
        assert(q.push(e).drop_first() =~= q.drop_first().push(e));
    }
}

} // verus!
