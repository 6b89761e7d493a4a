//! A persistent ordered set, sharing the height-balanced search tree of
//! the ordered map with unit values.
//!
//! The view of a set is a mathematical `Set<K>`; `to_vec` and the
//! iterator expose the elements as a strictly sorted sequence.
use crate::capabilities::TotallyOrdered;
use crate::map::{pow2, MapIter, OrderedMap};
use vstd::prelude::*;

verus! {

/// A persistent ordered set.  Lookups, inserts and removals are
/// logarithmic in a balanced tree; the element count is cached, so
/// `len` is constant-time.
pub struct OrderedSet<K: TotallyOrdered> {
    m: OrderedMap<K, ()>,
}

impl<K: TotallyOrdered> OrderedSet<K> {
    /// The set's elements as a mathematical set.
    pub closed spec fn as_set(self) -> Set<K> {
        self.m@.dom()
    }

    /// The set's elements in strictly increasing order.
    pub closed spec fn as_entries(self) -> Seq<K> {
        self.m.as_entries().map_values(|p: (K, ())| p.0)
    }

    /// The height of the underlying tree.
    pub closed spec fn spec_height(self) -> nat {
        self.m.spec_height()
    }

    /// Creates a new empty set.
    pub fn empty() -> (r: Self)
        ensures
            r@ == Set::<K>::empty(),
            r.as_entries() == Seq::<K>::empty(),
    {
        let r = OrderedSet { m: OrderedMap::empty() };
        proof {
            assert(r@ =~= Set::<K>::empty());
            assert(r.as_entries() =~= Seq::<K>::empty());
        }
        r
    }

    /// Returns a new set with the element added; inserting an element
    /// that is already present gives an equal set.
    pub fn insert(&self, k: K) -> (r: Self)
        requires
            self@.len() < usize::MAX,
        ensures
            r@ == self@.insert(k),
            r@.len() == self@.len() + (if self@.contains(k) {
                0int
            } else {
                1
            }),
    {
        let m = self.m.insert(k, ());
        let r = OrderedSet { m };
        proof {
            assert(r@ =~= self@.insert(k));
        }
        r
    }

    /// Returns a new set without the element; when it is absent the
    /// result is the same set.
    pub fn remove(&self, k: K) -> (r: Self)
        ensures
            r@ == self@.remove(k),
            r@.len() == self@.len() - (if self@.contains(k) {
                1int
            } else {
                0
            }),
    {
        let m = self.m.remove(k);
        let r = OrderedSet { m };
        proof {
            assert(r@ =~= self@.remove(k));
        }
        r
    }

    /// Returns true if the element is present.
    pub fn exist(&self, k: K) -> (r: bool)
        ensures
            r == self@.contains(k),
    {
        self.m.exist(k)
    }

    /// Copies the elements into a vector, in strictly increasing order.
    pub fn to_vec(&self) -> (r: Vec<K>)
        ensures
            r@ == self.as_entries(),
            r@.len() == self@.len(),
            forall|i: int| 0 <= i < r@.len() ==> self@.contains(#[trigger] r@[i]),
            forall|e: K| #[trigger]
                self@.contains(e) ==> exists|i: int| 0 <= i < r@.len() && r@[i] == e,
            forall|i: int, j: int| 0 <= i < j < r@.len() ==> r@[i].lt_spec(r@[j]),
    {
        let pairs = self.m.to_vec();
        let mut v: Vec<K> = Vec::new();
        let mut i: usize = 0;
        while i < pairs.len()
            invariant
                i <= pairs.len(),
                v@.len() == i,
                forall|j: int| 0 <= j < i ==> v@[j] == pairs@[j].0,
            decreases pairs.len() - i,
        {
            v.push(pairs[i].0.dup());
            i = i + 1;
        }
        proof {
            assert(v@ =~= self.as_entries());
            assert forall|e: K| self@.contains(e) implies exists|i: int|
                0 <= i < v@.len() && v@[i] == e by {
                let i = choose|i: int| 0 <= i < pairs@.len() && pairs@[i].0 == e;
                assert(v@[i] == e);
            }
        }
        v
    }

    /// Returns the height of the tree, as cached at the root.  The
    /// balance invariant keeps it logarithmic in the element count.
    pub fn height(&self) -> (r: usize)
        ensures
            r == self.spec_height(),
            r <= self@.len(),
            pow2(((r + 1) / 2) as nat) <= self@.len() + 2,
    {
        self.m.height()
    }

    /// Returns true if the set has no elements.
    pub fn is_empty(&self) -> (r: bool)
        ensures
            r == (self@.len() == 0),
    {
        self.m.is_empty()
    }

    /// Returns the number of elements; the count is cached.
    pub fn len(&self) -> (r: usize)
        ensures
            r == self@.len(),
    {
        self.m.len()
    }

    /// Returns an iterator that yields the elements in increasing
    /// order.
    pub fn iter(&self) -> (r: SetIter<K>)
        ensures
            r.remaining() == self.as_entries(),
    {
        let r = SetIter { it: self.m.iter() };
        proof {
            assert(r.remaining() =~= self.as_entries());
        }
        r
    }
}

impl<K: TotallyOrdered> View for OrderedSet<K> {
    type V = Set<K>;

    open spec fn view(&self) -> Set<K> {
        self.as_set()
    }
}

/// An iterator over an `OrderedSet`, yielding elements in increasing
/// order.  It walks the tree with an explicit stack of pending
/// subtrees.
pub struct SetIter<K: TotallyOrdered> {
    it: MapIter<K, ()>,
}

impl<K: TotallyOrdered> SetIter<K> {
    /// The elements not yet yielded.
    pub closed spec fn remaining(self) -> Seq<K> {
        self.it.remaining().map_values(|p: (K, ())| p.0)
    }

    /// Yields the next element, or `None` when the iterator is
    /// exhausted.
    pub fn next(&mut self) -> (r: Option<K>)
        ensures
            old(self).remaining().len() == 0 ==> r is None && final(self).remaining()
                == old(self).remaining(),
            old(self).remaining().len() > 0 ==> r == Some(old(self).remaining()[0])
                && final(self).remaining() == old(self).remaining().drop_first(),
    {
        match self.it.next() {
            None => None,
            Some(p) => {
                proof {
                    assert(final(self).remaining() =~= old(self).remaining().drop_first());
                }
                Some(p.0)
            },
        }
    }
}

} // verus!
