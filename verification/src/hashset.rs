//! A persistent hash set, sharing the hash-prefix trie of the hash map
//! with unit values.
//!
//! The view of a hash set is a mathematical `Set<K>`.
use crate::capabilities::{EquatableAndCloneable, Hashable};
use crate::hashmap::{HMIter, HashMap};
use vstd::prelude::*;

verus! {

/// A persistent hash set.  Lookups, inserts and removals touch one
/// trie spine; the element count is cached, so `len` is constant-time.
pub struct HashSet<K: Hashable> {
    m: HashMap<K, ()>,
}

impl<K: Hashable> HashSet<K> {
    /// The set's elements as a mathematical set.
    pub closed spec fn as_set(self) -> Set<K> {
        self.m@.dom()
    }

    /// The set's elements, in the deterministic order of a slot walk.
    pub closed spec fn as_entries(self) -> Seq<K> {
        self.m.as_entries().map_values(|p: (K, ())| p.0)
    }
}

impl<K: Hashable> View for HashSet<K> {
    type V = Set<K>;

    open spec fn view(&self) -> Set<K> {
        self.as_set()
    }
}

impl<K: Hashable> Clone for HashSet<K> {
    fn clone(&self) -> (r: Self)
        ensures
            r == *self,
    {
        HashSet { m: self.m.clone() }
    }
}

impl<K: Hashable + EquatableAndCloneable> HashSet<K> {
    /// Creates a new empty set.
    pub fn empty() -> (r: Self)
        ensures
            r@ == Set::<K>::empty(),
            r.as_entries() == Seq::<K>::empty(),
    {
        let r = HashSet { m: HashMap::empty() };
        proof {
            assert(r@ =~= Set::<K>::empty());
            assert(r.as_entries() =~= Seq::<K>::empty());
        }
        r
    }

    /// Returns a new set with the element added; inserting an element
    /// that is already present returns the same set.
    pub fn insert(&self, k: K) -> (r: Self)
        requires
            self@.len() < usize::MAX,
        ensures
            r@ == self@.insert(k),
            r@.len() == self@.len() + (if self@.contains(k) {
                0int
            } else {
                1
            }),
    {
        if self.m.exist(&k) {
            let r = HashSet { m: self.m.clone() };
            proof {
                assert(r@ =~= self@.insert(k));
            }
            r
        } else {
            let r = HashSet { m: self.m.insert(k, ()) };
            proof {
                assert(r@ =~= self@.insert(k));
            }
            r
        }
    }

    /// Returns a new set without the element; when it is absent the
    /// result is the same set.
    pub fn remove(&self, k: K) -> (r: Self)
        ensures
            r@ == self@.remove(k),
            r@.len() == self@.len() - (if self@.contains(k) {
                1int
            } else {
                0
            }),
    {
        let r = HashSet { m: self.m.remove(k) };
        proof {
            assert(r@ =~= self@.remove(k));
        }
        r
    }

    /// Returns true if the element is present.
    pub fn exist(&self, k: K) -> (r: bool)
        ensures
            r == self@.contains(k),
    {
        self.m.exist(&k)
    }

    /// Copies the elements into a vector, in the deterministic order
    /// of a slot walk; every element appears exactly once.
    pub fn to_vec(&self) -> (r: Vec<K>)
        ensures
            r@ == self.as_entries(),
            r@.len() == self@.len(),
            forall|i: int| 0 <= i < r@.len() ==> self@.contains(#[trigger] r@[i]),
            forall|e: K| #[trigger]
                self@.contains(e) ==> exists|i: int| 0 <= i < r@.len() && r@[i] == e,
            forall|i: int, j: int| 0 <= i < j < r@.len() ==> r@[i] != r@[j],
    {
        let pairs = self.m.to_vec();
        let mut v: Vec<K> = Vec::new();
        let mut i: usize = 0;
        while i < pairs.len()
            invariant
                i <= pairs@.len(),
                v@.len() == i,
                forall|j: int| 0 <= j < i ==> v@[j] == pairs@[j].0,
            decreases pairs@.len() - i,
        {
            v.push(pairs[i].0.dup());
            i = i + 1;
        }
        proof {
            assert(v@ =~= self.as_entries());
            assert forall|e: K| self@.contains(e) implies exists|i: int|
                0 <= i < v@.len() && v@[i] == e by {
                let i = choose|i: int| 0 <= i < pairs@.len() && pairs@[i].0 == e;
                assert(v@[i] == e);
            }
        }
        v
    }

    /// Returns true if the set has no elements.
    pub fn is_true(&self) -> (r: bool)
        ensures
            r == (self@.len() == 0),
    {
        self.m.is_empty()
    }

    /// Returns true if the set has no elements.
    pub fn is_empty(&self) -> (r: bool)
        ensures
            r == (self@.len() == 0),
    {
        self.m.is_empty()
    }

    /// Returns the number of elements; the count is cached.
    pub fn len(&self) -> (r: usize)
        ensures
            r == self@.len(),
    {
        self.m.len()
    }

    /// Returns an iterator over the elements, in the same deterministic
    /// order as `to_vec`.
    pub fn iter(&self) -> (r: HSIter<K>)
        ensures
            r.remaining() == self.as_entries(),
    {
        let r = HSIter { it: self.m.iter() };
        proof {
            assert(r.remaining() =~= self.as_entries());
        }
        r
    }
}

/// An iterator over a `HashSet`, yielding the elements in the
/// deterministic order of a slot walk over the version it was created
/// from.
pub struct HSIter<K> {
    it: HMIter<K, ()>,
}

impl<K> HSIter<K> {
    /// The elements not yet yielded.
    pub closed spec fn remaining(self) -> Seq<K> {
        self.it.remaining().map_values(|p: (K, ())| p.0)
    }
}

impl<K: EquatableAndCloneable> HSIter<K> {
    /// Yields the next element, or `None` when the iterator is
    /// exhausted.
    pub fn next(&mut self) -> (r: Option<K>)
        ensures
            old(self).remaining().len() == 0 ==> r is None && final(self).remaining()
                == old(self).remaining(),
            old(self).remaining().len() > 0 ==> r == Some(old(self).remaining()[0])
                && final(self).remaining() == old(self).remaining().drop_first(),
    {
        match self.it.next() {
            None => None,
            Some(p) => {
                proof {
                    assert(final(self).remaining() =~= old(self).remaining().drop_first());
                }
                Some(p.0)
            },
        }
    }
}

/// Inserting an element that is already present leaves the set's
/// view unchanged: insertion is idempotent.
pub proof fn lemma_insert_idempotent<K>(s: Set<K>, k: K)
    ensures
        s.insert(k).insert(k) == s.insert(k),
{
    assert(s.insert(k).insert(k) =~= s.insert(k));
}

} // verus!
