//! A persistent hash map over a wide hash-prefix trie.  Each level of
//! the trie consumes five bits of the key's 64-bit hash; a mutation
//! copies only the spine of branch nodes from the root to the affected
//! slot and shares every other subtree.  Two distinct keys with the
//! same full hash end up in a small collision list below the deepest
//! branch level.
//!
//! The view of a hash map is a mathematical `Map<K, V>`.
use std::sync::Arc;

use crate::capabilities::{EquatableAndCloneable, Hashable};
use vstd::pervasive::VecAdditionalExecFns;
use vstd::prelude::*;

verus! {

broadcast use vstd::set::group_set_axioms, vstd::set_lib::group_set_properties, vstd::map::group_map_axioms;

pub(crate) enum HashMapNode<K, V> {
    Empty,
    One(u64, K, V),
    Collision(u64, Arc<Vec<(K, V)>>),
    Node(usize, Arc<Vec<HashMapNode<K, V>>>),
}

/// The mask selecting the hash bits consumed strictly below `shift`.
pub(crate) open spec fn sub_mask(shift: u64) -> u64 {
    if shift >= 64 {
        u64::MAX
    } else {
        !(u64::MAX << shift)
    }
}

/// The branch slot a hash selects at a level.
pub(crate) open spec fn slot_of(h: u64, shift: u64) -> u64 {
    (h >> shift) & 31
}

/// The map described by a sequence of key-value pairs, later pairs
/// winning.
pub(crate) open spec fn seq_pairs_map<K, V>(s: Seq<(K, V)>) -> Map<K, V>
    decreases s.len(),
{
    if s.len() == 0 {
        Map::empty()
    } else {
        seq_pairs_map(s.drop_last()).insert(s.last().0, s.last().1)
    }
}

/// The union of the maps of a sequence of subtrees.
pub(crate) open spec fn children_union<K, V>(s: Seq<HashMapNode<K, V>>) -> Map<K, V>
    decreases s,
{
    if s.len() == 0 {
        Map::empty()
    } else {
        children_union(s.drop_last()).union_prefer_right(s.last().as_map())
    }
}

/// The total number of keys in a sequence of subtrees.
pub(crate) open spec fn children_count<K, V>(s: Seq<HashMapNode<K, V>>) -> nat
    decreases s,
{
    if s.len() == 0 {
        0
    } else {
        children_count(s.drop_last()) + s.last().key_count()
    }
}

/// The entries of a row of subtrees, in slot order.
pub(crate) open spec fn children_entries<K, V>(s: Seq<HashMapNode<K, V>>) -> Seq<(K, V)>
    decreases s,
{
    if s.len() == 0 {
        Seq::empty()
    } else {
        children_entries(s.drop_last()) + s.last().node_entries()
    }
}

impl<K, V> HashMapNode<K, V> {
    /// The entries of the subtree, in deterministic slot-walk order.
    pub(crate) open spec fn node_entries(&self) -> Seq<(K, V)>
        decreases self,
    {
        match *self {
            HashMapNode::Empty => Seq::empty(),
            HashMapNode::One(_, k, v) => seq![(k, v)],
            HashMapNode::Collision(_, entries) => entries@,
            HashMapNode::Node(_, ch) => children_entries(ch@),
        }
    }

    /// The subtree as a mathematical map.
    pub(crate) open spec fn as_map(&self) -> Map<K, V>
        decreases self,
    {
        match *self {
            HashMapNode::Empty => Map::empty(),
            HashMapNode::One(_, k, v) => Map::empty().insert(k, v),
            HashMapNode::Collision(_, entries) => seq_pairs_map(entries@),
            HashMapNode::Node(_, ch) => children_union(ch@),
        }
    }

    /// The number of keys in the subtree.
    pub(crate) open spec fn key_count(&self) -> nat
        decreases self,
    {
        match *self {
            HashMapNode::Empty => 0,
            HashMapNode::One(_, _, _) => 1,
            HashMapNode::Collision(_, entries) => entries@.len(),
            HashMapNode::Node(_, ch) => children_count(ch@),
        }
    }
}

impl<K: Hashable, V> HashMapNode<K, V> {
    /// Well-formedness of a subtree rooted at the given shift: hashes
    /// are cached correctly, every branch holds exactly 32 children
    /// whose keys hash to their slot, the cached counts are right, and
    /// collision lists sit below the deepest branch level and hold at
    /// least two distinct keys of equal hash.
    pub(crate) open spec fn wf(&self, shift: u64) -> bool
        decreases self,
    {
        match *self {
            HashMapNode::Empty => true,
            HashMapNode::One(h, k, _) => h == k.hash_spec(),
            HashMapNode::Collision(h, entries) => {
                &&& shift >= 64
                &&& entries@.len() >= 2
                &&& forall|i: int|
                    #![trigger entries@[i]]
                    0 <= i < entries@.len() ==> entries@[i].0.hash_spec() == h
                &&& forall|i: int, j: int|
                    0 <= i < j < entries@.len() ==> entries@[i].0 != entries@[j].0
            },
            HashMapNode::Node(c, ch) => {
                &&& shift <= 60
                &&& shift % 5 == 0
                &&& ch@.len() == 32
                &&& c == children_count(ch@)
                &&& forall|i: int| #![trigger ch@[i]] 0 <= i < 32 ==> ch@[i].wf((shift + 5) as u64)
                &&& forall|i: int, e: K|
                    #![trigger ch@[i].as_map().dom().contains(e)]
                    0 <= i < 32 && ch@[i].as_map().dom().contains(e) ==> slot_of(
                        e.hash_spec(),
                        shift,
                    ) == i
            },
        }
    }

    /// A well-formed subtree has finitely many keys, exactly as many
    /// as its cached count claims.
    pub(crate) proof fn lemma_wf_count(&self, shift: u64)
        requires
            self.wf(shift),
        ensures
            self.as_map().dom().finite(),
            self.as_map().dom().len() == self.key_count(),
        decreases self,
    {
        match self {
            HashMapNode::Empty => {
                assert(self.as_map().dom() =~= Set::<K>::empty());
            },
            HashMapNode::One(_, _, _) => {},
            HashMapNode::Collision(_, entries) => {
                lemma_pairs_map(entries@);
            },
            HashMapNode::Node(_, ch) => {
                lemma_children_count_row(ch@, shift);
            },
        }
    }
}

/// The map of a pair sequence with distinct keys: exactly those pairs.
proof fn lemma_pairs_map<K, V>(s: Seq<(K, V)>)
    requires
        forall|i: int, j: int| 0 <= i < j < s.len() ==> s[i].0 != s[j].0,
    ensures
        seq_pairs_map(s).dom().finite(),
        seq_pairs_map(s).dom().len() == s.len(),
        forall|i: int|
            #![trigger s[i]]
            0 <= i < s.len() ==> seq_pairs_map(s).dom().contains(s[i].0)
                && seq_pairs_map(s)[s[i].0] == s[i].1,
        forall|e: K| #[trigger]
            seq_pairs_map(s).dom().contains(e) ==> exists|i: int|
                0 <= i < s.len() && s[i].0 == e,
    decreases s.len(),
{
    if s.len() > 0 {
        lemma_pairs_map(s.drop_last());
        assert forall|e: K| seq_pairs_map(s).dom().contains(e) implies exists|i: int|
            0 <= i < s.len() && s[i].0 == e by {
            if e == s.last().0 {
                assert(s[s.len() - 1].0 == e);
            } else {
                assert(seq_pairs_map(s.drop_last()).dom().contains(e));
                let i = choose|i: int| 0 <= i < s.len() - 1 && s.drop_last()[i].0 == e;
                assert(s[i].0 == e);
            }
        }
        assert(!seq_pairs_map(s.drop_last()).dom().contains(s.last().0)) by {
            if seq_pairs_map(s.drop_last()).dom().contains(s.last().0) {
                let i = choose|i: int|
                    0 <= i < s.len() - 1 && s.drop_last()[i].0 == s.last().0;
                assert(s[i].0 == s[s.len() - 1].0);
            }
        }
        assert forall|i: int| 0 <= i < s.len() implies seq_pairs_map(s).dom().contains(s[i].0)
            && seq_pairs_map(s)[s[i].0] == s[i].1 by {
            if i < s.len() - 1 {
                assert(s.drop_last()[i] == s[i]);
                assert(s[i].0 != s.last().0);
            } else {
                assert(s[i] == s.last());
            }
        }
    }
}

/// Membership and lookup in the union of a sequence of subtree maps.
proof fn lemma_union_props<K, V>(s: Seq<HashMapNode<K, V>>)
    ensures
        forall|e: K| #[trigger]
            children_union(s).dom().contains(e) ==> exists|j: int|
                0 <= j < s.len() && s[j].as_map().dom().contains(e),
        forall|j: int, e: K|
            #![trigger s[j].as_map().dom().contains(e)]
            0 <= j < s.len() && s[j].as_map().dom().contains(e) ==> children_union(
                s,
            ).dom().contains(e),
        forall|j: int, e: K|
            #![trigger s[j].as_map()[e]]
            0 <= j < s.len() && s[j].as_map().dom().contains(e) && (forall|j2: int|
                j < j2 < s.len() ==> !s[j2].as_map().dom().contains(e)) ==> children_union(s)[e]
                == s[j].as_map()[e],
    decreases s.len(),
{
    if s.len() > 0 {
        lemma_union_props(s.drop_last());
        assert forall|e: K| children_union(s).dom().contains(e) implies exists|j: int|
            0 <= j < s.len() && s[j].as_map().dom().contains(e) by {
            if s.last().as_map().dom().contains(e) {
                assert(s[s.len() - 1].as_map().dom().contains(e));
            } else {
                assert(children_union(s.drop_last()).dom().contains(e));
                let j = choose|j: int|
                    0 <= j < s.len() - 1 && s.drop_last()[j].as_map().dom().contains(e);
                assert(s[j].as_map().dom().contains(e));
            }
        }
        assert forall|j: int, e: K|
            0 <= j < s.len() && s[j].as_map().dom().contains(e) implies children_union(
            s,
        ).dom().contains(e) by {
            if j == s.len() - 1 {
                assert(s.last().as_map().dom().contains(e));
            } else {
                assert(s.drop_last()[j].as_map().dom().contains(e));
                assert(children_union(s.drop_last()).dom().contains(e));
            }
        }
        assert forall|j: int, e: K|
            0 <= j < s.len() && s[j].as_map().dom().contains(e) && (forall|j2: int|
                j < j2 < s.len() ==> !s[j2].as_map().dom().contains(e)) implies children_union(
            s,
        )[e] == s[j].as_map()[e] by {
            if j == s.len() - 1 {
                assert(s.last().as_map().dom().contains(e));
            } else {
                assert(!s[s.len() - 1].as_map().dom().contains(e));
                assert(s.drop_last()[j].as_map().dom().contains(e));
                assert(forall|j2: int|
                    j < j2 < s.len() - 1 ==> !s.drop_last()[j2].as_map().dom().contains(e));
                assert(children_union(s.drop_last())[e] == s.drop_last()[j].as_map()[e]);
            }
        }
    }
}


/// A row of empty slots holds the empty map.
proof fn lemma_union_all_empty<K, V>(s: Seq<HashMapNode<K, V>>)
    requires
        forall|j: int| 0 <= j < s.len() ==> (#[trigger] s[j]) is Empty,
    ensures
        children_union(s) == Map::<K, V>::empty(),
    decreases s.len(),
{
    if s.len() > 0 {
        assert forall|j: int| 0 <= j < s.len() - 1 implies (#[trigger] s.drop_last()[j])
            is Empty by {
            assert(s.drop_last()[j] == s[j]);
        }
        lemma_union_all_empty(s.drop_last());
        assert(s.last() is Empty);
        assert(s.last().as_map() =~= Map::<K, V>::empty());
        assert(children_union(s) =~= Map::<K, V>::empty());
    }
}

/// A row with a single occupied slot holds that slot's map.
proof fn lemma_union_single<K, V>(s: Seq<HashMapNode<K, V>>, i: int)
    requires
        0 <= i < s.len(),
        forall|j: int| 0 <= j < s.len() && j != i ==> (#[trigger] s[j]) is Empty,
    ensures
        children_union(s) == s[i].as_map(),
    decreases s.len(),
{
    if i == s.len() - 1 {
        assert forall|j: int| 0 <= j < s.len() - 1 implies (#[trigger] s.drop_last()[j])
            is Empty by {
            assert(s.drop_last()[j] == s[j]);
        }
        lemma_union_all_empty(s.drop_last());
        assert(children_union(s) =~= s[i].as_map());
    } else {
        assert forall|j: int| 0 <= j < s.len() - 1 && j != i implies (#[trigger] s.drop_last()[j]) is Empty by {
            assert(s.drop_last()[j] == s[j]);
        }
        assert(s.drop_last()[i] == s[i]);
        lemma_union_single(s.drop_last(), i);
        assert(s.last() is Empty);
        assert(s.last().as_map() =~= Map::<K, V>::empty());
        assert(children_union(s) =~= s[i].as_map());
    }
}

/// A row with exactly two occupied slots holds the union of their
/// maps.
proof fn lemma_union_two<K, V>(s: Seq<HashMapNode<K, V>>, i1: int, i2: int)
    requires
        0 <= i1 < s.len(),
        0 <= i2 < s.len(),
        i1 != i2,
        s[i1].as_map().dom().disjoint(s[i2].as_map().dom()),
        forall|j: int| 0 <= j < s.len() && j != i1 && j != i2 ==> (#[trigger] s[j]) is Empty,
    ensures
        children_union(s) == s[i1].as_map().union_prefer_right(s[i2].as_map()),
    decreases s.len(),
{
    if i2 == s.len() - 1 {
        assert forall|j: int| 0 <= j < s.len() - 1 && j != i1 implies (#[trigger] s.drop_last()[j]) is Empty by {
            assert(s.drop_last()[j] == s[j]);
        }
        assert(s.drop_last()[i1] == s[i1]);
        lemma_union_single(s.drop_last(), i1);
    } else if i1 == s.len() - 1 {
        assert forall|j: int| 0 <= j < s.len() - 1 && j != i2 implies (#[trigger] s.drop_last()[j]) is Empty by {
            assert(s.drop_last()[j] == s[j]);
        }
        assert(s.drop_last()[i2] == s[i2]);
        lemma_union_single(s.drop_last(), i2);
        assert(children_union(s) =~= s[i1].as_map().union_prefer_right(s[i2].as_map()));
    } else {
        assert forall|j: int|
            0 <= j < s.len() - 1 && j != i1 && j != i2 implies (#[trigger] s.drop_last()[j])
            is Empty by {
            assert(s.drop_last()[j] == s[j]);
        }
        assert(s.drop_last()[i1] == s[i1]);
        assert(s.drop_last()[i2] == s[i2]);
        lemma_union_two(s.drop_last(), i1, i2);
        assert(s.last() is Empty);
        assert(s.last().as_map() =~= Map::<K, V>::empty());
        assert(children_union(s) =~= s[i1].as_map().union_prefer_right(s[i2].as_map()));
    }
}

/// The count of a child never exceeds the count of the whole row.
proof fn lemma_count_at_least<K, V>(s: Seq<HashMapNode<K, V>>, i: int)
    requires
        0 <= i < s.len(),
    ensures
        children_count(s) >= s[i].key_count(),
    decreases s.len(),
{
    if i == s.len() - 1 {
    } else {
        lemma_count_at_least(s.drop_last(), i);
        assert(s.drop_last()[i] == s[i]);
    }
}

/// Replacing one child changes the row's count by the difference.
proof fn lemma_count_update<K, V>(s: Seq<HashMapNode<K, V>>, i: int, n: HashMapNode<K, V>)
    requires
        0 <= i < s.len(),
    ensures
        children_count(s.update(i, n)) == children_count(s) - s[i].key_count() + n.key_count(),
    decreases s.len(),
{
    if i == s.len() - 1 {
        assert(s.update(i, n).drop_last() =~= s.drop_last());
        assert(s.update(i, n).last() == n);
    } else {
        lemma_count_update(s.drop_last(), i, n);
        assert(s.update(i, n).drop_last() =~= s.drop_last().update(i, n));
        assert(s.update(i, n).last() == s.last());
        assert(s.drop_last()[i] == s[i]);
    }
}

/// Extending an agreeing hash prefix by one level's worth of bits.
proof fn lemma_slot_extends(a: u64, b: u64, s: u64)
    requires
        s <= 60,
        s % 5 == 0,
        a & sub_mask(s) == b & sub_mask(s),
        slot_of(a, s) == slot_of(b, s),
    ensures
        a & sub_mask((s + 5) as u64) == b & sub_mask((s + 5) as u64),
        s == 60 ==> a == b,
{
    assert((s < 60 && (a & !(0xffff_ffff_ffff_ffffu64 << s)) == (b & !(0xffff_ffff_ffff_ffffu64
        << s)) && ((a >> s) & 31) == ((b >> s) & 31)) ==> (a & !(0xffff_ffff_ffff_ffffu64 << (s
        + 5))) == (b & !(0xffff_ffff_ffff_ffffu64 << (s + 5)))) by (bit_vector);
    assert((s == 60 && (a & !(0xffff_ffff_ffff_ffffu64 << s)) == (b & !(0xffff_ffff_ffff_ffffu64
        << s)) && ((a >> s) & 31) == ((b >> s) & 31)) ==> a == b) by (bit_vector);
}

/// Over a full hash prefix, agreement means equal hashes.
proof fn lemma_full_mask(a: u64, b: u64)
    requires
        a & u64::MAX == b & u64::MAX,
    ensures
        a == b,
{
    assert(a & 0xffff_ffff_ffff_ffffu64 == a) by (bit_vector);
    assert(b & 0xffff_ffff_ffff_ffffu64 == b) by (bit_vector);
}

impl<K: EquatableAndCloneable, V: EquatableAndCloneable> HashMapNode<K, V> {
    /// Makes a value-equal copy of a subtree header, sharing its
    /// children.
    fn clone_node(n: &HashMapNode<K, V>) -> (r: HashMapNode<K, V>)
        ensures
            r == *n,
    {
        match n {
            HashMapNode::Empty => HashMapNode::Empty,
            HashMapNode::One(h, k, v) => HashMapNode::One(*h, k.dup(), v.dup()),
            HashMapNode::Collision(h, entries) => HashMapNode::Collision(*h, entries.clone()),
            HashMapNode::Node(c, ch) => HashMapNode::Node(*c, ch.clone()),
        }
    }

}

impl<K: Hashable + EquatableAndCloneable, V: EquatableAndCloneable> HashMapNode<K, V> {
    /// A fresh row of 32 empty slots.
    fn empty_children() -> (r: Vec<HashMapNode<K, V>>)
        ensures
            r@.len() == 32,
            forall|i: int| 0 <= i < 32 ==> (#[trigger] r@[i]) is Empty,
    {
        let mut r: Vec<HashMapNode<K, V>> = Vec::new();
        let mut i: usize = 0;
        while i < 32
            invariant
                i <= 32,
                r@.len() == i,
                forall|j: int| 0 <= j < i ==> (#[trigger] r@[j]) is Empty,
            decreases 32 - i,
        {
            r.push(HashMapNode::Empty);
            i = i + 1;
        }
        r
    }

    /// Copies a row of children, slot by slot, sharing each subtree.
    fn copy_children(ch: &Vec<HashMapNode<K, V>>) -> (r: Vec<HashMapNode<K, V>>)
        ensures
            r@ == ch@,
    {
        let mut r: Vec<HashMapNode<K, V>> = Vec::new();
        let mut i: usize = 0;
        while i < ch.len()
            invariant
                i <= ch@.len(),
                r@.len() == i,
                forall|j: int| 0 <= j < i ==> r@[j] == ch@[j],
            decreases ch@.len() - i,
        {
            r.push(Self::clone_node(&ch[i]));
            i = i + 1;
        }
        proof {
            assert(r@ =~= ch@);
        }
        r
    }

    /// Copies a collision list.
    fn copy_pairs(entries: &Vec<(K, V)>) -> (r: Vec<(K, V)>)
        ensures
            r@ == entries@,
    {
        let mut r: Vec<(K, V)> = Vec::new();
        let mut i: usize = 0;
        while i < entries.len()
            invariant
                i <= entries@.len(),
                r@.len() == i,
                forall|j: int| 0 <= j < i ==> r@[j] == entries@[j],
            decreases entries@.len() - i,
        {
            r.push((entries[i].0.dup(), entries[i].1.dup()));
            i = i + 1;
        }
        proof {
            assert(r@ =~= entries@);
        }
        r
    }

    /// Builds the subtree that holds exactly two distinct keys whose
    /// hashes agree on all bits below the shift.
    fn merge_pair(shift: u64, h1: u64, k1: K, v1: V, h2: u64, k2: K, v2: V) -> (res: HashMapNode<
        K,
        V,
    >)
        requires
            shift <= 60,
            shift % 5 == 0,
            k1 != k2,
            h1 == k1.hash_spec(),
            h2 == k2.hash_spec(),
            h1 & sub_mask(shift) == h2 & sub_mask(shift),
        ensures
            res.wf(shift),
            res.as_map() == Map::<K, V>::empty().insert(k1, v1).insert(k2, v2),
            res.key_count() == 2,
        decreases 64 - shift,
    {
        proof {
            assert(((h1 >> shift) & 31) < 32) by (bit_vector);
            assert(((h2 >> shift) & 31) < 32) by (bit_vector);
        }
        let i1 = ((h1 >> shift) & 31) as usize;
        let i2 = ((h2 >> shift) & 31) as usize;
        if i1 != i2 {
            let mut ch = Self::empty_children();
            ch.set(i1, HashMapNode::One(h1, k1.dup(), v1));
            ch.set(i2, HashMapNode::One(h2, k2.dup(), v2));
            proof {
                assert(ch@[i1 as int].as_map() =~= Map::<K, V>::empty().insert(k1, v1));
                assert(ch@[i2 as int].as_map() =~= Map::<K, V>::empty().insert(k2, v2));
                lemma_union_two(ch@, i1 as int, i2 as int);
                assert(children_union(ch@) =~= Map::<K, V>::empty().insert(k1, v1).insert(
                    k2,
                    v2,
                ));
                assert forall|i: int| 0 <= i < 32 implies (#[trigger] ch@[i]).wf(
                    (shift + 5) as u64,
                ) by {
                    if i != i1 as int && i != i2 as int {
                        assert(ch@[i] is Empty);
                    }
                }
                assert forall|i: int, e: K|
                    0 <= i < 32 && #[trigger] ch@[i].as_map().dom().contains(e) implies slot_of(
                    e.hash_spec(),
                    shift,
                ) == i by {
                    if i == i1 as int {
                        assert(e == k1);
                    } else if i == i2 as int {
                        assert(e == k2);
                    } else {
                        assert(ch@[i] is Empty);
                    }
                }
                lemma_children_count_row(ch@, shift);
                assert(children_union(ch@).dom() =~= Set::<K>::empty().insert(k1).insert(k2));
                assert(Set::<K>::empty().insert(k1).insert(k2).len() == 2);
            }
            let r = HashMapNode::Node(2, Arc::new(ch));
            r
        } else if shift < 60 {
            proof {
                lemma_slot_extends(h1, h2, shift);
            }
            let inner = Self::merge_pair(shift + 5, h1, k1, v1, h2, k2, v2);
            let mut ch = Self::empty_children();
            ch.set(i1, inner);
            proof {
                lemma_union_single(ch@, i1 as int);
                assert forall|i: int| 0 <= i < 32 implies (#[trigger] ch@[i]).wf(
                    (shift + 5) as u64,
                ) by {
                    if i != i1 as int {
                        assert(ch@[i] is Empty);
                    }
                }
                assert forall|i: int, e: K|
                    0 <= i < 32 && #[trigger] ch@[i].as_map().dom().contains(e) implies slot_of(
                    e.hash_spec(),
                    shift,
                ) == i by {
                    if i == i1 as int {
                        assert(e == k1 || e == k2);
                    } else {
                        assert(ch@[i] is Empty);
                    }
                }
                lemma_children_count_row(ch@, shift);
                assert(children_union(ch@).dom() =~= Set::<K>::empty().insert(k1).insert(k2));
                assert(Set::<K>::empty().insert(k1).insert(k2).len() == 2);
            }
            let r = HashMapNode::Node(2, Arc::new(ch));
            r
        } else {
            proof {
                lemma_slot_extends(h1, h2, shift);
                assert(h1 == h2);
            }
            let mut pairs: Vec<(K, V)> = Vec::new();
            pairs.push((k1.dup(), v1));
            pairs.push((k2.dup(), v2));
            let col = HashMapNode::Collision(h1, Arc::new(pairs));
            proof {
                assert(pairs@.drop_last() =~= seq![(k1, v1)]);
                assert(seq_pairs_map(pairs@.drop_last().drop_last()) =~= Map::<K, V>::empty());
                assert(seq_pairs_map(pairs@.drop_last()) =~= Map::<K, V>::empty().insert(
                    k1,
                    v1,
                ));
                assert(col.as_map() =~= Map::<K, V>::empty().insert(k1, v1).insert(k2, v2));
            }
            let mut ch = Self::empty_children();
            ch.set(i1, col);
            proof {
                lemma_union_single(ch@, i1 as int);
                assert forall|i: int| 0 <= i < 32 implies (#[trigger] ch@[i]).wf(
                    (shift + 5) as u64,
                ) by {
                    if i != i1 as int {
                        assert(ch@[i] is Empty);
                    }
                }
                assert forall|i: int, e: K|
                    0 <= i < 32 && #[trigger] ch@[i].as_map().dom().contains(e) implies slot_of(
                    e.hash_spec(),
                    shift,
                ) == i by {
                    if i == i1 as int {
                        assert(e == k1 || e == k2);
                    } else {
                        assert(ch@[i] is Empty);
                    }
                }
                lemma_children_count_row(ch@, shift);
                assert(children_union(ch@).dom() =~= Set::<K>::empty().insert(k1).insert(k2));
                assert(Set::<K>::empty().insert(k1).insert(k2).len() == 2);
            }
            let r = HashMapNode::Node(2, Arc::new(ch));
            r
        }
    }
}

/// The count of a row equals the size of its union, and the union's
/// keys are exactly the children's keys.
proof fn lemma_children_count_row<K: Hashable, V>(s: Seq<HashMapNode<K, V>>, shift: u64)
    requires
        s.len() <= 32,
        forall|i: int| #![trigger s[i]] 0 <= i < s.len() ==> s[i].wf((shift + 5) as u64),
        forall|i: int, e: K|
            #![trigger s[i].as_map().dom().contains(e)]
            0 <= i < s.len() && s[i].as_map().dom().contains(e) ==> slot_of(e.hash_spec(), shift)
                == i,
    ensures
        children_union(s).dom().finite(),
        children_union(s).dom().len() == children_count(s),
    decreases s,
{
    if s.len() == 0 {
        assert(children_union(s).dom() =~= Set::<K>::empty());
    } else {
        assert forall|i: int| 0 <= i < s.len() - 1 implies #[trigger] s.drop_last()[i].wf(
            (shift + 5) as u64,
        ) by {
            assert(s.drop_last()[i] == s[i]);
        }
        assert forall|i: int, e: K|
            0 <= i < s.len() - 1 && #[trigger] s.drop_last()[i].as_map().dom().contains(
                e,
            ) implies slot_of(e.hash_spec(), shift) == i by {
            assert(s.drop_last()[i] == s[i]);
        }
        lemma_children_count_row(s.drop_last(), shift);
        s.last().lemma_wf_count((shift + 5) as u64);
        lemma_union_props(s.drop_last());
        assert forall|e: K|
            !(children_union(s.drop_last()).dom().contains(e)
                && s.last().as_map().dom().contains(e)) by {
            if children_union(s.drop_last()).dom().contains(e) && s.last().as_map().dom().contains(
                e,
            ) {
                let j = choose|j: int|
                    0 <= j < s.len() - 1 && s.drop_last()[j].as_map().dom().contains(e);
                assert(s[j].as_map().dom().contains(e));
                assert(s[s.len() - 1].as_map().dom().contains(e));
            }
        }
        assert(children_union(s).dom() =~= children_union(s.drop_last()).dom()
            + s.last().as_map().dom());
        assert(children_union(s.drop_last()).dom().disjoint(s.last().as_map().dom()));
    }
}


/// Replacing a slot's subtree by one with the slot's keys plus a new
/// key inserts that key into the row's union.
proof fn lemma_union_update_insert<K: Hashable, V>(
    s: Seq<HashMapNode<K, V>>,
    i: int,
    n: HashMapNode<K, V>,
    k: K,
    v: V,
    shift: u64,
)
    requires
        s.len() == 32,
        0 <= i < 32,
        forall|j: int, e: K|
            #![trigger s[j].as_map().dom().contains(e)]
            0 <= j < 32 && s[j].as_map().dom().contains(e) ==> slot_of(e.hash_spec(), shift)
                == j,
        n.as_map() == s[i].as_map().insert(k, v),
        slot_of(k.hash_spec(), shift) == i,
    ensures
        children_union(s.update(i, n)) == children_union(s).insert(k, v),
{
    let s2 = s.update(i, n);
    lemma_union_props(s);
    lemma_union_props(s2);
    assert forall|j: int, e: K|
        0 <= j < 32 && #[trigger] s2[j].as_map().dom().contains(e) implies slot_of(
        e.hash_spec(),
        shift,
    ) == j by {
        if j == i {
            if e != k {
                assert(s[i].as_map().dom().contains(e));
            }
        } else {
            assert(s[j].as_map().dom().contains(e));
        }
    }
    assert forall|e: K| children_union(s2).dom().contains(e) implies children_union(s).insert(
        k,
        v,
    ).dom().contains(e) by {
        let j = choose|j: int| 0 <= j < s2.len() && s2[j].as_map().dom().contains(e);
        if j == i {
            if e != k {
                assert(s[i].as_map().dom().contains(e));
            }
        } else {
            assert(s[j].as_map().dom().contains(e));
        }
    }
    assert forall|e: K| children_union(s).insert(k, v).dom().contains(e) implies children_union(
        s2,
    ).dom().contains(e) by {
        if e == k {
            assert(s2[i].as_map().dom().contains(e));
        } else {
            assert(children_union(s).dom().contains(e));
            let j = choose|j: int| 0 <= j < s.len() && s[j].as_map().dom().contains(e);
            if j == i {
                assert(s2[i].as_map().dom().contains(e));
            } else {
                assert(s2[j].as_map().dom().contains(e));
            }
        }
    }
    assert forall|e: K| children_union(s2).dom().contains(e) implies children_union(s2)[e]
        == children_union(s).insert(k, v)[e] by {
        let j = choose|j: int| 0 <= j < s2.len() && s2[j].as_map().dom().contains(e);
        assert(slot_of(e.hash_spec(), shift) == j);
        assert forall|j2: int| j < j2 < s2.len() implies !s2[j2].as_map().dom().contains(
            e,
        ) by {
            if s2[j2].as_map().dom().contains(e) {
                assert(slot_of(e.hash_spec(), shift) == j2);
            }
        }
        assert(children_union(s2)[e] == s2[j].as_map()[e]);
        if e == k {
            assert(j == i);
            assert(s2[i].as_map()[e] == v);
        } else {
            assert(s[j].as_map().dom().contains(e));
            assert forall|j2: int| j < j2 < s.len() implies !s[j2].as_map().dom().contains(
                e,
            ) by {
                if s[j2].as_map().dom().contains(e) {
                    assert(slot_of(e.hash_spec(), shift) == j2);
                }
            }
            assert(children_union(s)[e] == s[j].as_map()[e]);
            assert(s2[j].as_map()[e] == s[j].as_map()[e]);
        }
    }
    assert(children_union(s2) =~= children_union(s).insert(k, v));
}

/// Replacing a slot's subtree by one with the slot's keys minus a key
/// removes that key from the row's union.
proof fn lemma_union_update_remove<K: Hashable, V>(
    s: Seq<HashMapNode<K, V>>,
    i: int,
    n: HashMapNode<K, V>,
    k: K,
    shift: u64,
)
    requires
        s.len() == 32,
        0 <= i < 32,
        forall|j: int, e: K|
            #![trigger s[j].as_map().dom().contains(e)]
            0 <= j < 32 && s[j].as_map().dom().contains(e) ==> slot_of(e.hash_spec(), shift)
                == j,
        n.as_map() == s[i].as_map().remove(k),
        slot_of(k.hash_spec(), shift) == i,
    ensures
        children_union(s.update(i, n)) == children_union(s).remove(k),
{
    let s2 = s.update(i, n);
    lemma_union_props(s);
    lemma_union_props(s2);
    assert forall|j: int, e: K|
        0 <= j < 32 && #[trigger] s2[j].as_map().dom().contains(e) implies slot_of(
        e.hash_spec(),
        shift,
    ) == j by {
        if j == i {
            assert(s[i].as_map().dom().contains(e));
        } else {
            assert(s[j].as_map().dom().contains(e));
        }
    }
    assert forall|e: K| children_union(s2).dom().contains(e) implies children_union(s).remove(
        k,
    ).dom().contains(e) by {
        let j = choose|j: int| 0 <= j < s2.len() && s2[j].as_map().dom().contains(e);
        if j == i {
            assert(s[i].as_map().dom().contains(e));
        } else {
            assert(s[j].as_map().dom().contains(e));
        }
        if e == k {
            assert(slot_of(e.hash_spec(), shift) == i);
            assert(!s2[i].as_map().dom().contains(k));
        }
    }
    assert forall|e: K| children_union(s).remove(k).dom().contains(e) implies children_union(
        s2,
    ).dom().contains(e) by {
        assert(children_union(s).dom().contains(e));
        let j = choose|j: int| 0 <= j < s.len() && s[j].as_map().dom().contains(e);
        if j == i {
            assert(s2[i].as_map().dom().contains(e));
        } else {
            assert(s2[j].as_map().dom().contains(e));
        }
    }
    assert forall|e: K| children_union(s2).dom().contains(e) implies children_union(s2)[e]
        == children_union(s).remove(k)[e] by {
        let j = choose|j: int| 0 <= j < s2.len() && s2[j].as_map().dom().contains(e);
        assert(slot_of(e.hash_spec(), shift) == j);
        assert forall|j2: int| j < j2 < s2.len() implies !s2[j2].as_map().dom().contains(
            e,
        ) by {
            if s2[j2].as_map().dom().contains(e) {
                assert(slot_of(e.hash_spec(), shift) == j2);
            }
        }
        assert(children_union(s2)[e] == s2[j].as_map()[e]);
        if j == i {
            assert(e != k);
            assert(s[i].as_map().dom().contains(e));
        }
        assert(s[j].as_map().dom().contains(e));
        assert forall|j2: int| j < j2 < s.len() implies !s[j2].as_map().dom().contains(e) by {
            if s[j2].as_map().dom().contains(e) {
                assert(slot_of(e.hash_spec(), shift) == j2);
            }
        }
        assert(children_union(s)[e] == s[j].as_map()[e]);
    }
    assert(children_union(s2) =~= children_union(s).remove(k));
}

impl<K: Hashable + EquatableAndCloneable, V: EquatableAndCloneable> HashMapNode<K, V> {
    /// Scans a collision list for a key.
    fn scan_pairs(entries: &Vec<(K, V)>, k: &K) -> (r: Option<usize>)
        ensures
            match r {
                Some(i) => i < entries@.len() && entries@[i as int].0 == *k,
                None => forall|j: int| 0 <= j < entries@.len() ==> entries@[j].0 != *k,
            },
    {
        let mut i: usize = 0;
        while i < entries.len()
            invariant
                i <= entries@.len(),
                forall|j: int| 0 <= j < i ==> entries@[j].0 != *k,
            decreases entries@.len() - i,
        {
            if entries[i].0.eq_val(k) {
                return Some(i);
            }
            i = i + 1;
        }
        None
    }

    /// Inserts a pair, returning `None` when the key is already
    /// present; only the spine of branches down to the slot is
    /// rebuilt.
    fn insert(t: &HashMapNode<K, V>, shift: u64, k: K, v: V) -> (res: Option<HashMapNode<K, V>>)
        requires
            t.wf(shift),
            shift % 5 == 0,
            shift <= 65,
            t.key_count() < usize::MAX,
            forall|e: K| #[trigger]
                t.as_map().dom().contains(e) ==> e.hash_spec() & sub_mask(shift)
                    == k.hash_spec() & sub_mask(shift),
        ensures
            match res {
                None => t.as_map().dom().contains(k),
                Some(n) => {
                    &&& !t.as_map().dom().contains(k)
                    &&& n.wf(shift)
                    &&& n.as_map() == t.as_map().insert(k, v)
                    &&& n.key_count() == t.key_count() + 1
                },
            },
        decreases t,
    {
        match t {
            HashMapNode::Empty => {
                let kh = k.hash();
                let r = HashMapNode::One(kh, k, v);
                proof {
                    assert(r.as_map() =~= t.as_map().insert(k, v));
                }
                Some(r)
            },
            HashMapNode::One(hh, k2, v2) => {
                let kh = k.hash();
                if kh == *hh && k.eq_val(k2) {
                    None
                } else {
                    proof {
                        assert(t.as_map().dom().contains(*k2));
                        assert(k != *k2);
                    }
                    if shift < 64 {
                        let r = Self::merge_pair(shift, *hh, k2.dup(), v2.dup(), kh, k, v);
                        proof {
                            assert(r.as_map() =~= t.as_map().insert(k, v));
                        }
                        Some(r)
                    } else {
                        proof {
                            assert(t.as_map().dom().contains(*k2));
                            lemma_full_mask(k2.hash_spec(), k.hash_spec());
                            assert(*hh == kh);
                        }
                        let mut pairs: Vec<(K, V)> = Vec::new();
                        pairs.push((k2.dup(), v2.dup()));
                        pairs.push((k, v));
                        let r = HashMapNode::Collision(kh, Arc::new(pairs));
                        proof {
                            assert(pairs@.drop_last() =~= seq![(*k2, *v2)]);
                            assert(seq_pairs_map(pairs@.drop_last().drop_last())
                                =~= Map::<K, V>::empty());
                            assert(seq_pairs_map(pairs@.drop_last()) =~= Map::<K,
                                V,
                            >::empty().insert(*k2, *v2));
                            assert(r.as_map() =~= t.as_map().insert(k, v));
                        }
                        Some(r)
                    }
                }
            },
            HashMapNode::Collision(h, entries) => {
                proof {
                    lemma_pairs_map(entries@);
                    assert(t.as_map().dom().contains(entries@[0].0));
                    lemma_full_mask(entries@[0].0.hash_spec(), k.hash_spec());
                    assert(*h == k.hash_spec());
                }
                match Self::scan_pairs(&(**entries), &k) {
                    Some(i) => {
                        proof {
                            assert(t.as_map().dom().contains(entries@[i as int].0));
                        }
                        None
                    },
                    None => {
                        let mut ps = Self::copy_pairs(&(**entries));
                        ps.push((k, v));
                        let r = HashMapNode::Collision(*h, Arc::new(ps));
                        proof {
                            assert(ps@.drop_last() =~= entries@);
                            assert(r.as_map() =~= t.as_map().insert(k, v));
                            assert forall|e: K| t.as_map().dom().contains(e) implies e != k by {
                                let i = choose|i: int|
                                    0 <= i < entries@.len() && entries@[i].0 == e;
                            }
                            assert(!t.as_map().dom().contains(k));
                            assert forall|i: int, j: int|
                                0 <= i < j < ps@.len() implies ps@[i].0 != ps@[j].0 by {
                                if j == ps@.len() - 1 {
                                    assert(t.as_map().dom().contains(entries@[i].0));
                                }
                            }
                        }
                        Some(r)
                    },
                }
            },
            HashMapNode::Node(c, ch) => {
                let kh = k.hash();
                proof {
                    assert(((kh >> shift) & 31) < 32) by (bit_vector);
                }
                let idx = ((kh >> shift) & 31) as usize;
                let children: &Vec<HashMapNode<K, V>> = &(**ch);
                proof {
                    lemma_union_props(children@);
                    lemma_count_at_least(children@, idx as int);
                    assert forall|e: K| #[trigger]
                        children@[idx as int].as_map().dom().contains(e) implies e.hash_spec()
                        & sub_mask((shift + 5) as u64) == k.hash_spec() & sub_mask(
                        (shift + 5) as u64,
                    ) by {
                        assert(t.as_map().dom().contains(e));
                        assert(slot_of(e.hash_spec(), shift) == idx);
                        lemma_slot_extends(e.hash_spec(), k.hash_spec(), shift);
                    }
                }
                match Self::insert(&children[idx], shift + 5, k, v) {
                    None => {
                        proof {
                            assert(t.as_map().dom().contains(k));
                        }
                        None
                    },
                    Some(n) => {
                        let mut ch2 = Self::copy_children(children);
                        ch2.set(idx, n);
                        proof {
                            lemma_count_update(children@, idx as int, ch2@[idx as int]);
                            lemma_union_update_insert(
                                children@,
                                idx as int,
                                ch2@[idx as int],
                                k,
                                v,
                                shift,
                            );
                            assert forall|i: int| 0 <= i < 32 implies (#[trigger] ch2@[i]).wf(
                                (shift + 5) as u64,
                            ) by {
                                if i != idx as int {
                                    assert(ch2@[i] == children@[i]);
                                }
                            }
                            assert forall|i: int, e: K|
                                0 <= i < 32 && #[trigger] ch2@[i].as_map().dom().contains(
                                e,
                            ) implies slot_of(e.hash_spec(), shift) == i by {
                                if i == idx as int {
                                    if e != k {
                                        assert(children@[i].as_map().dom().contains(e));
                                    }
                                } else {
                                    assert(children@[i].as_map().dom().contains(e));
                                }
                            }
                            assert(!t.as_map().dom().contains(k)) by {
                                if t.as_map().dom().contains(k) {
                                    let j = choose|j: int|
                                        0 <= j < 32 && children@[j].as_map().dom().contains(k);
                                    assert(slot_of(k.hash_spec(), shift) == j);
                                    assert(j == idx as int);
                                }
                            }
                        }
                        let r = HashMapNode::Node(*c + 1, Arc::new(ch2));
                        Some(r)
                    },
                }
            },
        }
    }

    /// Looks a key up, returning a reference to its value.
    fn find<'a>(t: &'a HashMapNode<K, V>, shift: u64, k: &K) -> (res: Option<&'a V>)
        requires
            t.wf(shift),
            shift % 5 == 0,
            shift <= 65,
            forall|e: K| #[trigger]
                t.as_map().dom().contains(e) ==> e.hash_spec() & sub_mask(shift)
                    == k.hash_spec() & sub_mask(shift),
        ensures
            match res {
                Some(fv) => t.as_map().dom().contains(*k) && *fv == t.as_map()[*k],
                None => !t.as_map().dom().contains(*k),
            },
        decreases t,
    {
        match t {
            HashMapNode::Empty => None,
            HashMapNode::One(hh, k2, v2) => {
                let kh = k.hash();
                if kh == *hh && k.eq_val(k2) {
                    Some(v2)
                } else {
                    None
                }
            },
            HashMapNode::Collision(_, entries) => {
                proof {
                    lemma_pairs_map(entries@);
                }
                match Self::scan_pairs(&(**entries), k) {
                    Some(i) => {
                        proof {
                            assert(entries@[i as int].0 == *k);
                        }
                        Some(&(&(**entries))[i].1)
                    },
                    None => {
                        proof {
                            if t.as_map().dom().contains(*k) {
                                let i = choose|i: int|
                                    0 <= i < entries@.len() && entries@[i].0 == *k;
                            }
                        }
                        None
                    },
                }
            },
            HashMapNode::Node(_, ch) => {
                let kh = k.hash();
                proof {
                    assert(((kh >> shift) & 31) < 32) by (bit_vector);
                }
                let idx = ((kh >> shift) & 31) as usize;
                let children: &Vec<HashMapNode<K, V>> = &(**ch);
                proof {
                    lemma_union_props(children@);
                    assert forall|e: K| #[trigger]
                        children@[idx as int].as_map().dom().contains(e) implies e.hash_spec()
                        & sub_mask((shift + 5) as u64) == k.hash_spec() & sub_mask(
                        (shift + 5) as u64,
                    ) by {
                        assert(t.as_map().dom().contains(e));
                        assert(slot_of(e.hash_spec(), shift) == idx);
                        lemma_slot_extends(e.hash_spec(), k.hash_spec(), shift);
                    }
                }
                let res = Self::find(&children[idx], shift + 5, k);
                proof {
                    match res {
                        Some(_) => {
                            assert(t.as_map().dom().contains(*k));
                            assert forall|j2: int|
                                (idx as int) < j2 < 32 implies !children@[j2].as_map(
                            ).dom().contains(*k) by {
                                if children@[j2].as_map().dom().contains(*k) {
                                    assert(slot_of(k.hash_spec(), shift) == j2);
                                    assert(slot_of(k.hash_spec(), shift) == idx);
                                }
                            }
                            assert(children_union(children@)[*k]
                                == children@[idx as int].as_map()[*k]);
                        },
                        None => {
                            if t.as_map().dom().contains(*k) {
                                assert(children_union(children@).dom().contains(*k));
                                let j = choose|j: int|
                                    0 <= j < 32 && children@[j].as_map().dom().contains(*k);
                                assert(slot_of(k.hash_spec(), shift) == j);
                                assert(j == idx as int);
                            }
                        },
                    }
                }
                res
            },
        }
    }
}


/// Removing one pair from a distinct-keyed list removes its key from
/// the list's map.
proof fn lemma_pairs_remove<K, V>(s: Seq<(K, V)>, i: int)
    requires
        0 <= i < s.len(),
        forall|a: int, b: int| 0 <= a < b < s.len() ==> s[a].0 != s[b].0,
    ensures
        seq_pairs_map(s.remove(i)) == seq_pairs_map(s).remove(s[i].0),
{
    lemma_pairs_map(s);
    assert forall|a: int, b: int| 0 <= a < b < s.remove(i).len() implies s.remove(i)[a].0
        != s.remove(i)[b].0 by {
        if b < i {
            assert(s.remove(i)[a] == s[a] && s.remove(i)[b] == s[b]);
        } else if a < i {
            assert(s.remove(i)[a] == s[a] && s.remove(i)[b] == s[b + 1]);
        } else {
            assert(s.remove(i)[a] == s[a + 1] && s.remove(i)[b] == s[b + 1]);
        }
    }
    lemma_pairs_map(s.remove(i));
    assert forall|e: K| #[trigger] seq_pairs_map(s.remove(i)).dom().contains(e)
        implies seq_pairs_map(s).remove(s[i].0).dom().contains(e) by {
        let j = choose|j: int| 0 <= j < s.remove(i).len() && s.remove(i)[j].0 == e;
        if j < i {
            assert(s[j].0 == e);
        } else {
            assert(s[j + 1].0 == e);
        }
    }
    assert forall|e: K| #[trigger] seq_pairs_map(s).remove(s[i].0).dom().contains(e)
        implies seq_pairs_map(s.remove(i)).dom().contains(e)
        && seq_pairs_map(s.remove(i))[e] == seq_pairs_map(s).remove(s[i].0)[e] by {
        let j = choose|j: int| 0 <= j < s.len() && s[j].0 == e;
        if j < i {
            assert(s.remove(i)[j] == s[j]);
            assert(s.remove(i)[j].0 == e);
        } else {
            assert(j != i);
            assert(s.remove(i)[j - 1] == s[j]);
            assert(s.remove(i)[j - 1].0 == e);
        }
        let j2 = choose|j2: int| 0 <= j2 < s.remove(i).len() && s.remove(i)[j2].0 == e;
        assert(seq_pairs_map(s.remove(i))[e] == s.remove(i)[j2].1);
        if j2 < i {
            assert(s[j2].0 == e && s[j2].1 == s.remove(i)[j2].1);
            assert(j2 == j);
        } else {
            assert(s[j2 + 1].0 == e && s[j2 + 1].1 == s.remove(i)[j2].1);
            assert(j2 + 1 == j);
        }
        assert(seq_pairs_map(s)[e] == s[j].1);
    }
    assert(seq_pairs_map(s.remove(i)) =~= seq_pairs_map(s).remove(s[i].0));
}

impl<K: Hashable + EquatableAndCloneable, V: EquatableAndCloneable> HashMapNode<K, V> {
    /// Removes a key, returning `None` when it is absent; a branch
    /// whose last key disappears collapses to the empty subtree.
    fn remove(t: &HashMapNode<K, V>, shift: u64, k: &K) -> (res: Option<HashMapNode<K, V>>)
        requires
            t.wf(shift),
            shift % 5 == 0,
            shift <= 65,
            forall|e: K| #[trigger]
                t.as_map().dom().contains(e) ==> e.hash_spec() & sub_mask(shift)
                    == k.hash_spec() & sub_mask(shift),
        ensures
            match res {
                None => !t.as_map().dom().contains(*k),
                Some(n) => {
                    &&& t.as_map().dom().contains(*k)
                    &&& n.wf(shift)
                    &&& n.as_map() == t.as_map().remove(*k)
                    &&& n.key_count() + 1 == t.key_count()
                },
            },
        decreases t,
    {
        match t {
            HashMapNode::Empty => None,
            HashMapNode::One(hh, k2, v2) => {
                let kh = k.hash();
                if kh == *hh && k.eq_val(k2) {
                    let r: HashMapNode<K, V> = HashMapNode::Empty;
                    proof {
                        assert(r.as_map() =~= t.as_map().remove(*k));
                    }
                    Some(r)
                } else {
                    None
                }
            },
            HashMapNode::Collision(h, entries) => {
                proof {
                    lemma_pairs_map(entries@);
                }
                match Self::scan_pairs(&(**entries), k) {
                    None => {
                        proof {
                            if t.as_map().dom().contains(*k) {
                                let i = choose|i: int|
                                    0 <= i < entries@.len() && entries@[i].0 == *k;
                            }
                        }
                        None
                    },
                    Some(i) => {
                        proof {
                            lemma_pairs_remove(entries@, i as int);
                        }
                        if entries.len() == 2 {
                            let j: usize = if i == 0 {
                                1
                            } else {
                                0
                            };
                            let other = &(&(**entries))[j];
                            let r = HashMapNode::One(*h, other.0.dup(), other.1.dup());
                            proof {
                                assert(entries@.remove(i as int) =~= seq![entries@[j as int]]);
                                assert(seq_pairs_map(entries@.remove(i as int).drop_last())
                                    =~= Map::<K, V>::empty());
                                assert(r.as_map() =~= seq_pairs_map(entries@.remove(i as int)));
                                assert(r.as_map() =~= t.as_map().remove(*k));
                            }
                            Some(r)
                        } else {
                            let mut ps = Self::copy_pairs(&(**entries));
                            ps.remove(i);
                            let r = HashMapNode::Collision(*h, Arc::new(ps));
                            proof {
                                assert(ps@ == entries@.remove(i as int));
                                assert(r.as_map() =~= t.as_map().remove(*k));
                                assert forall|a: int, b: int|
                                    0 <= a < b < ps@.len() implies ps@[a].0 != ps@[b].0 by {
                                    if b < i as int {
                                        assert(ps@[a] == entries@[a] && ps@[b] == entries@[b]);
                                    } else if a < i as int {
                                        assert(ps@[a] == entries@[a] && ps@[b] == entries@[b
                                            + 1]);
                                    } else {
                                        assert(ps@[a] == entries@[a + 1] && ps@[b] == entries@[b
                                            + 1]);
                                    }
                                }
                                assert forall|a: int|
                                    0 <= a < ps@.len() implies ps@[a].0.hash_spec() == *h by {
                                    if a < i as int {
                                        assert(ps@[a] == entries@[a]);
                                    } else {
                                        assert(ps@[a] == entries@[a + 1]);
                                    }
                                }
                            }
                            Some(r)
                        }
                    },
                }
            },
            HashMapNode::Node(c, ch) => {
                let kh = k.hash();
                proof {
                    assert(((kh >> shift) & 31) < 32) by (bit_vector);
                }
                let idx = ((kh >> shift) & 31) as usize;
                let children: &Vec<HashMapNode<K, V>> = &(**ch);
                proof {
                    lemma_union_props(children@);
                    lemma_count_at_least(children@, idx as int);
                    assert forall|e: K| #[trigger]
                        children@[idx as int].as_map().dom().contains(e) implies e.hash_spec()
                        & sub_mask((shift + 5) as u64) == k.hash_spec() & sub_mask(
                        (shift + 5) as u64,
                    ) by {
                        assert(t.as_map().dom().contains(e));
                        assert(slot_of(e.hash_spec(), shift) == idx);
                        lemma_slot_extends(e.hash_spec(), k.hash_spec(), shift);
                    }
                }
                match Self::remove(&children[idx], shift + 5, k) {
                    None => {
                        proof {
                            if t.as_map().dom().contains(*k) {
                                assert(children_union(children@).dom().contains(*k));
                                let j = choose|j: int|
                                    0 <= j < 32 && children@[j].as_map().dom().contains(*k);
                                assert(slot_of(k.hash_spec(), shift) == j);
                                assert(j == idx as int);
                            }
                        }
                        None
                    },
                    Some(n) => {
                        proof {
                            assert(t.as_map().dom().contains(*k));
                            assert forall|j2: int|
                                (idx as int) < j2 < 32 implies !children@[j2].as_map(
                            ).dom().contains(*k) by {
                                if children@[j2].as_map().dom().contains(*k) {
                                    assert(slot_of(k.hash_spec(), shift) == j2);
                                }
                            }
                        }
                        let n_is_empty = matches!(n, HashMapNode::Empty);
                        if n_is_empty && *c == 1 {
                            let r: HashMapNode<K, V> = HashMapNode::Empty;
                            proof {
                                t.lemma_wf_count(shift);
                                assert(t.as_map().dom().len() == 1);
                                vstd::set_lib::lemma_set_empty_equivalency_len(
                                    t.as_map().dom().remove(*k),
                                );
                                assert(t.as_map().remove(*k).dom()
                                    =~= t.as_map().dom().remove(*k));
                                assert(r.as_map() =~= t.as_map().remove(*k));
                            }
                            Some(r)
                        } else {
                            let mut ch2 = Self::copy_children(children);
                            ch2.set(idx, n);
                            proof {
                                lemma_count_update(children@, idx as int, ch2@[idx as int]);
                                lemma_union_update_remove(
                                    children@,
                                    idx as int,
                                    ch2@[idx as int],
                                    *k,
                                    shift,
                                );
                                assert forall|i: int|
                                    0 <= i < 32 implies (#[trigger] ch2@[i]).wf(
                                    (shift + 5) as u64,
                                ) by {
                                    if i != idx as int {
                                        assert(ch2@[i] == children@[i]);
                                    }
                                }
                                assert forall|i: int, e: K|
                                    0 <= i < 32 && #[trigger] ch2@[i].as_map().dom().contains(
                                    e,
                                ) implies slot_of(e.hash_spec(), shift) == i by {
                                    if i == idx as int {
                                        assert(children@[i].as_map().dom().contains(e));
                                    } else {
                                        assert(children@[i].as_map().dom().contains(e));
                                    }
                                }
                            }
                            let r = HashMapNode::Node(*c - 1, Arc::new(ch2));
                            Some(r)
                        }
                    },
                }
            },
        }
    }
}


/// The entry sequence of a well-formed subtree lists exactly the keys
/// of its map, each once, with its value.
proof fn lemma_entries_props<K: Hashable, V>(t: &HashMapNode<K, V>, shift: u64)
    requires
        t.wf(shift),
    ensures
        t.node_entries().len() == t.key_count(),
        forall|i: int|
            #![trigger t.node_entries()[i]]
            0 <= i < t.node_entries().len() ==> t.as_map().dom().contains(t.node_entries()[i].0)
                && t.as_map()[t.node_entries()[i].0] == t.node_entries()[i].1,
        forall|e: K| #[trigger]
            t.as_map().dom().contains(e) ==> exists|i: int|
                0 <= i < t.node_entries().len() && t.node_entries()[i].0 == e,
        forall|i: int, j: int|
            0 <= i < j < t.node_entries().len() ==> t.node_entries()[i].0
                != t.node_entries()[j].0,
    decreases t,
{
    match t {
        HashMapNode::Empty => {},
        HashMapNode::One(_, _, _) => {
            assert forall|e: K| t.as_map().dom().contains(e) implies exists|i: int|
                0 <= i < t.node_entries().len() && t.node_entries()[i].0 == e by {
                assert(t.node_entries()[0].0 == e);
            }
        },
        HashMapNode::Collision(_, entries) => {
            lemma_pairs_map(entries@);
            assert forall|e: K| t.as_map().dom().contains(e) implies exists|i: int|
                0 <= i < t.node_entries().len() && t.node_entries()[i].0 == e by {
                assert(seq_pairs_map(entries@).dom().contains(e));
                let i = choose|i: int| 0 <= i < entries@.len() && entries@[i].0 == e;
                assert(t.node_entries()[i].0 == e);
            }
        },
        HashMapNode::Node(_, ch) => {
            lemma_children_entries_row(ch@, shift);
            assert forall|e: K| t.as_map().dom().contains(e) implies exists|i: int|
                0 <= i < t.node_entries().len() && t.node_entries()[i].0 == e by {
                assert(children_union(ch@).dom().contains(e));
                let i = choose|i: int|
                    0 <= i < children_entries(ch@).len() && children_entries(ch@)[i].0 == e;
                assert(t.node_entries()[i].0 == e);
            }
        },
    }
}

/// The row version of the entry-sequence properties.
proof fn lemma_children_entries_row<K: Hashable, V>(s: Seq<HashMapNode<K, V>>, shift: u64)
    requires
        s.len() <= 32,
        forall|i: int| #![trigger s[i]] 0 <= i < s.len() ==> s[i].wf((shift + 5) as u64),
        forall|i: int, e: K|
            #![trigger s[i].as_map().dom().contains(e)]
            0 <= i < s.len() && s[i].as_map().dom().contains(e) ==> slot_of(e.hash_spec(), shift)
                == i,
    ensures
        children_entries(s).len() == children_count(s),
        forall|i: int|
            #![trigger children_entries(s)[i]]
            0 <= i < children_entries(s).len() ==> children_union(s).dom().contains(
                children_entries(s)[i].0,
            ) && children_union(s)[children_entries(s)[i].0] == children_entries(s)[i].1,
        forall|e: K| #[trigger]
            children_union(s).dom().contains(e) ==> exists|i: int|
                0 <= i < children_entries(s).len() && children_entries(s)[i].0 == e,
        forall|i: int, j: int|
            0 <= i < j < children_entries(s).len() ==> children_entries(s)[i].0
                != children_entries(s)[j].0,
    decreases s,
{
    if s.len() > 0 {
        assert forall|i: int| 0 <= i < s.len() - 1 implies (#[trigger] s.drop_last()[i]).wf(
            (shift + 5) as u64,
        ) by {
            assert(s.drop_last()[i] == s[i]);
        }
        assert forall|i: int, e: K|
            0 <= i < s.len() - 1 && #[trigger] s.drop_last()[i].as_map().dom().contains(
            e,
        ) implies slot_of(e.hash_spec(), shift) == i by {
            assert(s.drop_last()[i] == s[i]);
        }
        lemma_children_entries_row(s.drop_last(), shift);
        lemma_entries_props(&s.last(), (shift + 5) as u64);
        lemma_union_props(s.drop_last());
        lemma_union_props(s);
        let inner = children_entries(s.drop_last());
        let le = s.last().node_entries();
        let es = children_entries(s);
        let im = children_union(s.drop_last());
        let lm = s.last().as_map();
        let m = children_union(s);
        assert(es == inner + le);
        assert forall|e: K| !(im.dom().contains(e) && lm.dom().contains(e)) by {
            if im.dom().contains(e) && lm.dom().contains(e) {
                let j = choose|j: int|
                    0 <= j < s.len() - 1 && s.drop_last()[j].as_map().dom().contains(e);
                assert(s[j].as_map().dom().contains(e));
                assert(s[s.len() - 1].as_map().dom().contains(e));
            }
        }
        assert forall|i: int| 0 <= i < es.len() implies m.dom().contains(es[i].0) && m[es[i].0]
            == es[i].1 by {
            if i < inner.len() {
                assert(es[i] == inner[i]);
                assert(im.dom().contains(inner[i].0) && im[inner[i].0] == inner[i].1);
                let j = choose|j: int|
                    0 <= j < s.len() - 1 && s.drop_last()[j].as_map().dom().contains(
                        inner[i].0,
                    );
                assert(s[j].as_map().dom().contains(inner[i].0));
                assert(!lm.dom().contains(inner[i].0));
                assert(m == im.union_prefer_right(lm));
            } else {
                let j = i - inner.len();
                assert(es[i] == le[j]);
                assert(lm.dom().contains(le[j].0) && lm[le[j].0] == le[j].1);
                assert(s[s.len() - 1].as_map().dom().contains(le[j].0));
            }
        }
        assert forall|e: K| m.dom().contains(e) implies exists|i: int|
            0 <= i < es.len() && es[i].0 == e by {
            if lm.dom().contains(e) {
                let j = choose|j: int| 0 <= j < le.len() && le[j].0 == e;
                assert(es[inner.len() + j].0 == e);
            } else {
                assert(im.dom().contains(e));
                let j = choose|j: int| 0 <= j < inner.len() && inner[j].0 == e;
                assert(es[j].0 == e);
            }
        }
        assert forall|i: int, j: int| 0 <= i < j < es.len() implies es[i].0 != es[j].0 by {
            let li = inner.len() as int;
            if j < li {
                assert(es[i] == inner[i] && es[j] == inner[j]);
            } else if i >= li {
                assert(es[i] == le[i - li] && es[j] == le[j - li]);
            } else {
                assert(es[i] == inner[i] && es[j] == le[j - li]);
                assert(im.dom().contains(inner[i].0));
                assert(lm.dom().contains(le[j - li].0));
            }
        }
    }
}

impl<K: Hashable + EquatableAndCloneable, V: EquatableAndCloneable> HashMapNode<K, V> {
    /// Appends the subtree's entries to a vector, in slot-walk order.
    #[verifier::loop_isolation(false)]
    fn to_vec_internal(t: &HashMapNode<K, V>, v: &mut Vec<(K, V)>)
        ensures
            final(v)@ == old(v)@ + t.node_entries(),
        decreases t,
    {
        match t {
            HashMapNode::Empty => {
                proof {
                    assert(v@ =~= v@ + t.node_entries());
                }
            },
            HashMapNode::One(_, k, vv) => {
                v.push((k.dup(), vv.dup()));
                proof {
                    assert(v@ =~= old(v)@ + t.node_entries());
                }
            },
            HashMapNode::Collision(_, entries) => {
                let es: &Vec<(K, V)> = &(**entries);
                let mut i: usize = 0;
                while i < es.len()
                    invariant
                        i <= es@.len(),
                        v@ == old(v)@ + es@.subrange(0, i as int),
                    decreases es@.len() - i,
                {
                    v.push((es[i].0.dup(), es[i].1.dup()));
                    proof {
                        assert(v@ =~= old(v)@ + es@.subrange(0, i + 1 as int));
                    }
                    i = i + 1;
                }
                proof {
                    assert(es@.subrange(0, es@.len() as int) =~= es@);
                }
            },
            HashMapNode::Node(_, ch) => {
                let children: &Vec<HashMapNode<K, V>> = &(**ch);
                let mut i: usize = 0;
                proof {
                    assert(children@.subrange(0, 0) =~= Seq::<HashMapNode<K, V>>::empty());
                    assert(v@ =~= v@ + children_entries(children@.subrange(0, 0)));
                }
                while i < children.len()
                    invariant
                        i <= children@.len(),
                        v@ == old(v)@ + children_entries(children@.subrange(0, i as int)),
                    decreases children@.len() - i,
                {
                    let ghost pre = v@;
                    Self::to_vec_internal(&children[i], v);
                    proof {
                        assert(children@.subrange(0, i + 1 as int).drop_last()
                            =~= children@.subrange(0, i as int));
                        assert(children@.subrange(0, i + 1 as int).last()
                            == children@[i as int]);
                        assert(v@ =~= old(v)@ + children_entries(children@.subrange(
                            0,
                            i + 1 as int,
                        )));
                    }
                    i = i + 1;
                }
                proof {
                    assert(children@.subrange(0, children@.len() as int) =~= children@);
                }
            },
        }
    }
}

/// The empty prefix of the hash selects nothing.
proof fn lemma_mask_zero()
    ensures
        sub_mask(0) == 0,
        forall|a: u64| (#[trigger] (a & 0u64)) == 0u64,
{
    assert(!(0xffff_ffff_ffff_ffffu64 << 0u64) == 0u64) by (bit_vector);
    assert forall|a: u64| (a & 0u64) == 0u64 by {
        assert(a & 0u64 == 0u64) by (bit_vector);
    }
}


/// A persistent hash map.  Lookups, inserts and removals touch one
/// trie spine; the entry count is cached, so `len` is constant-time.
pub struct HashMap<K: Hashable, V> {
    n: Arc<HashMapNode<K, V>>,
    count: usize,
}

impl<K: Hashable, V> HashMap<K, V> {
    #[verifier::type_invariant]
    spec fn inv(self) -> bool {
        self.n.wf(0) && self.count == self.n.key_count()
    }

    /// The map's entries as a mathematical map.
    pub closed spec fn as_map(self) -> Map<K, V> {
        self.n.as_map()
    }

    /// The map's entries, in the deterministic order of a slot walk.
    pub closed spec fn as_entries(self) -> Seq<(K, V)> {
        self.n.node_entries()
    }
}

impl<K: Hashable, V> View for HashMap<K, V> {
    type V = Map<K, V>;

    open spec fn view(&self) -> Map<K, V> {
        self.as_map()
    }
}

impl<K: Hashable, V> Clone for HashMap<K, V> {
    fn clone(&self) -> (r: Self)
        ensures
            r == *self,
    {
        proof {
            use_type_invariant(self);
        }
        HashMap { n: self.n.clone(), count: self.count }
    }
}

impl<K: Hashable + EquatableAndCloneable, V: EquatableAndCloneable> HashMap<K, V> {
    /// Creates a new empty map.
    pub fn empty() -> (r: Self)
        ensures
            r@ == Map::<K, V>::empty(),
            r.as_entries() == Seq::<(K, V)>::empty(),
    {
        HashMap { n: Arc::new(HashMapNode::Empty), count: 0 }
    }

    /// Returns a new map with the pair added; an existing value under
    /// the same key is overwritten.
    pub fn insert(&self, k: K, v: V) -> (r: Self)
        requires
            self@.dom().len() < usize::MAX,
        ensures
            r@ == self@.insert(k, v),
            r@.dom().len() == self@.dom().len() + (if self@.dom().contains(k) {
                0int
            } else {
                1
            }),
    {
        proof {
            use_type_invariant(self);
            self.n.lemma_wf_count(0);
            lemma_mask_zero();
        }
        let present = HashMapNode::find(&(*self.n), 0, &k).is_some();
        if present {
            let n1 = match HashMapNode::remove(&(*self.n), 0, &k) {
                Some(n1) => n1,
                None => unreached(),
            };
            let n2 = match HashMapNode::insert(&n1, 0, k, v) {
                Some(n2) => n2,
                None => unreached(),
            };
            proof {
                n2.lemma_wf_count(0);
                assert(n2.as_map() =~= self@.insert(k, v));
                assert(n2.as_map().dom() =~= self@.dom());
            }
            HashMap { n: Arc::new(n2), count: self.count }
        } else {
            let n2 = match HashMapNode::insert(&(*self.n), 0, k, v) {
                Some(n2) => n2,
                None => unreached(),
            };
            proof {
                n2.lemma_wf_count(0);
                assert(n2.as_map().dom() == self@.dom().insert(k));
                assert(self@.dom().insert(k).len() == self@.dom().len() + 1);
            }
            HashMap { n: Arc::new(n2), count: self.count + 1 }
        }
    }

    /// Returns a new map without the key; when the key is absent the
    /// result is the same map.
    pub fn remove(&self, k: K) -> (r: Self)
        ensures
            r@ == self@.remove(k),
            r@.dom().len() == self@.dom().len() - (if self@.dom().contains(k) {
                1int
            } else {
                0
            }),
    {
        proof {
            use_type_invariant(self);
            self.n.lemma_wf_count(0);
            lemma_mask_zero();
            assert(self@.dom().len() == self@.dom().remove(k).len() + (if self@.dom().contains(
                k,
            ) {
                1int
            } else {
                0
            }));
        }
        match HashMapNode::remove(&(*self.n), 0, &k) {
            Some(n) => {
                proof {
                    n.lemma_wf_count(0);
                    assert(n.as_map().dom() == self@.dom().remove(k));
                }
                HashMap { n: Arc::new(n), count: self.count - 1 }
            },
            None => {
                proof {
                    assert(self@.remove(k) =~= self@);
                }
                HashMap { n: self.n.clone(), count: self.count }
            },
        }
    }

    /// Returns true if the key is present.
    pub fn exist(&self, k: &K) -> (r: bool)
        ensures
            r == self@.dom().contains(*k),
    {
        proof {
            use_type_invariant(self);
            lemma_mask_zero();
        }
        HashMapNode::find(&(*self.n), 0, k).is_some()
    }

    /// Returns a reference to the value under the key, or `None`.
    pub fn find(&self, k: &K) -> (r: Option<&V>)
        ensures
            match r {
                Some(v) => self@.dom().contains(*k) && *v == self@[*k],
                None => !self@.dom().contains(*k),
            },
    {
        proof {
            use_type_invariant(self);
            lemma_mask_zero();
        }
        HashMapNode::find(&(*self.n), 0, k)
    }

    /// Copies the entries into a vector, in the deterministic order of
    /// a slot walk; every key appears exactly once with its value.
    pub fn to_vec(&self) -> (r: Vec<(K, V)>)
        ensures
            r@ == self.as_entries(),
            r@.len() == self@.dom().len(),
            forall|i: int|
                #![trigger r@[i]]
                0 <= i < r@.len() ==> self@.dom().contains(r@[i].0)
                    && self@[r@[i].0] == r@[i].1,
            forall|e: K| #[trigger]
                self@.dom().contains(e) ==> exists|i: int| 0 <= i < r@.len() && r@[i].0 == e,
            forall|i: int, j: int| 0 <= i < j < r@.len() ==> r@[i].0 != r@[j].0,
    {
        proof {
            use_type_invariant(self);
            self.n.lemma_wf_count(0);
            lemma_entries_props(&(*self.n), 0);
        }
        let mut v: Vec<(K, V)> = Vec::new();
        HashMapNode::to_vec_internal(&(*self.n), &mut v);
        proof {
            assert(v@ =~= self.as_entries());
        }
        v
    }

    /// Returns true if the map has no entries.
    pub fn is_empty(&self) -> (r: bool)
        ensures
            r == (self@.dom().len() == 0),
    {
        proof {
            use_type_invariant(self);
            self.n.lemma_wf_count(0);
        }
        self.count == 0
    }

    /// Returns the number of entries; the count is cached.
    pub fn len(&self) -> (r: usize)
        ensures
            r == self@.dom().len(),
    {
        proof {
            use_type_invariant(self);
            self.n.lemma_wf_count(0);
        }
        self.count
    }

    /// Returns an iterator over the entries, in the same deterministic
    /// order as `to_vec`.
    pub fn iter(&self) -> (r: HMIter<K, V>)
        ensures
            r.remaining() == self.as_entries(),
    {
        proof {
            use_type_invariant(self);
        }
        let mut stack: Vec<HashMapNode<K, V>> = Vec::new();
        let ghost s0 = stack@;
        stack.push(HashMapNode::clone_node(&(*self.n)));
        let r = HMIter { stack };
        proof {
            lemma_walk_push(s0, r.stack@.last());
            assert(r.remaining() =~= self.as_entries());
        }
        r
    }
}

/// The entries a walk stack has still to yield, topmost subtree
/// first.
pub(crate) open spec fn walk_entries<K, V>(s: Seq<HashMapNode<K, V>>) -> Seq<(K, V)>
    decreases s.len(),
{
    if s.len() == 0 {
        Seq::empty()
    } else {
        s.last().node_entries() + walk_entries(s.drop_last())
    }
}

/// The number of steps a walk can still take below this subtree.
pub(crate) open spec fn walk_weight<K, V>(n: HashMapNode<K, V>) -> nat
    decreases n,
{
    match n {
        HashMapNode::Empty => 1,
        HashMapNode::One(_, _, _) => 1,
        HashMapNode::Collision(_, entries) => 1 + entries@.len(),
        HashMapNode::Node(_, ch) => 2 + row_walk_weight(ch@),
    }
}

/// The total number of steps a row of subtrees can still take.
pub(crate) open spec fn row_walk_weight<K, V>(s: Seq<HashMapNode<K, V>>) -> nat
    decreases s,
{
    if s.len() == 0 {
        0
    } else {
        row_walk_weight(s.drop_last()) + walk_weight(s.last())
    }
}

/// The total weight of a walk stack.
pub(crate) open spec fn walk_stack_weight<K, V>(s: Seq<HashMapNode<K, V>>) -> nat
    decreases s.len(),
{
    if s.len() == 0 {
        0
    } else {
        walk_weight(s.last()) + walk_stack_weight(s.drop_last())
    }
}

/// Pushing a subtree onto a walk stack prepends its entries and adds
/// its weight.
proof fn lemma_walk_push<K, V>(s: Seq<HashMapNode<K, V>>, x: HashMapNode<K, V>)
    ensures
        walk_entries(s.push(x)) == x.node_entries() + walk_entries(s),
        walk_stack_weight(s.push(x)) == walk_weight(x) + walk_stack_weight(s),
{
    assert(s.push(x).drop_last() =~= s);
    assert(s.push(x).last() == x);
}

/// A non-empty row's entries and weight split off its first subtree.
proof fn lemma_row_split_first<K, V>(s: Seq<HashMapNode<K, V>>)
    requires
        s.len() > 0,
    ensures
        children_entries(s) == s[0].node_entries() + children_entries(
            s.subrange(1, s.len() as int),
        ),
        row_walk_weight(s) == walk_weight(s[0]) + row_walk_weight(s.subrange(1, s.len() as int)),
    decreases s.len(),
{
    if s.len() == 1 {
        assert(s.drop_last().len() == 0);
        assert(children_entries(s.drop_last()) =~= Seq::<(K, V)>::empty());
        assert(s.subrange(1, 1) =~= Seq::<HashMapNode<K, V>>::empty());
        assert(s[0] == s.last());
        assert(children_entries(s) =~= s[0].node_entries() + children_entries(
            s.subrange(1, 1),
        ));
        assert(row_walk_weight(s.subrange(1, 1)) == 0);
        assert(row_walk_weight(s.drop_last()) == 0);
        assert(row_walk_weight(s) == row_walk_weight(s.drop_last()) + walk_weight(s.last()));
        assert(row_walk_weight(s) == walk_weight(s[0]) + row_walk_weight(s.subrange(1, 1)));
    } else {
        lemma_row_split_first(s.drop_last());
        assert(s.drop_last()[0] == s[0]);
        assert(s.drop_last().subrange(1, s.len() - 1) =~= s.subrange(1, s.len() as int).drop_last());
        assert(s.subrange(1, s.len() as int).last() == s.last());
        assert(children_entries(s) =~= s[0].node_entries() + children_entries(
            s.subrange(1, s.len() as int),
        ));
        assert(row_walk_weight(s) == row_walk_weight(s.drop_last()) + walk_weight(s.last()));
        assert(row_walk_weight(s.subrange(1, s.len() as int)) == row_walk_weight(
            s.subrange(1, s.len() as int).drop_last(),
        ) + walk_weight(s.subrange(1, s.len() as int).last()));
    }
}

/// An iterator over a `HashMap`, yielding the entries in the
/// deterministic order of a slot walk over the version it was created
/// from.  It walks the trie with an explicit stack of pending
/// subtrees, whose depth the hash width bounds, and shares every
/// subtree it visits.
pub struct HMIter<K, V> {
    stack: Vec<HashMapNode<K, V>>,
}

impl<K, V> HMIter<K, V> {
    /// The entries not yet yielded.
    pub closed spec fn remaining(self) -> Seq<(K, V)> {
        walk_entries(self.stack@)
    }
}

impl<K: EquatableAndCloneable, V: EquatableAndCloneable> HMIter<K, V> {
    /// Yields the next entry, or `None` when the iterator is
    /// exhausted.
    pub fn next(&mut self) -> (r: Option<(K, V)>)
        ensures
            old(self).remaining().len() == 0 ==> r is None && final(self).remaining()
                == old(self).remaining(),
            old(self).remaining().len() > 0 ==> r == Some(old(self).remaining()[0])
                && final(self).remaining() == old(self).remaining().drop_first(),
    {
        let ghost orig = self.remaining();
        loop
            invariant
                orig == old(self).remaining(),
                self.remaining() == orig,
            decreases walk_stack_weight(self.stack@),
        {
            let ghost prev_stack = self.stack@;
            match self.stack.pop() {
                None => {
                    proof {
                        assert(orig.len() == 0);
                    }
                    return None;
                },
                Some(node) => {
                    proof {
                        assert(prev_stack.drop_last() == self.stack@);
                        assert(orig == node.node_entries() + walk_entries(self.stack@));
                    }
                    match node {
                        HashMapNode::Empty => {
                            proof {
                                assert(self.remaining() =~= orig);
                            }
                        },
                        HashMapNode::One(_, k, v) => {
                            proof {
                                assert(node.node_entries() =~= seq![(k, v)]);
                                assert(orig[0] == (k, v));
                                assert(self.remaining() =~= orig.drop_first());
                            }
                            return Some((k, v));
                        },
                        HashMapNode::Collision(h, entries) => {
                            let pairs: &Vec<(K, V)> = &(*entries);
                            let mut i: usize = pairs.len();
                            while i > 0
                                invariant
                                    i <= pairs@.len(),
                                    walk_entries(self.stack@) == pairs@.subrange(
                                        i as int,
                                        pairs@.len() as int,
                                    ) + walk_entries(prev_stack.drop_last()),
                                    walk_stack_weight(self.stack@) <= pairs@.len() - i
                                        + walk_stack_weight(prev_stack.drop_last()),
                                decreases i,
                            {
                                let ghost before = self.stack@;
                                i = i - 1;
                                self.stack.push(
                                    HashMapNode::One(h, pairs[i].0.dup(), pairs[i].1.dup()),
                                );
                                proof {
                                    lemma_walk_push(before, self.stack@.last());
                                    assert(walk_entries(self.stack@) =~= pairs@.subrange(
                                        i as int,
                                        pairs@.len() as int,
                                    ) + walk_entries(prev_stack.drop_last()));
                                }
                            }
                            proof {
                                assert(pairs@.subrange(0, pairs@.len() as int) =~= pairs@);
                                assert(self.remaining() =~= orig);
                                assert(walk_stack_weight(self.stack@) < walk_stack_weight(
                                    prev_stack,
                                ));
                            }
                        },
                        HashMapNode::Node(_, ch) => {
                            let row: &Vec<HashMapNode<K, V>> = &(*ch);
                            let mut i: usize = row.len();
                            proof {
                                assert(row@.subrange(i as int, row@.len() as int).len() == 0);
                                assert(children_entries(
                                    row@.subrange(i as int, row@.len() as int),
                                ) =~= Seq::<(K, V)>::empty());
                            }
                            while i > 0
                                invariant
                                    i <= row@.len(),
                                    walk_entries(self.stack@) == children_entries(
                                        row@.subrange(i as int, row@.len() as int),
                                    ) + walk_entries(prev_stack.drop_last()),
                                    walk_stack_weight(self.stack@) <= row_walk_weight(
                                        row@.subrange(i as int, row@.len() as int),
                                    ) + walk_stack_weight(prev_stack.drop_last()),
                                decreases i,
                            {
                                let ghost before = self.stack@;
                                i = i - 1;
                                self.stack.push(HashMapNode::clone_node(&row[i]));
                                proof {
                                    lemma_walk_push(before, self.stack@.last());
                                    lemma_row_split_first(
                                        row@.subrange(i as int, row@.len() as int),
                                    );
                                    assert(row@.subrange(i as int, row@.len() as int)[0]
                                        == row@[i as int]);
                                    assert(row@.subrange(i as int, row@.len() as int).subrange(
                                        1,
                                        row@.len() - i,
                                    ) =~= row@.subrange(i + 1 as int, row@.len() as int));
                                }
                            }
                            proof {
                                assert(row@.subrange(0, row@.len() as int) =~= row@);
                                assert(self.remaining() =~= orig);
                                assert(walk_stack_weight(self.stack@) < walk_stack_weight(
                                    prev_stack,
                                ));
                            }
                        },
                    }
                },
            }
        }
    }
}

/// Inserting under the same key twice keeps the later value: the
/// map's insert is an upsert.
pub proof fn lemma_insert_upsert<K, V>(m: Map<K, V>, k: K, v1: V, v2: V)
    ensures
        m.insert(k, v1).insert(k, v2) == m.insert(k, v2),
{
    assert(m.insert(k, v1).insert(k, v2) =~= m.insert(k, v2));
}

} // verus!
