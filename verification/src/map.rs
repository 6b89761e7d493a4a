//! A persistent ordered map over a height-balanced binary search tree.
//! Every operation returns a new map and leaves the receiver unchanged;
//! untouched subtrees are shared between versions.
//!
//! The view of a map is a mathematical `Map<K, V>`; `to_vec` and the
//! iterator additionally expose the entries as a strictly sorted
//! sequence.  The tree keeps the heights of every node's children
//! within two of each other, so the height `height` reports is
//! logarithmic in the entry count.
use std::sync::Arc;

use crate::capabilities::{EquatableAndCloneable, TotallyOrdered};
use vstd::prelude::*;

verus! {

broadcast use vstd::set::group_set_axioms, vstd::set_lib::group_set_properties, vstd::map::group_map_axioms;

pub(crate) enum MapNode<K, V> {
    Empty,
    One(K, V),
    Node(usize, Arc<MapNode<K, V>>, K, V, Arc<MapNode<K, V>>),
}

pub open spec fn max_nat(a: nat, b: nat) -> nat {
    if a >= b {
        a
    } else {
        b
    }
}

impl<K, V> MapNode<K, V> {
    /// The entries of the subtree, in symmetric (left-to-right) order.
    pub(crate) open spec fn entries(&self) -> Seq<(K, V)>
        decreases self,
    {
        match *self {
            MapNode::Empty => Seq::empty(),
            MapNode::One(k, v) => seq![(k, v)],
            MapNode::Node(_, l, k, v, r) => l.entries() + seq![(k, v)] + r.entries(),
        }
    }

    /// The subtree as a mathematical map.
    pub(crate) open spec fn as_map(&self) -> Map<K, V>
        decreases self,
    {
        match *self {
            MapNode::Empty => Map::empty(),
            MapNode::One(k, v) => Map::empty().insert(k, v),
            MapNode::Node(_, l, k, v, r) => l.as_map().union_prefer_right(r.as_map()).insert(
                k,
                v,
            ),
        }
    }

    /// The true height of the subtree.
    pub(crate) open spec fn sheight(&self) -> nat
        decreases self,
    {
        match *self {
            MapNode::Empty => 0,
            MapNode::One(_, _) => 1,
            MapNode::Node(_, l, _, _, r) => 1 + max_nat(l.sheight(), r.sheight()),
        }
    }
}

impl<K: TotallyOrdered, V> MapNode<K, V> {
    /// Well-formedness: binary-search-tree order on the keys, the
    /// cached height of every inner node equals the true height, and
    /// the heights of the two children of a node never differ by more
    /// than two.
    pub(crate) open spec fn wf(&self) -> bool
        decreases self,
    {
        match *self {
            MapNode::Empty => true,
            MapNode::One(_, _) => true,
            MapNode::Node(h, l, k, v, r) => {
                &&& l.wf()
                &&& r.wf()
                &&& h == 1 + max_nat(l.sheight(), r.sheight())
                &&& l.sheight() <= r.sheight() + 2
                &&& r.sheight() <= l.sheight() + 2
                &&& forall|e: K| #[trigger] l.as_map().dom().contains(e) ==> e.lt_spec(k)
                &&& forall|e: K| #[trigger] r.as_map().dom().contains(e) ==> k.lt_spec(e)
            },
        }
    }

    /// Reads the cached height of a subtree.
    fn node_height(t: &Arc<MapNode<K, V>>) -> (r: usize)
        requires
            t.wf(),
        ensures
            r == t.sheight(),
    {
        match &(**t) {
            MapNode::Empty => 0,
            MapNode::One(_, _) => 1,
            MapNode::Node(h, _, _, _, _) => *h,
        }
    }

    /// The height of a well-formed subtree never exceeds its entry count.
    pub(crate) proof fn lemma_height_le_size(&self)
        requires
            self.wf(),
        ensures
            self.sheight() <= self.entries().len(),
        decreases *self,
    {
        match self {
            MapNode::Empty => {},
            MapNode::One(_, _) => {},
            MapNode::Node(_, l, _, _, r) => {
                l.lemma_height_le_size();
                r.lemma_height_le_size();
            },
        }
    }

    /// A well-formed tree of a given height holds at least the minimal
    /// number of entries the balance bound allows: the height is
    /// logarithmic in the size.
    pub(crate) proof fn lemma_height_log_size(&self)
        requires
            self.wf(),
        ensures
            min_size(self.sheight()) <= self.entries().len(),
            pow2((self.sheight() + 1) / 2) <= self.entries().len() + 2,
        decreases *self,
    {
        match self {
            MapNode::Empty => {},
            MapNode::One(_, _) => {
                assert(min_size(0) == 0);
                assert(min_size(1) == 1);
                assert(pow2(0) == 1);
                assert(pow2(1) == 2);
            },
            MapNode::Node(_, l, _, _, r) => {
                l.lemma_height_log_size();
                r.lemma_height_log_size();
                let h = self.sheight();
                assert(h == 1 + max_nat(l.sheight(), r.sheight()));
                assert(min_size(h) == 1 + min_size((h - 1) as nat) + min_size(
                    if h >= 3 {
                        (h - 3) as nat
                    } else {
                        0
                    },
                ));
                assert(self.entries().len() == l.entries().len() + 1 + r.entries().len());
                if l.sheight() >= r.sheight() {
                    assert(l.sheight() == (h - 1) as nat);
                    lemma_min_size_mono(
                        if h >= 3 {
                            (h - 3) as nat
                        } else {
                            0
                        },
                        r.sheight(),
                    );
                    assert(min_size((h - 1) as nat) <= l.entries().len());
                } else {
                    assert(r.sheight() == (h - 1) as nat);
                    lemma_min_size_mono(
                        if h >= 3 {
                            (h - 3) as nat
                        } else {
                            0
                        },
                        l.sheight(),
                    );
                    assert(min_size((h - 1) as nat) <= r.entries().len());
                }
                lemma_min_size_pow2(self.sheight());
            },
        }
    }

    /// What well-formedness gives of a subtree: its map is finite and
    /// has exactly the entries of the sorted entry sequence.
    pub(crate) proof fn lemma_wf_props(&self)
        requires
            self.wf(),
        ensures
            self.as_map().dom().finite(),
            self.entries().len() == self.as_map().dom().len(),
            forall|i: int|
                #![trigger self.entries()[i]]
                0 <= i < self.entries().len() ==> self.as_map().dom().contains(
                    self.entries()[i].0,
                ) && self.as_map()[self.entries()[i].0] == self.entries()[i].1,
            forall|e: K| #[trigger]
                self.as_map().dom().contains(e) ==> exists|i: int|
                    0 <= i < self.entries().len() && self.entries()[i].0 == e,
            forall|i: int, j: int|
                0 <= i < j < self.entries().len() ==> self.entries()[i].0.lt_spec(
                    self.entries()[j].0,
                ),
        decreases *self,
    {
        match self {
            MapNode::Empty => {},
            MapNode::One(k, v) => {
                assert forall|e: K| self.as_map().dom().contains(e) implies exists|i: int|
                    0 <= i < self.entries().len() && self.entries()[i].0 == e by {
                    assert(self.entries()[0].0 == e);
                }
            },
            MapNode::Node(h, l, kr, vr, r) => {
                l.lemma_wf_props();
                r.lemma_wf_props();
                let k = *kr;
                let v = *vr;
                assert(self.entries() == l.entries() + seq![(k, v)] + r.entries());
                assert forall|e: K| l.as_map().dom().contains(e) implies !r.as_map().dom().contains(
                    e,
                ) by {
                    if r.as_map().dom().contains(e) {
                        K::lt_properties(e, k, e);
                    }
                }
                assert(!l.as_map().dom().contains(k)) by {
                    if l.as_map().dom().contains(k) {
                        K::lt_properties(k, k, k);
                    }
                }
                assert(!r.as_map().dom().contains(k)) by {
                    if r.as_map().dom().contains(k) {
                        K::lt_properties(k, k, k);
                    }
                }
                assert(self.as_map().dom() =~= l.as_map().dom() + r.as_map().dom() + set![k]);
                assert(l.as_map().dom().disjoint(r.as_map().dom()));
                assert((l.as_map().dom() + r.as_map().dom()).len() == l.as_map().dom().len()
                    + r.as_map().dom().len());
                assert((l.as_map().dom() + r.as_map().dom()).insert(k) =~= l.as_map().dom()
                    + r.as_map().dom() + set![k]);
                assert(self.as_map().dom().len() == l.as_map().dom().len()
                    + r.as_map().dom().len() + 1);
                // every position of the entry sequence is in the map
                assert forall|i: int| 0 <= i < self.entries().len() implies
                    self.as_map().dom().contains(self.entries()[i].0) && self.as_map()[
                    self.entries()[i].0] == self.entries()[i].1 by {
                    let li = l.entries().len() as int;
                    if i < li {
                        assert(self.entries()[i] == l.entries()[i]);
                        assert(l.as_map().dom().contains(l.entries()[i].0));
                        assert(l.entries()[i].0.lt_spec(k));
                        K::lt_properties(l.entries()[i].0, k, k);
                        assert(self.entries()[i].0 != k);
                    } else if i == li {
                        assert(self.entries()[i] == (k, v));
                    } else {
                        let j = i - li - 1;
                        assert(self.entries()[i] == r.entries()[j]);
                        assert(r.as_map().dom().contains(r.entries()[j].0));
                        assert(k.lt_spec(r.entries()[j].0));
                        K::lt_properties(k, r.entries()[j].0, r.entries()[j].0);
                        assert(self.entries()[i].0 != k);
                    }
                }
                // every key of the map appears in the entry sequence
                assert forall|e: K| self.as_map().dom().contains(e) implies exists|i: int|
                    0 <= i < self.entries().len() && self.entries()[i].0 == e by {
                    if l.as_map().dom().contains(e) {
                        let i = choose|i: int|
                            0 <= i < l.entries().len() && l.entries()[i].0 == e;
                        assert(self.entries()[i].0 == e);
                    } else if r.as_map().dom().contains(e) {
                        let j = choose|j: int|
                            0 <= j < r.entries().len() && r.entries()[j].0 == e;
                        assert(self.entries()[l.entries().len() + 1 + j].0 == e);
                    } else {
                        assert(e == k);
                        assert(self.entries()[l.entries().len() as int].0 == e);
                    }
                }
                // strict sortedness across the three segments
                assert forall|i: int, j: int| 0 <= i < j < self.entries().len() implies
                    self.entries()[i].0.lt_spec(self.entries()[j].0) by {
                    let li = l.entries().len() as int;
                    if j < li {
                        assert(self.entries()[i] == l.entries()[i]);
                        assert(self.entries()[j] == l.entries()[j]);
                    } else if i > li {
                        assert(self.entries()[i] == r.entries()[i - li - 1]);
                        assert(self.entries()[j] == r.entries()[j - li - 1]);
                    } else if i == li {
                        assert(self.entries()[j] == r.entries()[j - li - 1]);
                        assert(r.as_map().dom().contains(r.entries()[j - li - 1].0));
                    } else if j == li {
                        assert(self.entries()[i] == l.entries()[i]);
                        assert(l.as_map().dom().contains(l.entries()[i].0));
                    } else {
                        // i below the root key, j above it
                        assert(self.entries()[i] == l.entries()[i]);
                        assert(self.entries()[j] == r.entries()[j - li - 1]);
                        assert(l.as_map().dom().contains(l.entries()[i].0));
                        assert(r.as_map().dom().contains(r.entries()[j - li - 1].0));
                        K::lt_properties(l.entries()[i].0, k, r.entries()[j - li - 1].0);
                    }
                }
            },
        }
    }
}


/// Two to the `n`-th power.
pub open spec fn pow2(n: nat) -> nat
    decreases n,
{
    if n == 0 {
        1
    } else {
        2 * pow2((n - 1) as nat)
    }
}

/// The fewest entries a balanced tree of a given height can hold: one
/// for the root, a subtree one level shorter, and a subtree at most
/// two levels shorter than that.
pub open spec fn min_size(h: nat) -> nat
    decreases h,
{
    if h == 0 {
        0
    } else {
        1 + min_size((h - 1) as nat) + min_size(
            if h >= 3 {
                (h - 3) as nat
            } else {
                0
            },
        )
    }
}

/// The minimal size grows with the height.
proof fn lemma_min_size_mono(a: nat, b: nat)
    requires
        a <= b,
    ensures
        min_size(a) <= min_size(b),
    decreases b,
{
    if a < b {
        lemma_min_size_mono(a, (b - 1) as nat);
        assert(min_size(b) == 1 + min_size((b - 1) as nat) + min_size(
            if b >= 3 {
                (b - 3) as nat
            } else {
                0
            },
        ));
    }
}

/// The minimal size at least doubles every two levels (above the
/// smallest trees).
proof fn lemma_min_size_doubles(h: nat)
    requires
        h >= 5,
    ensures
        min_size(h) >= 2 * min_size((h - 2) as nat) + 2,
    decreases h,
{
    assert(min_size(0) == 0);
    assert(min_size(1) == 1);
    assert(min_size(2) == 2);
    assert(min_size(3) == 3);
    assert(min_size(4) == 5);
    assert(min_size(5) == 8);
    assert(min_size(6) == 12);
    assert(min_size(7) == 18);
    if h >= 8 {
        lemma_min_size_doubles((h - 1) as nat);
        lemma_min_size_doubles((h - 3) as nat);
        assert(min_size(h) == 1 + min_size((h - 1) as nat) + min_size((h - 3) as nat));
        assert(min_size((h - 2) as nat) == 1 + min_size((h - 3) as nat) + min_size(
            (h - 5) as nat,
        ));
    }
}

/// A tree of height `h` holds at least `2^ceil(h/2) - 2` entries.
proof fn lemma_min_size_pow2(h: nat)
    ensures
        pow2((h + 1) / 2) <= min_size(h) + 2,
    decreases h,
{
    if h <= 4 {
        assert(min_size(0) == 0);
        assert(min_size(1) == 1);
        assert(min_size(2) == 2);
        assert(min_size(3) == 3);
        assert(min_size(4) == 5);
        assert(pow2(0) == 1);
        assert(pow2(1) == 2);
        assert(pow2(2) == 4);
    } else {
        lemma_min_size_pow2((h - 2) as nat);
        lemma_min_size_doubles(h);
        assert((h + 1) / 2 == ((h - 2 + 1) / 2 + 1) as nat);
        assert(pow2((h + 1) / 2) == 2 * pow2((((h - 2) as nat) + 1) / 2));
    }
}

/// Ambient consequences of the strict total order, in quantified form,
/// so that proofs about whole key sets can instantiate them freely.
pub(crate) proof fn lemma_order<K: TotallyOrdered>()
    ensures
        forall|a: K, b: K| #[trigger] a.lt_spec(b) ==> a != b && !b.lt_spec(a),
        forall|a: K, b: K, c: K|
            #![trigger a.lt_spec(b), b.lt_spec(c)]
            a.lt_spec(b) && b.lt_spec(c) ==> a.lt_spec(c),
        forall|a: K, b: K| #![trigger a.lt_spec(b)] a != b ==> a.lt_spec(b) || b.lt_spec(a),
{
    assert forall|a: K, b: K| a.lt_spec(b) implies a != b && !b.lt_spec(a) by {
        K::lt_properties(a, b, b);
    }
    assert forall|a: K, b: K, c: K| a.lt_spec(b) && b.lt_spec(c) implies a.lt_spec(c) by {
        K::lt_properties(a, b, c);
    }
    assert forall|a: K, b: K| a != b implies a.lt_spec(b) || b.lt_spec(a) by {
        K::lt_properties(a, b, a);
    }
}

impl<K: TotallyOrdered, V: EquatableAndCloneable> MapNode<K, V> {

    /// Joins two subtrees around a key that separates them, computing
    /// the cached height; a pair of empty subtrees becomes a leaf.
    fn make(l: &Arc<MapNode<K, V>>, k: K, v: V, r: &Arc<MapNode<K, V>>) -> (res: Arc<
        MapNode<K, V>,
    >)
        requires
            l.wf(),
            r.wf(),
            l.sheight() <= r.sheight() + 2,
            r.sheight() <= l.sheight() + 2,
            1 + max_nat(l.sheight(), r.sheight()) <= usize::MAX,
            forall|e: K| #[trigger] l.as_map().dom().contains(e) ==> e.lt_spec(k),
            forall|e: K| #[trigger] r.as_map().dom().contains(e) ==> k.lt_spec(e),
        ensures
            res.wf(),
            res.entries() == l.entries() + seq![(k, v)] + r.entries(),
            res.as_map() == l.as_map().union_prefer_right(r.as_map()).insert(k, v),
            res.sheight() == 1 + max_nat(l.sheight(), r.sheight()),
    {
        match (&(**l), &(**r)) {
            (MapNode::Empty, MapNode::Empty) => {
                let res = Arc::new(MapNode::One(k, v));
                proof {
                    assert(res.entries() =~= l.entries() + seq![(k, v)] + r.entries());
                    assert(res.as_map() =~= l.as_map().union_prefer_right(r.as_map()).insert(
                        k,
                        v,
                    ));
                }
                res
            },
            _ => {
                let lh = Self::node_height(l);
                let rh = Self::node_height(r);
                let m = if lh >= rh {
                    lh
                } else {
                    rh
                };
                Arc::new(MapNode::Node(m + 1, l.clone(), k, v, r.clone()))
            },
        }
    }

    /// Joins two subtrees around a separating key, restoring the height
    /// balance with a single or double rotation where one side has
    /// grown too tall.
    fn rebalance(t1: &Arc<MapNode<K, V>>, k: K, v: V, t2: &Arc<MapNode<K, V>>) -> (res: Arc<
        MapNode<K, V>,
    >)
        requires
            t1.wf(),
            t2.wf(),
            t1.sheight() <= t2.sheight() + 3,
            t2.sheight() <= t1.sheight() + 3,
            1 + max_nat(t1.sheight(), t2.sheight()) <= usize::MAX,
            forall|e: K| #[trigger] t1.as_map().dom().contains(e) ==> e.lt_spec(k),
            forall|e: K| #[trigger] t2.as_map().dom().contains(e) ==> k.lt_spec(e),
        ensures
            res.wf(),
            res.entries() == t1.entries() + seq![(k, v)] + t2.entries(),
            res.as_map() == t1.as_map().union_prefer_right(t2.as_map()).insert(k, v),
            max_nat(t1.sheight(), t2.sheight()) <= res.sheight() <= 1 + max_nat(
                t1.sheight(),
                t2.sheight(),
            ),
            t1.sheight() <= t2.sheight() + 2 && t2.sheight() <= t1.sheight() + 2
                ==> res.sheight() == 1 + max_nat(t1.sheight(), t2.sheight()),
    {
        let t1h = Self::node_height(t1);
        let t2h = Self::node_height(t2);
        if t2h > 2 && t2h - 2 > t1h {
            Self::rot_from_right(t1, k, v, t2)
        } else if t1h > 2 && t1h - 2 > t2h {
            Self::rot_from_left(t1, k, v, t2)
        } else {
            Self::make(t1, k, v, t2)
        }
    }

    /// Rebuilds the join when the right side is more than two levels
    /// taller, moving its leftward weight up.
    fn rot_from_right(t1: &Arc<MapNode<K, V>>, k: K, v: V, t2: &Arc<MapNode<K, V>>) -> (res:
        Arc<MapNode<K, V>>)
        requires
            t1.wf(),
            t2.wf(),
            (**t2) is Node,
            t2.sheight() == t1.sheight() + 3,
            t2.sheight() + 1 <= usize::MAX,
            forall|e: K| #[trigger] t1.as_map().dom().contains(e) ==> e.lt_spec(k),
            forall|e: K| #[trigger] t2.as_map().dom().contains(e) ==> k.lt_spec(e),
        ensures
            res.wf(),
            res.entries() == t1.entries() + seq![(k, v)] + t2.entries(),
            res.as_map() == t1.as_map().union_prefer_right(t2.as_map()).insert(k, v),
            t2.sheight() <= res.sheight() <= t2.sheight() + 1,
    {
        proof {
            lemma_order::<K>();
        }
        match &(**t2) {
            MapNode::Node(_, t2l, t2k, t2v, t2r) => {
                proof {
                    assert(t2l.wf() && t2r.wf());
                    assert(t2.sheight() == 1 + max_nat(t2l.sheight(), t2r.sheight()));
                    assert forall|e: K| t2l.as_map().dom().contains(e) implies k.lt_spec(e)
                        && e.lt_spec(*t2k) by {
                        assert(t2.as_map().dom().contains(e));
                    }
                    assert forall|e: K| t2r.as_map().dom().contains(e) implies k.lt_spec(e)
                        && t2k.lt_spec(e) by {
                        assert(t2.as_map().dom().contains(e));
                    }
                    assert(t2.as_map().dom().contains(*t2k));
                }
                let t2lh = Self::node_height(t2l);
                let t2rh = Self::node_height(t2r);
                if t2lh > t2rh {
                    Self::rot_from_right_double(t1, k, v, t2l, t2k, t2v, t2r, Ghost(t2.as_map()))
                } else {
                    let a = Self::make(t1, k, v, t2l);
                    let res = Self::make(&a, t2k.dup(), t2v.dup(), t2r);
                    proof {
                        assert(res.entries() =~= t1.entries() + seq![(k, v)] + t2.entries());
                        assert(!t2r.as_map().dom().contains(k));
                        lemma_map_join(
                            t1.as_map(),
                            k,
                            v,
                            t2l.as_map(),
                            *t2k,
                            *t2v,
                            t2r.as_map(),
                        );
                        assert(res.as_map() == t1.as_map().union_prefer_right(
                            t2.as_map(),
                        ).insert(k, v));
                    }
                    res
                }
            },
            _ => {
                proof {
                    assert(false);
                }
                unreached()
            },
        }
    }

    /// The double rotation on the right: the right child's left subtree
    /// is split and its key becomes the new root.
    #[verifier::rlimit(30)]
    fn rot_from_right_double(
        t1: &Arc<MapNode<K, V>>,
        k: K,
        v: V,
        t2l: &Arc<MapNode<K, V>>,
        t2k: &K,
        t2v: &V,
        t2r: &Arc<MapNode<K, V>>,
        t2m: Ghost<Map<K, V>>,
    ) -> (res: Arc<MapNode<K, V>>)
        requires
            t1.wf(),
            t2l.wf(),
            t2r.wf(),
            (**t2l) is Node,
            t2l.sheight() == t1.sheight() + 2,
            t1.sheight() <= t2r.sheight(),
            t2r.sheight() <= t1.sheight() + 1,
            t1.sheight() + 4 <= usize::MAX,
            forall|e: K| #[trigger] t1.as_map().dom().contains(e) ==> e.lt_spec(k),
            forall|e: K| #[trigger]
                t2l.as_map().dom().contains(e) ==> k.lt_spec(e) && e.lt_spec(*t2k),
            forall|e: K| #[trigger]
                t2r.as_map().dom().contains(e) ==> k.lt_spec(e) && t2k.lt_spec(e),
            k.lt_spec(*t2k),
            t2m@ == t2l.as_map().union_prefer_right(t2r.as_map()).insert(*t2k, *t2v),
        ensures
            res.wf(),
            res.entries() == t1.entries() + seq![(k, v)] + (t2l.entries() + seq![(*t2k, *t2v)]
                + t2r.entries()),
            res.as_map() == t1.as_map().union_prefer_right(t2m@).insert(k, v),
            res.sheight() == t1.sheight() + 3,
    {
        proof {
            lemma_order::<K>();
        }
        match &(**t2l) {
            MapNode::Node(_, t2ll, t2lk, t2lv, t2lr) => {
                proof {
                    assert(t2ll.wf() && t2lr.wf());
                    assert(t2l.sheight() == 1 + max_nat(t2ll.sheight(), t2lr.sheight()));
                    assert forall|e: K| t2ll.as_map().dom().contains(e) implies k.lt_spec(e)
                        && e.lt_spec(*t2lk) by {
                        assert(t2l.as_map().dom().contains(e));
                    }
                    assert forall|e: K| t2lr.as_map().dom().contains(e) implies t2lk.lt_spec(e)
                        && e.lt_spec(*t2k) by {
                        assert(t2l.as_map().dom().contains(e));
                    }
                    assert(t2l.as_map().dom().contains(*t2lk));
                }
                let a = Self::make(t1, k, v, t2ll);
                let b = Self::make(t2lr, t2k.dup(), t2v.dup(), t2r);
                let res = Self::make(&a, t2lk.dup(), t2lv.dup(), &b);
                proof {
                    assert(res.entries() =~= t1.entries() + seq![(k, v)] + (t2l.entries()
                        + seq![(*t2k, *t2v)] + t2r.entries()));
                    lemma_map_join_double(
                        t1.as_map(),
                        k,
                        v,
                        t2ll.as_map(),
                        *t2lk,
                        *t2lv,
                        t2lr.as_map(),
                        *t2k,
                        *t2v,
                        t2r.as_map(),
                    );
                    assert(res.as_map() == t1.as_map().union_prefer_right(t2m@).insert(k, v));
                }
                res
            },
            _ => {
                proof {
                    assert(false);
                }
                unreached()
            },
        }
    }

    /// Rebuilds the join when the left side is more than two levels
    /// taller, moving its rightward weight up.
    fn rot_from_left(t1: &Arc<MapNode<K, V>>, k: K, v: V, t2: &Arc<MapNode<K, V>>) -> (res: Arc<
        MapNode<K, V>,
    >)
        requires
            t1.wf(),
            t2.wf(),
            (**t1) is Node,
            t1.sheight() == t2.sheight() + 3,
            t1.sheight() + 1 <= usize::MAX,
            forall|e: K| #[trigger] t1.as_map().dom().contains(e) ==> e.lt_spec(k),
            forall|e: K| #[trigger] t2.as_map().dom().contains(e) ==> k.lt_spec(e),
        ensures
            res.wf(),
            res.entries() == t1.entries() + seq![(k, v)] + t2.entries(),
            res.as_map() == t1.as_map().union_prefer_right(t2.as_map()).insert(k, v),
            t1.sheight() <= res.sheight() <= t1.sheight() + 1,
    {
        proof {
            lemma_order::<K>();
        }
        match &(**t1) {
            MapNode::Node(_, t1l, t1k, t1v, t1r) => {
                proof {
                    assert(t1l.wf() && t1r.wf());
                    assert(t1.sheight() == 1 + max_nat(t1l.sheight(), t1r.sheight()));
                    assert forall|e: K| t1l.as_map().dom().contains(e) implies e.lt_spec(k)
                        && e.lt_spec(*t1k) by {
                        assert(t1.as_map().dom().contains(e));
                    }
                    assert forall|e: K| t1r.as_map().dom().contains(e) implies e.lt_spec(k)
                        && t1k.lt_spec(e) by {
                        assert(t1.as_map().dom().contains(e));
                    }
                    assert(t1.as_map().dom().contains(*t1k));
                }
                let t1lh = Self::node_height(t1l);
                let t1rh = Self::node_height(t1r);
                if t1rh > t1lh {
                    Self::rot_from_left_double(t1l, t1k, t1v, t1r, k, v, t2, Ghost(t1.as_map()))
                } else {
                    let b = Self::make(t1r, k, v, t2);
                    let res = Self::make(t1l, t1k.dup(), t1v.dup(), &b);
                    proof {
                        assert(res.entries() =~= t1.entries() + seq![(k, v)] + t2.entries());
                        assert(!t2.as_map().dom().contains(*t1k));
                        lemma_map_join(
                            t1l.as_map(),
                            *t1k,
                            *t1v,
                            t1r.as_map(),
                            k,
                            v,
                            t2.as_map(),
                        );
                        assert(res.as_map() == t1.as_map().union_prefer_right(
                            t2.as_map(),
                        ).insert(k, v));
                    }
                    res
                }
            },
            _ => {
                proof {
                    assert(false);
                }
                unreached()
            },
        }
    }

    /// The double rotation on the left: the left child's right subtree
    /// is split and its key becomes the new root.
    #[verifier::rlimit(30)]
    fn rot_from_left_double(
        t1l: &Arc<MapNode<K, V>>,
        t1k: &K,
        t1v: &V,
        t1r: &Arc<MapNode<K, V>>,
        k: K,
        v: V,
        t2: &Arc<MapNode<K, V>>,
        t1m: Ghost<Map<K, V>>,
    ) -> (res: Arc<MapNode<K, V>>)
        requires
            t1l.wf(),
            t1r.wf(),
            t2.wf(),
            (**t1r) is Node,
            t1r.sheight() == t2.sheight() + 2,
            t2.sheight() <= t1l.sheight(),
            t1l.sheight() <= t2.sheight() + 1,
            t2.sheight() + 4 <= usize::MAX,
            forall|e: K| #[trigger]
                t1l.as_map().dom().contains(e) ==> e.lt_spec(k) && e.lt_spec(*t1k),
            forall|e: K| #[trigger]
                t1r.as_map().dom().contains(e) ==> e.lt_spec(k) && t1k.lt_spec(e),
            forall|e: K| #[trigger] t2.as_map().dom().contains(e) ==> k.lt_spec(e),
            t1k.lt_spec(k),
            t1m@ == t1l.as_map().union_prefer_right(t1r.as_map()).insert(*t1k, *t1v),
        ensures
            res.wf(),
            res.entries() == (t1l.entries() + seq![(*t1k, *t1v)] + t1r.entries()) + seq![(k, v)]
                + t2.entries(),
            res.as_map() == t1m@.union_prefer_right(t2.as_map()).insert(k, v),
            res.sheight() == t2.sheight() + 3,
    {
        proof {
            lemma_order::<K>();
        }
        match &(**t1r) {
            MapNode::Node(_, t1rl, t1rk, t1rv, t1rr) => {
                proof {
                    assert(t1rl.wf() && t1rr.wf());
                    assert(t1r.sheight() == 1 + max_nat(t1rl.sheight(), t1rr.sheight()));
                    assert forall|e: K| t1rl.as_map().dom().contains(e) implies t1k.lt_spec(e)
                        && e.lt_spec(*t1rk) by {
                        assert(t1r.as_map().dom().contains(e));
                    }
                    assert forall|e: K| t1rr.as_map().dom().contains(e) implies t1rk.lt_spec(e)
                        && e.lt_spec(k) by {
                        assert(t1r.as_map().dom().contains(e));
                    }
                    assert(t1r.as_map().dom().contains(*t1rk));
                }
                let a = Self::make(t1l, t1k.dup(), t1v.dup(), t1rl);
                let b = Self::make(t1rr, k, v, t2);
                let res = Self::make(&a, t1rk.dup(), t1rv.dup(), &b);
                proof {
                    assert(res.entries() =~= (t1l.entries() + seq![(*t1k, *t1v)]
                        + t1r.entries()) + seq![(k, v)] + t2.entries());
                    lemma_map_split_double(
                        t1l.as_map(),
                        *t1k,
                        *t1v,
                        t1rl.as_map(),
                        *t1rk,
                        *t1rv,
                        t1rr.as_map(),
                        k,
                        v,
                        t2.as_map(),
                    );
                    assert(res.as_map() == t1m@.union_prefer_right(t2.as_map()).insert(k, v));
                }
                res
            },
            _ => {
                proof {
                    assert(false);
                }
                unreached()
            },
        }
    }

    /// Inserts or overwrites a key, rebalancing on the way back up.
    fn insert(t: &Arc<MapNode<K, V>>, k: K, v: V) -> (res: Arc<MapNode<K, V>>)
        requires
            t.wf(),
            t.entries().len() < usize::MAX,
        ensures
            res.wf(),
            res.as_map() == t.as_map().insert(k, v),
            t.sheight() <= res.sheight() <= t.sheight() + 1,
        decreases (**t),
    {
        proof {
            lemma_order::<K>();
            t.lemma_height_le_size();
        }
        match &(**t) {
            MapNode::Empty => {
                let res = Arc::new(MapNode::One(k, v));
                proof {
                    assert(res.as_map() =~= t.as_map().insert(k, v));
                }
                res
            },
            MapNode::One(k2, v2) => {
                if k.lt(k2) {
                    let e: Arc<MapNode<K, V>> = Arc::new(MapNode::Empty);
                    let o = Arc::new(MapNode::One(k2.dup(), v2.dup()));
                    let res = Self::make(&e, k, v, &o);
                    proof {
                        assert(res.as_map() =~= t.as_map().insert(k, v));
                    }
                    res
                } else if k2.lt(&k) {
                    let e: Arc<MapNode<K, V>> = Arc::new(MapNode::Empty);
                    let o = Arc::new(MapNode::One(k2.dup(), v2.dup()));
                    let res = Self::make(&o, k, v, &e);
                    proof {
                        assert(res.as_map() =~= t.as_map().insert(k, v));
                    }
                    res
                } else {
                    proof {
                        K::lt_properties(k, *k2, k);
                    }
                    let res = Arc::new(MapNode::One(k, v));
                    proof {
                        assert(res.as_map() =~= t.as_map().insert(k, v));
                    }
                    res
                }
            },
            MapNode::Node(h, l, k2, v2, r) => {
                proof {
                    assert(t.entries().len() == l.entries().len() + 1 + r.entries().len());
                    l.lemma_height_le_size();
                    r.lemma_height_le_size();
                }
                if k.lt(k2) {
                    let nl = Self::insert(l, k, v);
                    proof {
                        assert(!r.as_map().dom().contains(k));
                        assert forall|e: K| nl.as_map().dom().contains(e) implies e.lt_spec(
                            *k2,
                        ) by {
                            assert(l.as_map().insert(k, v).dom() == l.as_map().dom().insert(k));
                        }
                        nl.lemma_height_le_size();
                    }
                    let res = Self::rebalance(&nl, k2.dup(), v2.dup(), r);
                    proof {
                        assert(res.as_map() =~= t.as_map().insert(k, v));
                    }
                    res
                } else if k2.lt(&k) {
                    let nr = Self::insert(r, k, v);
                    proof {
                        assert(!l.as_map().dom().contains(k));
                        assert forall|e: K| nr.as_map().dom().contains(e) implies k2.lt_spec(
                            e,
                        ) by {
                            assert(r.as_map().insert(k, v).dom() == r.as_map().dom().insert(k));
                        }
                        nr.lemma_height_le_size();
                    }
                    let res = Self::rebalance(l, k2.dup(), v2.dup(), &nr);
                    proof {
                        assert(res.as_map() =~= t.as_map().insert(k, v));
                    }
                    res
                } else {
                    proof {
                        K::lt_properties(k, *k2, k);
                    }
                    let res = Arc::new(MapNode::Node(*h, l.clone(), k, v, r.clone()));
                    proof {
                        assert(res.as_map() =~= t.as_map().insert(k, v));
                    }
                    res
                }
            },
        }
    }

    /// Removes and returns the least entry of a non-empty subtree.
    fn splice_out_successor(t: &Arc<MapNode<K, V>>) -> (res: (K, V, Arc<MapNode<K, V>>))
        requires
            t.wf(),
            t.entries().len() > 0,
        ensures
            res.2.wf(),
            t.as_map().dom().contains(res.0),
            t.as_map()[res.0] == res.1,
            res.2.as_map() == t.as_map().remove(res.0),
            forall|e: K| #[trigger] res.2.as_map().dom().contains(e) ==> res.0.lt_spec(e),
            res.2.sheight() <= t.sheight(),
            t.sheight() <= res.2.sheight() + 1,
        decreases (**t),
    {
        proof {
            lemma_order::<K>();
        }
        match &(**t) {
            MapNode::Empty => {
                proof {
                    assert(false);
                }
                unreached()
            },
            MapNode::One(k2, v2) => {
                let e: Arc<MapNode<K, V>> = Arc::new(MapNode::Empty);
                proof {
                    assert(e.as_map() =~= t.as_map().remove(*k2));
                }
                (k2.dup(), v2.dup(), e)
            },
            MapNode::Node(_, l, k2, v2, r) => {
                match &(**l) {
                    MapNode::Empty => {
                        proof {
                            assert(!r.as_map().dom().contains(*k2));
                            assert(l.as_map().union_prefer_right(r.as_map()) =~= r.as_map());
                            assert(r.as_map() =~= t.as_map().remove(*k2));
                        }
                        (k2.dup(), v2.dup(), r.clone())
                    },
                    _ => {
                        proof {
                            assert(l.entries().len() > 0);
                        }
                        let spliced = Self::splice_out_successor(l);
                        let k3 = spliced.0;
                        let v3 = spliced.1;
                        let ll = spliced.2;
                        proof {
                            assert forall|e: K| ll.as_map().dom().contains(e) implies e.lt_spec(
                                *k2,
                            ) by {
                                assert(l.as_map().dom().contains(e));
                            }
                        }
                        let res2 = Self::rebalance(&ll, k2.dup(), v2.dup(), r);
                        proof {
                            assert(l.as_map().dom().contains(k3));
                            assert(k3.lt_spec(*k2));
                            assert(!r.as_map().dom().contains(k3));
                            assert(res2.as_map() =~= t.as_map().remove(k3));
                            assert forall|e: K| res2.as_map().dom().contains(e) implies
                                k3.lt_spec(e) by {
                                if ll.as_map().dom().contains(e) {
                                } else if r.as_map().dom().contains(e) {
                                } else {
                                    assert(e == *k2);
                                }
                            }
                        }
                        (k3, v3, res2)
                    },
                }
            },
        }
    }

    /// Removes a key, returning the subtree unchanged when it is absent.
    fn remove(t: &Arc<MapNode<K, V>>, k: &K) -> (res: Arc<MapNode<K, V>>)
        requires
            t.wf(),
        ensures
            res.wf(),
            res.as_map() == t.as_map().remove(*k),
            res.sheight() <= t.sheight(),
            t.sheight() <= res.sheight() + 1,
        decreases (**t),
    {
        proof {
            lemma_order::<K>();
        }
        match &(**t) {
            MapNode::Empty => {
                let res: Arc<MapNode<K, V>> = Arc::new(MapNode::Empty);
                proof {
                    assert(res.as_map() =~= t.as_map().remove(*k));
                }
                res
            },
            MapNode::One(k2, v2) => {
                if k.eq_val(k2) {
                    let res: Arc<MapNode<K, V>> = Arc::new(MapNode::Empty);
                    proof {
                        assert(res.as_map() =~= t.as_map().remove(*k));
                    }
                    res
                } else {
                    let res = Arc::new(MapNode::One(k2.dup(), v2.dup()));
                    proof {
                        assert(res.as_map() =~= t.as_map().remove(*k));
                    }
                    res
                }
            },
            MapNode::Node(_, l, k2, v2, r) => {
                if k.lt(k2) {
                    let nl = Self::remove(l, k);
                    proof {
                        assert(!r.as_map().dom().contains(*k));
                        assert forall|e: K| nl.as_map().dom().contains(e) implies e.lt_spec(
                            *k2,
                        ) by {
                            assert(l.as_map().dom().contains(e));
                        }
                    }
                    let res = Self::rebalance(&nl, k2.dup(), v2.dup(), r);
                    proof {
                        assert(res.as_map() =~= t.as_map().remove(*k));
                    }
                    res
                } else if k2.lt(k) {
                    let nr = Self::remove(r, k);
                    proof {
                        assert(!l.as_map().dom().contains(*k));
                        assert forall|e: K| nr.as_map().dom().contains(e) implies k2.lt_spec(
                            e,
                        ) by {
                            assert(r.as_map().dom().contains(e));
                        }
                    }
                    let res = Self::rebalance(l, k2.dup(), v2.dup(), &nr);
                    proof {
                        assert(res.as_map() =~= t.as_map().remove(*k));
                    }
                    res
                } else {
                    proof {
                        K::lt_properties(*k, *k2, *k);
                        assert(*k == *k2);
                        assert(!l.as_map().dom().contains(*k2));
                        assert(!r.as_map().dom().contains(*k2));
                    }
                    match (&(**l), &(**r)) {
                        (MapNode::Empty, _) => {
                            proof {
                                assert(r.as_map() =~= t.as_map().remove(*k));
                            }
                            r.clone()
                        },
                        (_, MapNode::Empty) => {
                            proof {
                                assert(l.as_map() =~= t.as_map().remove(*k));
                            }
                            l.clone()
                        },
                        _ => {
                            proof {
                                assert(r.entries().len() > 0);
                            }
                            let spliced = Self::splice_out_successor(r);
                            let sk = spliced.0;
                            let sv = spliced.1;
                            let rr = spliced.2;
                            proof {
                                assert(r.as_map().dom().contains(sk));
                                assert(k2.lt_spec(sk));
                                assert forall|e: K| l.as_map().dom().contains(e) implies
                                    e.lt_spec(sk) by {}
                            }
                            let res = Self::rebalance(l, sk, sv, &rr);
                            proof {
                                assert(res.as_map() =~= t.as_map().remove(*k));
                            }
                            res
                        },
                    }
                }
            },
        }
    }

    /// Looks a key up, returning a reference to its value.
    fn find<'a>(t: &'a Arc<MapNode<K, V>>, k: &K) -> (res: Option<&'a V>)
        requires
            t.wf(),
        ensures
            match res {
                Some(fv) => t.as_map().dom().contains(*k) && *fv == t.as_map()[*k],
                None => !t.as_map().dom().contains(*k),
            },
        decreases (**t),
    {
        proof {
            lemma_order::<K>();
        }
        match &(**t) {
            MapNode::Empty => None,
            MapNode::One(k2, v2) => {
                if k.eq_val(k2) {
                    Some(v2)
                } else {
                    None
                }
            },
            MapNode::Node(_, l, k2, v2, r) => {
                if k.lt(k2) {
                    proof {
                        assert(!r.as_map().dom().contains(*k));
                    }
                    Self::find(l, k)
                } else if k2.lt(k) {
                    proof {
                        assert(!l.as_map().dom().contains(*k));
                    }
                    Self::find(r, k)
                } else {
                    proof {
                        K::lt_properties(*k, *k2, *k);
                        assert(!l.as_map().dom().contains(*k));
                        assert(!r.as_map().dom().contains(*k));
                    }
                    Some(v2)
                }
            },
        }
    }

    /// Appends the entries of the subtree to a vector, in key order.
    fn to_vec(t: &MapNode<K, V>, v: &mut Vec<(K, V)>)
        ensures
            final(v)@ == old(v)@ + t.entries(),
        decreases (*t),
    {
        match t {
            MapNode::Empty => {
                proof {
                    assert(v@ =~= v@ + t.entries());
                }
            },
            MapNode::One(k, vv) => {
                v.push((k.dup(), vv.dup()));
                proof {
                    assert(v@ =~= old(v)@ + t.entries());
                }
            },
            MapNode::Node(_, l, k, vv, r) => {
                Self::to_vec(&(**l), v);
                v.push((k.dup(), vv.dup()));
                Self::to_vec(&(**r), v);
                proof {
                    assert(v@ =~= old(v)@ + t.entries());
                }
            },
        }
    }
}

/// Reassociating a single rotation at the level of maps: the separating
/// key of the outer join moves inside.
proof fn lemma_map_join<K, V>(a: Map<K, V>, kx: K, vx: V, b: Map<K, V>, k2: K, v2: V, c: Map<
    K,
    V,
>)
    requires
        !c.dom().contains(kx),
        kx != k2,
    ensures
        a.union_prefer_right(b).insert(kx, vx).union_prefer_right(c).insert(k2, v2)
            == a.union_prefer_right(b.union_prefer_right(c).insert(k2, v2)).insert(kx, vx),
{
    assert(a.union_prefer_right(b).insert(kx, vx).union_prefer_right(c).insert(k2, v2)
        =~= a.union_prefer_right(b.union_prefer_right(c).insert(k2, v2)).insert(kx, vx));
}

/// Reassociating a double rotation where the taller side is on the
/// right: the middle tree splits in two.
proof fn lemma_map_join_double<K, V>(
    a: Map<K, V>,
    k: K,
    v: V,
    b: Map<K, V>,
    kx: K,
    vx: V,
    c: Map<K, V>,
    ky: K,
    vy: V,
    d: Map<K, V>,
)
    requires
        !c.dom().contains(k),
        !d.dom().contains(k),
        k != kx,
        k != ky,
        !d.dom().contains(kx),
        kx != ky,
    ensures
        a.union_prefer_right(b).insert(k, v).union_prefer_right(
            c.union_prefer_right(d).insert(ky, vy),
        ).insert(kx, vx) == a.union_prefer_right(
            b.union_prefer_right(c).insert(kx, vx).union_prefer_right(d).insert(ky, vy),
        ).insert(k, v),
{
    assert(a.union_prefer_right(b).insert(k, v).union_prefer_right(
        c.union_prefer_right(d).insert(ky, vy),
    ).insert(kx, vx) =~= a.union_prefer_right(
        b.union_prefer_right(c).insert(kx, vx).union_prefer_right(d).insert(ky, vy),
    ).insert(k, v));
}

/// Reassociating a double rotation where the taller side is on the
/// left: the middle tree splits in two.
proof fn lemma_map_split_double<K, V>(
    a: Map<K, V>,
    kx: K,
    vx: V,
    b: Map<K, V>,
    ky: K,
    vy: V,
    c: Map<K, V>,
    k: K,
    v: V,
    d: Map<K, V>,
)
    requires
        kx != ky,
        kx != k,
        ky != k,
        !c.dom().contains(kx),
        !d.dom().contains(kx),
        !d.dom().contains(ky),
    ensures
        a.union_prefer_right(b).insert(kx, vx).union_prefer_right(
            c.union_prefer_right(d).insert(k, v),
        ).insert(ky, vy) == a.union_prefer_right(b.union_prefer_right(c).insert(ky, vy)).insert(
            kx,
            vx,
        ).union_prefer_right(d).insert(k, v),
{
    assert(a.union_prefer_right(b).insert(kx, vx).union_prefer_right(
        c.union_prefer_right(d).insert(k, v),
    ).insert(ky, vy) =~= a.union_prefer_right(b.union_prefer_right(c).insert(ky, vy)).insert(
        kx,
        vx,
    ).union_prefer_right(d).insert(k, v));
}


/// A persistent ordered map.  Lookups, inserts and removals are
/// logarithmic in a balanced tree; the entry count is cached, so `len`
/// is constant-time.
pub struct OrderedMap<K: TotallyOrdered, V> {
    size: usize,
    n: Arc<MapNode<K, V>>,
}

impl<K: TotallyOrdered, V> OrderedMap<K, V> {
    #[verifier::type_invariant]
    spec fn inv(self) -> bool {
        self.n.wf() && self.size == self.n.entries().len()
    }

    /// The map's entries as a mathematical map.
    pub closed spec fn as_map(self) -> Map<K, V> {
        self.n.as_map()
    }

    /// The map's entries in strictly increasing key order.
    pub closed spec fn as_entries(self) -> Seq<(K, V)> {
        self.n.entries()
    }

    /// The height of the underlying tree.
    pub closed spec fn spec_height(self) -> nat {
        self.n.sheight()
    }

    /// Creates a new empty map.
    pub fn empty() -> (r: Self)
        ensures
            r@ == Map::<K, V>::empty(),
            r.as_entries() == Seq::<(K, V)>::empty(),
    {
        OrderedMap { size: 0, n: Arc::new(MapNode::Empty) }
    }

    /// Returns true if the map has no entries.
    pub fn is_empty(&self) -> (r: bool)
        ensures
            r == (self@.dom().len() == 0),
    {
        proof {
            use_type_invariant(self);
            self.n.lemma_wf_props();
        }
        self.size == 0
    }

    /// Returns the number of entries; the count is cached.
    pub fn len(&self) -> (r: usize)
        ensures
            r == self@.dom().len(),
    {
        proof {
            use_type_invariant(self);
            self.n.lemma_wf_props();
        }
        self.size
    }

    /// Returns the height of the tree, as cached at the root.  The
    /// balance invariant keeps it logarithmic in the entry count.
    pub fn height(&self) -> (r: usize)
        ensures
            r == self.spec_height(),
            r <= self@.dom().len(),
            pow2(((r + 1) / 2) as nat) <= self@.dom().len() + 2,
    {
        proof {
            use_type_invariant(self);
            self.n.lemma_wf_props();
            self.n.lemma_height_le_size();
            self.n.lemma_height_log_size();
        }
        MapNode::node_height(&self.n)
    }
}

impl<K: TotallyOrdered, V> View for OrderedMap<K, V> {
    type V = Map<K, V>;

    open spec fn view(&self) -> Map<K, V> {
        self.as_map()
    }
}

impl<K: TotallyOrdered, V: EquatableAndCloneable> OrderedMap<K, V> {
    /// Returns a new map with the pair added; an existing value under
    /// the same key is overwritten.  The trees share every subtree not
    /// on the path to the key.
    pub fn insert(&self, k: K, v: V) -> (r: Self)
        requires
            self@.dom().len() < usize::MAX,
        ensures
            r@ == self@.insert(k, v),
            r@.dom().len() == self@.dom().len() + (if self@.dom().contains(k) {
                0int
            } else {
                1
            }),
    {
        proof {
            use_type_invariant(self);
            self.n.lemma_wf_props();
        }
        let present = MapNode::find(&self.n, &k).is_some();
        let n = MapNode::insert(&self.n, k, v);
        let size = if present {
            self.size
        } else {
            self.size + 1
        };
        proof {
            n.lemma_wf_props();
            assert(n.as_map().dom() == self@.dom().insert(k));
            assert(self@.dom().insert(k).len() == self@.dom().len() + (if self@.dom().contains(
                k,
            ) {
                0int
            } else {
                1
            }));
        }
        let r = OrderedMap { size, n };
        r
    }

    /// Returns a new map without the key; when the key is absent the
    /// result is the same map.
    pub fn remove(&self, k: K) -> (r: Self)
        ensures
            r@ == self@.remove(k),
            r@.dom().len() == self@.dom().len() - (if self@.dom().contains(k) {
                1int
            } else {
                0
            }),
    {
        proof {
            use_type_invariant(self);
            self.n.lemma_wf_props();
        }
        let present = MapNode::find(&self.n, &k).is_some();
        let n = MapNode::remove(&self.n, &k);
        let size = if present {
            self.size - 1
        } else {
            self.size
        };
        proof {
            n.lemma_wf_props();
            assert(n.as_map().dom() == self@.dom().remove(k));
            assert(self@.dom().len() == self@.dom().remove(k).len() + (if self@.dom().contains(
                k,
            ) {
                1int
            } else {
                0
            }));
        }
        let r = OrderedMap { size, n };
        r
    }

    /// Returns true if the key is present.
    pub fn exist(&self, k: K) -> (r: bool)
        ensures
            r == self@.dom().contains(k),
    {
        proof {
            use_type_invariant(self);
        }
        MapNode::find(&self.n, &k).is_some()
    }

    /// Returns a reference to the value under the key, or `None`.
    pub fn find(&self, k: K) -> (r: Option<&V>)
        ensures
            match r {
                Some(v) => self@.dom().contains(k) && *v == self@[k],
                None => !self@.dom().contains(k),
            },
    {
        proof {
            use_type_invariant(self);
        }
        MapNode::find(&self.n, &k)
    }

    /// Copies the entries into a vector, in strictly increasing key
    /// order.
    pub fn to_vec(&self) -> (r: Vec<(K, V)>)
        ensures
            r@ == self.as_entries(),
            r@.len() == self@.dom().len(),
            forall|i: int|
                #![trigger r@[i]]
                0 <= i < r@.len() ==> self@.dom().contains(r@[i].0) && self@[r@[i].0] == r@[i].1,
            forall|e: K| #[trigger]
                self@.dom().contains(e) ==> exists|i: int| 0 <= i < r@.len() && r@[i].0 == e,
            forall|i: int, j: int| 0 <= i < j < r@.len() ==> r@[i].0.lt_spec(r@[j].0),
    {
        proof {
            use_type_invariant(self);
            self.n.lemma_wf_props();
        }
        let mut v: Vec<(K, V)> = Vec::new();
        MapNode::to_vec(&(*self.n), &mut v);
        proof {
            assert(v@ =~= self.as_entries());
        }
        v
    }

    /// Returns an iterator that yields the entries in increasing key
    /// order.
    pub fn iter(&self) -> (r: MapIter<K, V>)
        ensures
            r.remaining() == self.as_entries(),
    {
        proof {
            use_type_invariant(self);
        }
        let mut stack: Vec<Arc<MapNode<K, V>>> = Vec::new();
        proof {
            assert(stack_entries(stack@) =~= Seq::<(K, V)>::empty());
        }
        let ghost s0 = stack@;
        if !MapNode::node_is_empty(&self.n) {
            stack.push(self.n.clone());
            proof {
                lemma_stack_push(s0, self.n.clone());
            }
        }
        let r = MapIter { stack };
        proof {
            assert(r.remaining() =~= self.as_entries());
        }
        r
    }
}

impl<K: TotallyOrdered, V: EquatableAndCloneable> MapNode<K, V> {
    /// Tests for the empty subtree.
    fn node_is_empty(t: &Arc<MapNode<K, V>>) -> (r: bool)
        ensures
            r == ((**t) is Empty),
    {
        match &(**t) {
            MapNode::Empty => true,
            _ => false,
        }
    }
}

/// The number of steps an in-order walk can still take below this node.
spec fn node_weight<K, V>(n: &MapNode<K, V>) -> nat
    decreases n,
{
    match *n {
        MapNode::Empty => 1,
        MapNode::One(_, _) => 1,
        MapNode::Node(_, l, _, _, r) => 2 + node_weight(&l) + node_weight(&r),
    }
}

/// The pending entries of a walk stack, topmost node first.
spec fn stack_entries<K, V>(s: Seq<Arc<MapNode<K, V>>>) -> Seq<(K, V)>
    decreases s.len(),
{
    if s.len() == 0 {
        Seq::empty()
    } else {
        s.last().entries() + stack_entries(s.drop_last())
    }
}

/// The total weight of a walk stack, for termination of the walk.
spec fn stack_weight<K, V>(s: Seq<Arc<MapNode<K, V>>>) -> nat
    decreases s.len(),
{
    if s.len() == 0 {
        0
    } else {
        node_weight(&s.last()) + stack_weight(s.drop_last())
    }
}

/// Pushing a node onto a walk stack prepends its entries and adds its
/// weight.
proof fn lemma_stack_push<K, V>(s: Seq<Arc<MapNode<K, V>>>, x: Arc<MapNode<K, V>>)
    ensures
        stack_entries(s.push(x)) == (*x).entries() + stack_entries(s),
        stack_weight(s.push(x)) == node_weight(&(*x)) + stack_weight(s),
{
    assert(s.push(x).drop_last() =~= s);
    assert(s.push(x).last() == x);
}

/// An iterator over an `OrderedMap`, yielding entries in increasing
/// key order.  It walks the tree with an explicit stack of pending
/// subtrees and holds shared handles to them.
pub struct MapIter<K: TotallyOrdered, V> {
    stack: Vec<Arc<MapNode<K, V>>>,
}

impl<K: TotallyOrdered, V> MapIter<K, V> {
    /// The entries not yet yielded.
    pub closed spec fn remaining(self) -> Seq<(K, V)> {
        stack_entries(self.stack@)
    }
}

impl<K: TotallyOrdered, V: EquatableAndCloneable> MapIter<K, V> {
    /// Yields the next entry, or `None` when the iterator is exhausted.
    pub fn next(&mut self) -> (r: Option<(K, V)>)
        ensures
            old(self).remaining().len() == 0 ==> r is None && final(self).remaining()
                == old(self).remaining(),
            old(self).remaining().len() > 0 ==> r == Some(old(self).remaining()[0])
                && final(self).remaining() == old(self).remaining().drop_first(),
    {
        let ghost orig = self.remaining();
        loop
            invariant
                orig == old(self).remaining(),
                self.remaining() == orig,
            decreases stack_weight(self.stack@),
        {
            let ghost prev_stack = self.stack@;
            match self.stack.pop() {
                None => {
                    proof {
                        assert(orig.len() == 0);
                    }
                    return None;
                },
                Some(node) => {
                    proof {
                        assert(prev_stack.drop_last() == self.stack@);
                        assert(orig == node.entries() + stack_entries(self.stack@));
                    }
                    match &(*node) {
                        MapNode::Empty => {
                            proof {
                                assert(self.remaining() =~= orig);
                                assert(stack_weight(prev_stack) == node_weight(&(*node))
                                    + stack_weight(self.stack@));
                            }
                        },
                        MapNode::One(k, v) => {
                            proof {
                                assert(node.entries() =~= seq![(*k, *v)]);
                                assert(orig[0] == (*k, *v));
                                assert(self.remaining() =~= orig.drop_first());
                            }
                            return Some((k.dup(), v.dup()));
                        },
                        MapNode::Node(_, l, k, v, r) => {
                            let ghost s0 = self.stack@;
                            if !MapNode::node_is_empty(r) {
                                self.stack.push(r.clone());
                                proof {
                                    lemma_stack_push(s0, r.clone());
                                }
                            }
                            proof {
                                assert(stack_entries(self.stack@) =~= r.entries()
                                    + stack_entries(s0));
                                assert(stack_weight(self.stack@) <= node_weight(&(**r))
                                    + stack_weight(s0));
                            }
                            let ghost s1 = self.stack@;
                            let one = Arc::new(MapNode::One(k.dup(), v.dup()));
                            proof {
                                lemma_stack_push(s1, one.clone());
                            }
                            self.stack.push(one);
                            proof {
                                assert(stack_entries(self.stack@) =~= seq![(*k, *v)]
                                    + stack_entries(s1));
                                assert(stack_weight(self.stack@) == 1 + stack_weight(s1));
                            }
                            let ghost s2 = self.stack@;
                            if !MapNode::node_is_empty(l) {
                                self.stack.push(l.clone());
                                proof {
                                    lemma_stack_push(s2, l.clone());
                                }
                            }
                            proof {
                                assert(stack_entries(self.stack@) =~= l.entries()
                                    + stack_entries(s2));
                                assert(stack_weight(self.stack@) <= node_weight(&(**l))
                                    + stack_weight(s2));
                                assert(self.remaining() =~= orig);
                                assert(stack_weight(prev_stack) == node_weight(&(*node))
                                    + stack_weight(s0));
                                assert(stack_weight(self.stack@) < stack_weight(prev_stack));
                            }
                        },
                    }
                },
            }
        }
    }
}
} // verus!
