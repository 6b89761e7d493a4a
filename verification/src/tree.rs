//! A persistent rose tree navigated through a path zipper.  A path is
//! the spine of nodes from the root down to a focused node, together
//! with the child slot taken at each step.  Every mutation rebuilds
//! exactly that spine and shares all other subtrees with the previous
//! version of the tree.
use std::sync::Arc;

use crate::capabilities::EquatableAndCloneable;
use vstd::pervasive::VecAdditionalExecFns;
use vstd::prelude::*;

verus! {

/// An accumulator threaded through the accumulating tree walks, with
/// hooks called on descent and ascent.
pub trait TreeAcc<D> {
    /// Called when the walk descends into a node.
    fn push(&mut self, data: &D);

    /// Called when the walk leaves a node.
    fn pop(&mut self);
}

impl<T: EquatableAndCloneable> TreeAcc<T> for Vec<T> {
    fn push(&mut self, data: &T) {
        self.push(data.dup());
    }

    fn pop(&mut self) {
        self.pop();
    }
}

pub(crate) struct Node<D> {
    pub(crate) data: D,
    pub(crate) children: Vec<Arc<Node<D>>>,
}

/// A path is valid when each node after the first is the child its
/// slot selects in the node before it.
pub(crate) open spec fn spine_wf<D>(ns: Seq<Arc<Node<D>>>, sl: Seq<usize>) -> bool {
    &&& ns.len() >= 1
    &&& sl.len() + 1 == ns.len()
    &&& forall|m: int|
        0 <= m < sl.len() ==> (#[trigger] sl[m]) < ns[m].children@.len()
            && ns[m + 1] == ns[m].children@[sl[m] as int]
}

/// A path from the root of a persistent rose tree down to a focused
/// node.  Mutations return a new path into a new tree; the previous
/// tree is unchanged and shares every subtree off the spine.
pub struct Path<D> {
    nodes: Vec<Arc<Node<D>>>,
    slots: Vec<usize>,
}

/// The number of nodes in a subtree; the measure the public walks
/// decrease.
pub(crate) open spec fn node_weight<D>(n: Node<D>) -> nat
    decreases n,
{
    1 + row_weight(n.children@)
}

/// The number of nodes in a row of subtrees.
pub(crate) open spec fn row_weight<D>(s: Seq<Arc<Node<D>>>) -> nat
    decreases s,
{
    if s.len() == 0 {
        0
    } else {
        row_weight(s.drop_last()) + node_weight(*s.last())
    }
}

/// A row weighs at least as much as any one of its subtrees.
pub(crate) proof fn lemma_row_weight_at_least<D>(s: Seq<Arc<Node<D>>>, i: int)
    requires
        0 <= i < s.len(),
    ensures
        row_weight(s) >= node_weight(*s[i]),
    decreases s.len(),
{
    if i == s.len() - 1 {
    } else {
        lemma_row_weight_at_least(s.drop_last(), i);
        assert(s.drop_last()[i] == s[i]);
    }
}

impl<D> Path<D> {
    #[verifier::type_invariant]
    spec fn inv(self) -> bool {
        spine_wf(self.nodes@, self.slots@)
    }

    /// The number of nodes on the path, root included.
    pub closed spec fn depth(self) -> nat {
        self.nodes@.len()
    }

    /// The data stored at the path's node `i` (0 is the root).
    pub closed spec fn data_at(self, i: int) -> D {
        self.nodes@[i].data
    }

    /// The child slot the path takes at node `i`.
    pub closed spec fn slot_at(self, i: int) -> int {
        self.slots@[i] as int
    }

    /// The number of children of the path's node `i`.
    pub closed spec fn child_count_at(self, i: int) -> nat {
        self.nodes@[i].children@.len()
    }

    /// The data of child `j` of the path's node `i`.
    pub closed spec fn child_data_at(self, i: int, j: int) -> D {
        self.nodes@[i].children@[j].data
    }

    /// True when node `i` of this path is, as a whole subtree, equal
    /// to node `oi` of the other path.
    pub closed spec fn node_eq_at(self, i: int, other: Path<D>, oi: int) -> bool {
        self.nodes@[i] == other.nodes@[oi]
    }

    /// True when child `j` of node `i` of this path is, as a whole
    /// subtree, equal to child `oj` of node `oi` of the other path.
    pub closed spec fn child_pair_eq(self, i: int, j: int, other: Path<D>, oi: int, oj: int) -> bool {
        self.nodes@[i].children@[j] == other.nodes@[oi].children@[oj]
    }

    /// The data at the focused node.
    pub open spec fn focus_data(self) -> D {
        self.data_at(self.depth() - 1)
    }

    /// The number of nodes in the focused subtree.
    pub closed spec fn focus_weight(self) -> nat {
        node_weight(*self.nodes@.last())
    }

    /// True when the path is a valid spine: each node after the first
    /// is the child its slot selects in the node before it.  Every
    /// path this module hands out is linked.
    pub closed spec fn linked(self) -> bool {
        spine_wf(self.nodes@, self.slots@)
    }

    /// What a linked path gives in terms of the public vocabulary:
    /// every slot is in range, and the node after it is the selected
    /// child.
    pub proof fn lemma_linked(&self)
        requires
            self.linked(),
        ensures
            self.depth() >= 1,
            forall|i: int|
                0 <= i < self.depth() - 1 ==> 0 <= #[trigger] self.slot_at(i)
                    < self.child_count_at(i) && self.data_at(i + 1) == self.child_data_at(
                    i,
                    self.slot_at(i),
                ),
    {
        assert forall|i: int| 0 <= i < self.depth() - 1 implies 0 <= #[trigger] self.slot_at(i)
            < self.child_count_at(i) && self.data_at(i + 1) == self.child_data_at(
            i,
            self.slot_at(i),
        ) by {
            assert(self.slots@[i] < self.nodes@[i].children@.len() && self.nodes@[i + 1]
                == self.nodes@[i].children@[self.slots@[i] as int]);
        }
    }

    /// What node equality gives in terms of the public vocabulary.
    pub proof fn lemma_node_eq_props(&self, i: int, other: &Path<D>, oi: int)
        requires
            0 <= i < self.depth(),
            0 <= oi < other.depth(),
            self.node_eq_at(i, *other, oi),
        ensures
            self.data_at(i) == other.data_at(oi),
            self.child_count_at(i) == other.child_count_at(oi),
            forall|j: int|
                0 <= j < self.child_count_at(i) ==> self.child_data_at(i, j)
                    == other.child_data_at(oi, j) && #[trigger] self.child_pair_eq(
                    i,
                    j,
                    *other,
                    oi,
                    j,
                ),
    {
    }
}

impl<D: EquatableAndCloneable> Path<D> {
    /// Copies a spine vector, sharing every node.
    fn copy_arcs(v: &Vec<Arc<Node<D>>>) -> (r: Vec<Arc<Node<D>>>)
        ensures
            r@ == v@,
    {
        let mut r: Vec<Arc<Node<D>>> = Vec::new();
        let mut i: usize = 0;
        while i < v.len()
            invariant
                i <= v@.len(),
                r@.len() == i,
                forall|j: int| 0 <= j < i ==> r@[j] == v@[j],
            decreases v@.len() - i,
        {
            r.push(v[i].clone());
            i = i + 1;
        }
        proof {
            assert(r@ =~= v@);
        }
        r
    }

    /// Copies a prefix of a slot vector.
    fn copy_slots(v: &Vec<usize>, upto: usize) -> (r: Vec<usize>)
        requires
            upto <= v@.len(),
        ensures
            r@ == v@.subrange(0, upto as int),
    {
        let mut r: Vec<usize> = Vec::new();
        let mut i: usize = 0;
        while i < upto
            invariant
                i <= upto <= v@.len(),
                r@.len() == i,
                forall|j: int| 0 <= j < i ==> r@[j] == v@[j],
            decreases upto - i,
        {
            r.push(v[i]);
            i = i + 1;
        }
        proof {
            assert(r@ =~= v@.subrange(0, upto as int));
        }
        r
    }

    /// Rebuilds the spine above level `i`, replacing the node at level
    /// `i` by `n`; every subtree off the spine is shared.
    fn rebuild(nodes: &Vec<Arc<Node<D>>>, slots: &Vec<usize>, i: usize, n: Arc<Node<D>>) -> (out:
        Vec<Arc<Node<D>>>)
        requires
            spine_wf(nodes@, slots@),
            i < nodes@.len(),
        ensures
            out@.len() == i + 1,
            out@[i as int] == n,
            forall|m: int|
                0 <= m < i ==> (#[trigger] out@[m]).data == nodes@[m].data
                    && out@[m].children@.len() == nodes@[m].children@.len()
                    && out@[m].children@[slots@[m] as int] == out@[m + 1],
            forall|m: int, j: int|
                0 <= m < i && 0 <= j < nodes@[m].children@.len() && j != slots@[m] as int
                    ==> (#[trigger] out@[m].children@[j]) == nodes@[m].children@[j],
        decreases i,
    {
        if i == 0 {
            let mut out: Vec<Arc<Node<D>>> = Vec::new();
            out.push(n);
            out
        } else {
            let parent = &nodes[i - 1];
            let mut kids = Self::copy_arcs(&parent.children);
            kids.set(slots[i - 1], n.clone());
            let p = Arc::new(Node { data: parent.data.dup(), children: kids });
            let mut out = Self::rebuild(nodes, slots, i - 1, p);
            out.push(n);
            out
        }
    }

    /// Creates a new tree holding a single root node, and the path
    /// focused on it.
    pub fn new(root_data: D) -> (r: Self)
        ensures
            r.depth() == 1,
            r.data_at(0) == root_data,
            r.child_count_at(0) == 0,
            r.linked(),
    {
        let mut nodes: Vec<Arc<Node<D>>> = Vec::new();
        nodes.push(Arc::new(Node { data: root_data, children: Vec::new() }));
        let r = Path { nodes, slots: Vec::new() };
        proof {
            use_type_invariant(&r);
        }
        r
    }

    /// The number of nodes on the path.
    pub fn len(&self) -> (r: usize)
        ensures
            r == self.depth(),
    {
        proof {
            use_type_invariant(self);
        }
        self.nodes.len()
    }

    /// A reference to the focused node's data.
    pub fn data(&self) -> (r: &D)
        ensures
            *r == self.focus_data(),
    {
        proof {
            use_type_invariant(self);
        }
        &self.nodes[self.nodes.len() - 1].data
    }

    /// The path holding only the root of the same tree.
    pub fn root(&self) -> (r: Self)
        ensures
            r.depth() == 1,
            r.node_eq_at(0, *self, 0),
            r.data_at(0) == self.data_at(0),
            r.child_count_at(0) == self.child_count_at(0),
            r.linked(),
    {
        proof {
            use_type_invariant(self);
        }
        let mut nodes: Vec<Arc<Node<D>>> = Vec::new();
        nodes.push(self.nodes[0].clone());
        let r = Path { nodes, slots: Vec::new() };
        proof {
            use_type_invariant(&r);
        }
        r
    }

    /// The path to the focused node's parent, in the same tree.
    pub fn parent(&self) -> (r: Self)
        requires
            self.depth() >= 2,
        ensures
            r.depth() == self.depth() - 1,
            forall|i: int| 0 <= i < r.depth() ==> r.node_eq_at(i, *self, i),
            forall|i: int| 0 <= i < r.depth() ==> r.data_at(i) == self.data_at(i)
                && r.child_count_at(i) == self.child_count_at(i),
            forall|i: int| 0 <= i < r.depth() - 1 ==> r.slot_at(i) == self.slot_at(i),
            r.linked(),
    {
        proof {
            use_type_invariant(self);
        }
        let mut nodes = Self::copy_arcs(&self.nodes);
        nodes.pop();
        let slots = Self::copy_slots(&self.slots, self.slots.len() - 1);
        let r = Path { nodes, slots };
        proof {
            assert(r.nodes@ =~= self.nodes@.drop_last());
            use_type_invariant(&r);
        }
        r
    }

    /// The paths to each child of the focused node, in slot order, all
    /// in the same tree.
    pub fn children(&self) -> (r: Vec<Self>)
        ensures
            r@.len() == self.child_count_at(self.depth() - 1),
            forall|j: int|
                0 <= j < r@.len() ==> (#[trigger] r@[j]).depth() == self.depth() + 1
                    && (forall|i: int| 0 <= i < self.depth() ==> r@[j].node_eq_at(i, *self, i))
                    && r@[j].slot_at(self.depth() - 1) == j && r@[j].focus_data()
                    == self.child_data_at(self.depth() - 1, j) && r@[j].linked(),
    {
        proof {
            use_type_invariant(self);
        }
        let mut r: Vec<Path<D>> = Vec::new();
        let focus = &self.nodes[self.nodes.len() - 1];
        let mut j: usize = 0;
        while j < focus.children.len()
            invariant
                spine_wf(self.nodes@, self.slots@),
                focus == self.nodes@.last(),
                j <= focus.children@.len(),
                r@.len() == j,
                forall|q: int|
                    0 <= q < j ==> (#[trigger] r@[q]).depth() == self.depth() + 1 && (forall|
                        i: int,
                    |
                        0 <= i < self.depth() ==> r@[q].node_eq_at(i, *self, i)) && r@[q].slot_at(
                        self.depth() - 1,
                    ) == q && r@[q].focus_data() == self.child_data_at(self.depth() - 1, q)
                        && r@[q].linked(),
            decreases focus.children@.len() - j,
        {
            let mut nodes = Self::copy_arcs(&self.nodes);
            nodes.push(focus.children[j].clone());
            let mut slots = Self::copy_slots(&self.slots, self.slots.len());
            slots.push(j);
            let p = Path { nodes, slots };
            proof {
                assert(p.slots@ =~= self.slots@.push(j));
                use_type_invariant(&p);
                assert forall|i: int| 0 <= i < self.depth() implies p.node_eq_at(
                    i,
                    *self,
                    i,
                ) by {}
            }
            r.push(p);
            j = j + 1;
        }
        r
    }

    /// Returns a new tree in which the focused node has one more
    /// child, holding the given data; the path returned focuses on the
    /// new child.  Every subtree off the spine is shared.
    pub fn add_node(&self, data: D) -> (r: Self)
        ensures
            r.depth() == self.depth() + 1,
            forall|i: int| 0 <= i < self.depth() ==> r.data_at(i) == self.data_at(i),
            r.focus_data() == data,
            r.child_count_at(self.depth() as int) == 0,
            forall|i: int| 0 <= i < self.depth() - 1 ==> r.slot_at(i) == self.slot_at(i),
            r.slot_at(self.depth() - 1) == self.child_count_at(self.depth() - 1),
            forall|i: int| 0 <= i < self.depth() - 1 ==> r.child_count_at(i)
                == self.child_count_at(i),
            r.child_count_at(self.depth() - 1) == self.child_count_at(self.depth() - 1) + 1,
            forall|i: int, j: int|
                0 <= i < self.depth() - 1 && 0 <= j < self.child_count_at(i) && j != self.slot_at(
                    i,
                ) ==> #[trigger] r.child_pair_eq(i, j, *self, i, j),
            forall|j: int|
                0 <= j < self.child_count_at(self.depth() - 1) ==> #[trigger] r.child_pair_eq(
                    self.depth() - 1,
                    j,
                    *self,
                    self.depth() - 1,
                    j,
                ),
            r.linked(),
    {
        proof {
            use_type_invariant(self);
        }
        let leaf = Arc::new(Node { data, children: Vec::new() });
        let last = self.nodes.len() - 1;
        let focus = &self.nodes[last];
        let mut kids = Self::copy_arcs(&focus.children);
        kids.push(leaf.clone());
        let new_focus = Arc::new(Node { data: focus.data.dup(), children: kids });
        let mut nodes = Self::rebuild(&self.nodes, &self.slots, last, new_focus);
        nodes.push(leaf);
        let mut slots = Self::copy_slots(&self.slots, self.slots.len());
        slots.push(focus.children.len());
        let r = Path { nodes, slots };
        proof {
            assert(r.slots@ =~= self.slots@.push((focus.children@.len() as usize)));
            use_type_invariant(&r);
        }
        r
    }

    /// Returns a new tree in which the focused node, with its whole
    /// subtree, has been removed from its parent; the path returned
    /// focuses on the former parent.  The root cannot be removed.
    pub fn remove_node(&self) -> (r: Self)
        requires
            self.depth() >= 2,
        ensures
            r.depth() == self.depth() - 1,
            forall|i: int| 0 <= i < r.depth() ==> r.data_at(i) == self.data_at(i),
            forall|i: int| 0 <= i < r.depth() - 1 ==> r.slot_at(i) == self.slot_at(i),
            forall|i: int| 0 <= i < r.depth() - 1 ==> r.child_count_at(i)
                == self.child_count_at(i),
            r.child_count_at(r.depth() - 1) == self.child_count_at(self.depth() - 2) - 1,
            forall|j: int|
                0 <= j < self.slot_at(self.depth() - 2) ==> #[trigger] r.child_pair_eq(
                    r.depth() - 1,
                    j,
                    *self,
                    self.depth() - 2,
                    j,
                ),
            forall|j: int|
                self.slot_at(self.depth() - 2) <= j < r.child_count_at(r.depth() - 1)
                    ==> #[trigger] r.child_pair_eq(r.depth() - 1, j, *self, self.depth() - 2, j + 1),
            r.linked(),
    {
        proof {
            use_type_invariant(self);
        }
        let parent_level = self.nodes.len() - 2;
        let parent = &self.nodes[parent_level];
        let mut kids = Self::copy_arcs(&parent.children);
        kids.remove(self.slots[parent_level]);
        let new_parent = Arc::new(Node { data: parent.data.dup(), children: kids });
        let nodes = Self::rebuild(&self.nodes, &self.slots, parent_level, new_parent);
        let slots = Self::copy_slots(&self.slots, parent_level);
        let r = Path { nodes, slots };
        proof {
            use_type_invariant(&r);
        }
        r
    }

    /// Rebuilds the spine so that the focused node becomes `n`; shared
    /// with the old tree everywhere off the spine.
    fn replace_focus(&self, n: Arc<Node<D>>) -> (r: Self)
        requires
            spine_wf(self.nodes@, self.slots@),
        ensures
            r.depth() == self.depth(),
            forall|i: int| 0 <= i < self.depth() - 1 ==> r.data_at(i) == self.data_at(i),
            forall|i: int| 0 <= i < self.depth() - 1 ==> r.slot_at(i) == self.slot_at(i),
            forall|i: int| 0 <= i < self.depth() - 1 ==> r.child_count_at(i)
                == self.child_count_at(i),
            forall|i: int, j: int|
                0 <= i < self.depth() - 1 && 0 <= j < self.child_count_at(i) && j != self.slot_at(
                    i,
                ) ==> #[trigger] r.child_pair_eq(i, j, *self, i, j),
            r.nodes@.last() == n,
            r.slots@ == self.slots@,
            r.linked(),
    {
        let last = self.nodes.len() - 1;
        let nodes = Self::rebuild(&self.nodes, &self.slots, last, n);
        let slots = Self::copy_slots(&self.slots, self.slots.len());
        let r = Path { nodes, slots };
        proof {
            assert(r.slots@ =~= self.slots@);
            use_type_invariant(&r);
        }
        r
    }

    /// Returns a new tree with the focused node's data replaced; its
    /// children and everything off the spine are shared.
    pub fn set_data(&self, data: D) -> (r: Self)
        ensures
            r.depth() == self.depth(),
            r.focus_data() == data,
            forall|i: int| 0 <= i < self.depth() - 1 ==> r.data_at(i) == self.data_at(i),
            forall|i: int| 0 <= i < self.depth() - 1 ==> r.slot_at(i) == self.slot_at(i),
            r.child_count_at(self.depth() - 1) == self.child_count_at(self.depth() - 1),
            forall|j: int|
                0 <= j < self.child_count_at(self.depth() - 1) ==> #[trigger] r.child_pair_eq(
                    self.depth() - 1,
                    j,
                    *self,
                    self.depth() - 1,
                    j,
                ),
            r.linked(),
    {
        proof {
            use_type_invariant(self);
        }
        let focus = &self.nodes[self.nodes.len() - 1];
        let kids = Self::copy_arcs(&focus.children);
        let n = Arc::new(Node { data, children: kids });
        self.replace_focus(n)
    }

    /// Returns a new tree with the focused node's children removed;
    /// returns an equal path when there are none.
    pub fn remove_all_children(&self) -> (r: Self)
        ensures
            r.depth() == self.depth(),
            r.focus_data() == self.focus_data(),
            r.child_count_at(self.depth() - 1) == 0,
            forall|i: int| 0 <= i < self.depth() - 1 ==> r.data_at(i) == self.data_at(i),
            forall|i: int| 0 <= i < self.depth() - 1 ==> r.slot_at(i) == self.slot_at(i),
            r.linked(),
    {
        proof {
            use_type_invariant(self);
        }
        let focus = &self.nodes[self.nodes.len() - 1];
        if focus.children.len() > 0 {
            let n = Arc::new(Node { data: focus.data.dup(), children: Vec::new() });
            self.replace_focus(n)
        } else {
            let r = self.duplicate();
            proof {
                assert(r.nodes@ == self.nodes@);
            }
            r
        }
    }
}


/// Relates a subtree to its image under one rewriting pass of `f`:
/// the data is replaced where `f` returned a replacement and kept
/// where it returned none, and the children are related pointwise.
pub(crate) open spec fn transforms<D, F: Fn(&D) -> Option<D>>(a: Node<D>, b: Node<D>, f: F) -> bool
    decreases a,
{
    &&& exists|ret: Option<D>|
        #[trigger] call_ensures(f, (&a.data,), ret) && b.data == (match ret {
            Some(d) => d,
            None => a.data,
        })
    &&& b.children@.len() == a.children@.len()
    &&& forall|i: int|
        0 <= i < a.children@.len() ==> transforms(
            *(#[trigger] a.children@[i]),
            *b.children@[i],
            f,
        )
}

/// Relates a subtree to its image under one accumulating rewriting
/// pass of `f`: at every node the data is replaced where `f`, given
/// some accumulator state, returned a replacement, and kept where it
/// returned none; the children are related pointwise.
pub(crate) open spec fn acc_transforms<D, Acc, F: Fn(&Acc, &D) -> Option<D>>(
    a: Node<D>,
    b: Node<D>,
    f: F,
) -> bool
    decreases a,
{
    &&& exists|acc0: Acc, ret: Option<D>|
        #[trigger] call_ensures(f, (&acc0, &a.data), ret) && b.data == (match ret {
            Some(d) => d,
            None => a.data,
        })
    &&& b.children@.len() == a.children@.len()
    &&& forall|i: int|
        0 <= i < a.children@.len() ==> acc_transforms(
            *(#[trigger] a.children@[i]),
            *b.children@[i],
            f,
        )
}

/// Relates a subtree to its restriction by `pred`: the node's data
/// satisfies the predicate and is kept, and the children are, in
/// order, the restrictions of those children that satisfy it.
pub(crate) open spec fn filtered_by<D, F: Fn(&D) -> bool>(a: Node<D>, b: Node<D>, pred: F) -> bool
    decreases a,
{
    &&& b.data == a.data
    &&& exists|ret: bool| #[trigger] call_ensures(pred, (&a.data,), ret) && ret == true
    &&& row_filtered(a.children@, b.children@, pred)
}

/// The row version of `filtered_by`: `b` keeps, restricted, exactly
/// the members of `a` on which the predicate held.
pub(crate) open spec fn row_filtered<D, F: Fn(&D) -> bool>(
    a: Seq<Arc<Node<D>>>,
    b: Seq<Arc<Node<D>>>,
    pred: F,
) -> bool
    decreases a,
{
    if a.len() == 0 {
        b.len() == 0
    } else {
        exists|ret: bool|
            #[trigger] call_ensures(pred, (&a.last().data,), ret) && (if ret {
                b.len() > 0 && filtered_by(*a.last(), *b.last(), pred) && row_filtered(
                    a.drop_last(),
                    b.drop_last(),
                    pred,
                )
            } else {
                row_filtered(a.drop_last(), b, pred)
            })
    }
}

/// Structural likeness of two subtrees: same data and, pointwise, like
/// children.  This is the equality the tree exposes; two paths are
/// equal when their spines are like and take the same slots.
pub(crate) open spec fn node_like<D>(a: Node<D>, b: Node<D>) -> bool
    decreases a,
{
    &&& a.data == b.data
    &&& a.children@.len() == b.children@.len()
    &&& forall|i: int|
        0 <= i < a.children@.len() ==> node_like(*(#[trigger] a.children@[i]), *b.children@[i])
}

/// Likeness is reflexive.
pub(crate) proof fn lemma_node_like_refl<D>(a: &Node<D>)
    ensures
        node_like(*a, *a),
    decreases *a,
{
    assert forall|i: int| 0 <= i < a.children@.len() implies node_like(
        *(#[trigger] a.children@[i]),
        *a.children@[i],
    ) by {
        lemma_node_like_refl(&a.children@[i]);
    }
}

impl<D> Path<D> {
    /// True when the two paths point at the same position of like
    /// trees; this is what `==` on paths decides.
    pub closed spec fn like(self, other: Path<D>) -> bool {
        &&& self.nodes@.len() == other.nodes@.len()
        &&& self.slots@ == other.slots@
        &&& forall|i: int|
            0 <= i < self.nodes@.len() ==> node_like(
                *(#[trigger] self.nodes@[i]),
                *other.nodes@[i],
            )
    }

    /// True when the focused subtree of `r` is the image of this
    /// path's focused subtree under one rewriting pass of `f`.
    pub closed spec fn focus_transformed<F: Fn(&D) -> Option<D>>(self, r: Path<D>, f: F) -> bool {
        transforms(*self.nodes@.last(), *r.nodes@.last(), f)
    }

    /// True when the focused subtree of `r` is the image of this
    /// path's focused subtree under one accumulating rewriting pass of
    /// `f`.
    pub closed spec fn focus_acc_transformed<Acc, F: Fn(&Acc, &D) -> Option<D>>(
        self,
        r: Path<D>,
        f: F,
    ) -> bool {
        acc_transforms::<D, Acc, F>(*self.nodes@.last(), *r.nodes@.last(), f)
    }

    /// True when the focused subtree of `r` is the restriction of this
    /// path's focused subtree to the nodes satisfying `pred`.
    pub closed spec fn focus_filtered<F: Fn(&D) -> bool>(self, r: Path<D>, pred: F) -> bool {
        filtered_by(*self.nodes@.last(), *r.nodes@.last(), pred)
    }

    /// True when the two paths are built from equal spines.
    pub closed spec fn same_tree(self, other: Path<D>) -> bool {
        self.nodes@ == other.nodes@ && self.slots@ == other.slots@
    }

    /// Equal spines are like.
    pub proof fn lemma_same_tree_like(self, other: Path<D>)
        requires
            self.same_tree(other),
        ensures
            self.like(other),
    {
        assert forall|i: int| 0 <= i < self.nodes@.len() implies node_like(
            *(#[trigger] self.nodes@[i]),
            *other.nodes@[i],
        ) by {
            lemma_node_like_refl(&self.nodes@[i]);
        }
    }
}

impl<D: EquatableAndCloneable> Path<D> {
    /// Decides likeness of two subtrees.
    #[verifier::loop_isolation(false)]
    fn nodes_alike(a: &Arc<Node<D>>, b: &Arc<Node<D>>) -> (r: bool)
        ensures
            r == node_like(**a, **b),
        decreases **a,
    {
        if !a.data.eq_val(&b.data) {
            return false;
        }
        if a.children.len() != b.children.len() {
            return false;
        }
        let mut i: usize = 0;
        while i < a.children.len()
            invariant
                i <= a.children@.len(),
                a.children@.len() == b.children@.len(),
                a.data == b.data,
                forall|j: int|
                    0 <= j < i ==> node_like(*(#[trigger] a.children@[j]), *b.children@[j]),
            decreases a.children@.len() - i,
        {
            if !Self::nodes_alike(&a.children[i], &b.children[i]) {
                return false;
            }
            i = i + 1;
        }
        true
    }

    /// Returns an equal path into the same tree, sharing every node.
    fn duplicate(&self) -> (r: Self)
        requires
            spine_wf(self.nodes@, self.slots@),
        ensures
            r.same_tree(*self),
            r.linked(),
    {
        let nodes = Self::copy_arcs(&self.nodes);
        let slots = Self::copy_slots(&self.slots, self.slots.len());
        let r = Path { nodes, slots };
        proof {
            assert(r.slots@ =~= self.slots@);
            use_type_invariant(&r);
        }
        r
    }

    /// Applies `f` once to the focused node's data; where it returns a
    /// replacement, a new tree with the replaced data comes back, and
    /// otherwise an equal path into the same tree.
    pub fn apply<F: Fn(&D) -> Option<D>>(&self, f: F) -> (r: Self)
        requires
            forall|x: &D| #[trigger] call_requires(f, (x,)),
        ensures
            r.depth() == self.depth(),
            forall|i: int| 0 <= i < self.depth() - 1 ==> r.data_at(i) == self.data_at(i),
            forall|i: int| 0 <= i < self.depth() - 1 ==> r.slot_at(i) == self.slot_at(i),
            r.child_count_at(self.depth() - 1) == self.child_count_at(self.depth() - 1),
            forall|j: int|
                0 <= j < self.child_count_at(self.depth() - 1) ==> #[trigger] r.child_pair_eq(
                    self.depth() - 1,
                    j,
                    *self,
                    self.depth() - 1,
                    j,
                ),
            exists|ret: Option<D>|
                #[trigger] call_ensures(f, (&self.focus_data(),), ret) && (match ret {
                    Some(d) => r.focus_data() == d,
                    None => r.same_tree(*self),
                }),
            r.linked(),
    {
        proof {
            use_type_invariant(self);
        }
        let ret = f(self.data());
        match ret {
            Some(d) => self.set_data(d),
            None => {
                let r = self.duplicate();
                proof {
                    assert(r.nodes@ == self.nodes@);
                }
                r
            },
        }
    }

    /// One rewriting pass over a subtree; shares the subtree untouched
    /// when nothing below it changed.
    #[verifier::loop_isolation(false)]
    fn rec_apply<F: Fn(&D) -> Option<D>>(n: &Arc<Node<D>>, f: &F) -> (r: Option<Arc<Node<D>>>)
        requires
            forall|x: &D| #[trigger] call_requires(*f, (x,)),
        ensures
            match r {
                None => transforms(**n, **n, *f),
                Some(m) => transforms(**n, *m, *f),
            },
            (forall|x: &D, ret: Option<D>|
                call_ensures(*f, (x,), ret) ==> ret is None) ==> r is None,
        decreases **n,
    {
        let mut new_kids: Vec<Arc<Node<D>>> = Vec::new();
        let mut changed = false;
        let mut i: usize = 0;
        while i < n.children.len()
            invariant
                i <= n.children@.len(),
                new_kids@.len() == i,
                forall|j: int|
                    0 <= j < i ==> transforms(
                        *(#[trigger] n.children@[j]),
                        *new_kids@[j],
                        *f,
                    ),
                !changed ==> forall|j: int| 0 <= j < i ==> new_kids@[j] == n.children@[j],
                (forall|x: &D, ret: Option<D>|
                    call_ensures(*f, (x,), ret) ==> ret is None) ==> !changed,
            decreases n.children@.len() - i,
        {
            match Self::rec_apply(&n.children[i], f) {
                Some(m) => {
                    changed = true;
                    new_kids.push(m);
                },
                None => {
                    new_kids.push(n.children[i].clone());
                },
            }
            i = i + 1;
        }
        let ret = f(&n.data);
        match ret {
            Some(d) => {
                let m = Arc::new(Node { data: d, children: new_kids });
                proof {
                    assert forall|j: int| 0 <= j < n.children@.len() implies transforms(
                        *(#[trigger] n.children@[j]),
                        *m.children@[j],
                        *f,
                    ) by {
                        assert(m.children@[j] == new_kids@[j]);
                    }
                }
                Some(m)
            },
            None => {
                if changed {
                    let m = Arc::new(Node { data: n.data.dup(), children: new_kids });
                    proof {
                        assert forall|j: int| 0 <= j < n.children@.len() implies transforms(
                            *(#[trigger] n.children@[j]),
                            *m.children@[j],
                            *f,
                        ) by {
                            assert(m.children@[j] == new_kids@[j]);
                        }
                    }
                    Some(m)
                } else {
                    proof {
                        assert forall|j: int| 0 <= j < n.children@.len() implies transforms(
                            *(#[trigger] n.children@[j]),
                            *n.children@[j],
                            *f,
                        ) by {
                            assert(transforms(*n.children@[j], *new_kids@[j], *f));
                        }
                    }
                    None
                }
            },
        }
    }

    /// Applies `f` to the focused node and every descendant; a subtree
    /// in which nothing changed is shared with the old tree, and a
    /// rewriting pass that changes nothing returns an equal path.
    pub fn apply_recursive<F: Fn(&D) -> Option<D>>(&self, f: F) -> (r: Self)
        requires
            forall|x: &D| #[trigger] call_requires(f, (x,)),
        ensures
            r.depth() == self.depth(),
            forall|i: int| 0 <= i < self.depth() - 1 ==> r.data_at(i) == self.data_at(i),
            forall|i: int| 0 <= i < self.depth() - 1 ==> r.slot_at(i) == self.slot_at(i),
            self.focus_transformed(r, f),
            (forall|x: &D, ret: Option<D>|
                call_ensures(f, (x,), ret) ==> ret is None) ==> r.same_tree(*self),
            r.linked(),
    {
        proof {
            use_type_invariant(self);
        }
        let last = self.nodes.len() - 1;
        match Self::rec_apply(&self.nodes[last], &f) {
            Some(m) => {
                let r = self.replace_focus(m);
                r
            },
            None => {
                let r = self.duplicate();
                proof {
                    assert(r.nodes@ == self.nodes@);
                }
                r
            },
        }
    }

    /// Applies `f` to the focused node and every descendant, like
    /// `apply_recursive`: the walk visits the children of a node
    /// first and the node itself after them.
    pub fn map_data<F: Fn(&D) -> Option<D>>(&self, f: F) -> (r: Self)
        requires
            forall|x: &D| #[trigger] call_requires(f, (x,)),
        ensures
            r.depth() == self.depth(),
            forall|i: int| 0 <= i < self.depth() - 1 ==> r.data_at(i) == self.data_at(i),
            forall|i: int| 0 <= i < self.depth() - 1 ==> r.slot_at(i) == self.slot_at(i),
            self.focus_transformed(r, f),
            (forall|x: &D, ret: Option<D>|
                call_ensures(f, (x,), ret) ==> ret is None) ==> r.same_tree(*self),
            r.linked(),
    {
        proof {
            use_type_invariant(self);
        }
        let last = self.nodes.len() - 1;
        match Self::rec_apply(&self.nodes[last], &f) {
            Some(m) => self.replace_focus(m),
            None => {
                let r = self.duplicate();
                proof {
                    assert(r.nodes@ == self.nodes@);
                }
                r
            },
        }
    }

    /// One filtering pass over a subtree.  The first result says
    /// whether the subtree survives; the flag is true when the result
    /// is the unchanged, shared subtree.
    #[verifier::loop_isolation(false)]
    fn rec_filter<F: Fn(&D) -> bool>(n: &Arc<Node<D>>, pred: &F) -> (r: (
        Option<Arc<Node<D>>>,
        bool,
    ))
        requires
            forall|x: &D| #[trigger] call_requires(*pred, (x,)),
        ensures
            match r.0 {
                Some(m) => filtered_by(**n, *m, *pred),
                None => exists|ret: bool|
                    #[trigger] call_ensures(*pred, (&(**n).data,), ret) && ret == false,
            },
            r.1 ==> (r.0 matches Some(m) && m == *n),
            (forall|x: &D, ret: bool| call_ensures(*pred, (x,), ret) ==> ret == true) ==> r.1,
        decreases **n,
    {
        if !pred(&n.data) {
            return (None, false);
        }
        let mut new_kids: Vec<Arc<Node<D>>> = Vec::new();
        let mut unchanged = true;
        let mut i: usize = 0;
        proof {
            assert(n.children@.subrange(0, 0).len() == 0);
            assert(row_filtered(n.children@.subrange(0, 0), new_kids@, *pred));
        }
        while i < n.children.len()
            invariant
                i <= n.children@.len(),
                unchanged ==> new_kids@ == n.children@.subrange(0, i as int),
                row_filtered(n.children@.subrange(0, i as int), new_kids@, *pred),
                (forall|x: &D, ret: bool|
                    call_ensures(*pred, (x,), ret) ==> ret == true) ==> unchanged,
            decreases n.children@.len() - i,
        {
            let ghost prev_kids = new_kids@;
            let sub = Self::rec_filter(&n.children[i], pred);
            match sub.0 {
                Some(m) => {
                    if !sub.1 {
                        unchanged = false;
                    }
                    new_kids.push(m);
                    proof {
                        assert(n.children@.subrange(0, i + 1 as int).drop_last()
                            =~= n.children@.subrange(0, i as int));
                        assert(n.children@.subrange(0, i + 1 as int).last()
                            == n.children@[i as int]);
                        assert(new_kids@.drop_last() =~= prev_kids);
                        assert(row_filtered(
                            n.children@.subrange(0, i + 1 as int),
                            new_kids@,
                            *pred,
                        ));
                    }
                },
                None => {
                    unchanged = false;
                    proof {
                        assert(n.children@.subrange(0, i + 1 as int).drop_last()
                            =~= n.children@.subrange(0, i as int));
                        assert(n.children@.subrange(0, i + 1 as int).last()
                            == n.children@[i as int]);
                        assert(row_filtered(
                            n.children@.subrange(0, i + 1 as int),
                            new_kids@,
                            *pred,
                        ));
                    }
                },
            }
            proof {
                if unchanged {
                    assert(new_kids@ =~= n.children@.subrange(0, i + 1 as int));
                }
            }
            i = i + 1;
        }
        proof {
            assert(n.children@.subrange(0, n.children@.len() as int) =~= n.children@);
        }
        if unchanged {
            let r0 = n.clone();
            proof {
                assert(filtered_by(**n, **n, *pred));
            }
            (Some(r0), true)
        } else {
            let m = Arc::new(Node { data: n.data.dup(), children: new_kids });
            proof {
                assert(m.children@ == new_kids@);
                assert(filtered_by(**n, *m, *pred));
            }
            (Some(m), false)
        }
    }

    /// Restricts the focused subtree to the nodes whose data satisfies
    /// the predicate; descendants of a failing node are dropped with
    /// it.  Returns `None` when the focused node itself fails.  A
    /// predicate that accepts everything gives back an equal path.
    pub fn filter_recursive<F: Fn(&D) -> bool>(&self, pred: F) -> (r: Option<Self>)
        requires
            forall|x: &D| #[trigger] call_requires(pred, (x,)),
        ensures
            match r {
                Some(p) => {
                    &&& p.depth() == self.depth()
                    &&& p.focus_data() == self.focus_data()
                    &&& self.focus_filtered(p, pred)
                    &&& p.linked()
                    &&& forall|i: int|
                        0 <= i < self.depth() - 1 ==> p.data_at(i) == self.data_at(i)
                    &&& forall|i: int|
                        0 <= i < self.depth() - 1 ==> p.slot_at(i) == self.slot_at(i)
                },
                None => exists|ret: bool|
                    #[trigger] call_ensures(pred, (&self.focus_data(),), ret) && ret == false,
            },
            (forall|x: &D, ret: bool| call_ensures(pred, (x,), ret) ==> ret == true) ==> (match r {
                Some(p) => p.same_tree(*self),
                None => false,
            }),
    {
        proof {
            use_type_invariant(self);
        }
        let last = self.nodes.len() - 1;
        let out = Self::rec_filter(&self.nodes[last], &pred);
        match out.0 {
            None => {
                proof {
                    let ret0 = choose|ret: bool|
                        #[trigger] call_ensures(pred, (&self.nodes@[last as int].data,), ret)
                            && ret == false;
                    assert(call_ensures(pred, (&self.focus_data(),), ret0) && ret0 == false);
                }
                None
            },
            Some(m) => {
                if out.1 {
                    let r = self.duplicate();
                    proof {
                        assert(r.nodes@ == self.nodes@);
                    }
                    Some(r)
                } else {
                    Some(self.replace_focus(m))
                }
            },
        }
    }
}


impl<D: EquatableAndCloneable> Path<D> {
    /// Collects this path and a path to every descendant of the focus,
    /// in depth-first order starting with this path itself.
    #[verifier::loop_isolation(false)]
    fn flatten_into(&self, res: &mut Vec<Path<D>>)
        ensures
            final(res)@.len() == old(res)@.len() + self.focus_weight(),
            forall|q: int| 0 <= q < old(res)@.len() ==> final(res)@[q] == old(res)@[q],
            final(res)@[old(res)@.len() as int].same_tree(*self),
            forall|q: int|
                old(res)@.len() <= q < final(res)@.len() ==> (#[trigger] final(res)@[q]).depth()
                    >= self.depth() && (#[trigger] final(res)@[q]).linked() && (forall|i: int|
                    0 <= i < self.depth() ==> final(res)@[q].node_eq_at(i, *self, i)),
        decreases self.focus_weight(),
    {
        proof {
            use_type_invariant(self);
            assert(self.focus_weight() == 1 + row_weight(self.nodes@.last().children@));
        }
        res.push(self.duplicate());
        proof {
            assert(self.nodes@.last().children@.subrange(0, 0)
                =~= Seq::<Arc<Node<D>>>::empty());
        }
        let cs = self.children();
        let mut j: usize = 0;
        while j < cs.len()
            invariant
                j <= cs@.len(),
                res@.len() == old(res)@.len() + 1 + row_weight(
                    self.nodes@.last().children@.subrange(0, j as int),
                ),
                forall|q: int| 0 <= q < old(res)@.len() ==> res@[q] == old(res)@[q],
                res@[old(res)@.len() as int].same_tree(*self),
                forall|q: int|
                    old(res)@.len() <= q < res@.len() ==> (#[trigger] res@[q]).depth()
                        >= self.depth() && (#[trigger] res@[q]).linked() && (forall|i: int|
                        0 <= i < self.depth() ==> res@[q].node_eq_at(i, *self, i)),
            decreases cs@.len() - j,
        {
            let c = &cs[j];
            proof {
                use_type_invariant(c);
                let ghost d = self.nodes@.len() as int;
                assert(c.depth() == self.depth() + 1);
                assert(c.node_eq_at(d - 1, *self, d - 1));
                assert(c.slot_at(d - 1) == j);
                assert(c.nodes@[d] == c.nodes@[d - 1].children@[c.slots@[d - 1] as int]);
                assert(c.nodes@.last() == self.nodes@.last().children@[j as int]);
                lemma_row_weight_at_least(self.nodes@.last().children@, j as int);
                assert(c.focus_weight() < self.focus_weight());
            }
            let ghost before = res@;
            c.flatten_into(res);
            proof {
                let ghost row = self.nodes@.last().children@;
                assert(row.subrange(0, j + 1 as int).drop_last() =~= row.subrange(0, j as int));
                assert(row.subrange(0, j + 1 as int).last() == row[j as int]);
                assert(row_weight(row.subrange(0, j + 1 as int)) == row_weight(
                    row.subrange(0, j as int),
                ) + node_weight(*row[j as int]));
                assert forall|q: int|
                    old(res)@.len() <= q < res@.len() implies (#[trigger] res@[q]).depth()
                    >= self.depth() && res@[q].linked() && (forall|i: int|
                    0 <= i < self.depth() ==> res@[q].node_eq_at(i, *self, i)) by {
                    if q >= before.len() {
                        assert(res@[q].depth() >= c.depth());
                        assert forall|i: int| 0 <= i < self.depth() implies res@[q].node_eq_at(
                            i,
                            *self,
                            i,
                        ) by {
                            assert(res@[q].node_eq_at(i, *c, i));
                            assert(c.node_eq_at(i, *self, i));
                        }
                    }
                }
            }
            j = j + 1;
        }
        proof {
            assert(self.nodes@.last().children@.subrange(
                0,
                self.nodes@.last().children@.len() as int,
            ) =~= self.nodes@.last().children@);
        }
    }

    /// Returns this path followed by a path to every descendant of
    /// the focus, in depth-first order: one path for each node of the
    /// focused subtree.
    pub fn flatten(&self) -> (r: Vec<Self>)
        ensures
            r@.len() == self.focus_weight(),
            r@.len() >= 1,
            r@[0].same_tree(*self),
            forall|q: int|
                0 <= q < r@.len() ==> (#[trigger] r@[q]).depth() >= self.depth()
                    && (#[trigger] r@[q]).linked() && (forall|i: int|
                    0 <= i < self.depth() ==> r@[q].node_eq_at(i, *self, i)),
    {
        proof {
            use_type_invariant(self);
            assert(self.focus_weight() == 1 + row_weight(self.nodes@.last().children@));
        }
        let mut res: Vec<Path<D>> = Vec::new();
        self.flatten_into(&mut res);
        res
    }

    /// Calls `f` on this path and on a path to every descendant of
    /// the focus, in depth-first order.
    #[verifier::loop_isolation(false)]
    pub fn iter_recursive<F: Fn(&Path<D>)>(&self, f: &F)
        requires
            forall|p: &Path<D>| #[trigger] call_requires(*f, (p,)),
        decreases self.focus_weight(),
    {
        proof {
            use_type_invariant(self);
        }
        f(self);
        let cs = self.children();
        let mut j: usize = 0;
        while j < cs.len()
            invariant
                j <= cs@.len(),
            decreases cs@.len() - j,
        {
            let c = &cs[j];
            proof {
                use_type_invariant(c);
                let ghost d = self.nodes@.len() as int;
                assert(c.depth() == self.depth() + 1);
                assert(c.node_eq_at(d - 1, *self, d - 1));
                assert(c.slot_at(d - 1) == j);
                assert(c.nodes@[d] == c.nodes@[d - 1].children@[c.slots@[d - 1] as int]);
                assert(c.nodes@.last() == self.nodes@.last().children@[j as int]);
                lemma_row_weight_at_least(self.nodes@.last().children@, j as int);
                assert(c.focus_weight() < self.focus_weight());
            }
            c.iter_recursive(f);
            j = j + 1;
        }
    }

    /// Calls `f` on this path and on a path to every descendant of
    /// the focus, in depth-first order, threading an accumulator whose
    /// hooks run on descent and ascent.
    #[verifier::loop_isolation(false)]
    pub fn iter_acc_recursive<Acc: TreeAcc<D>, F: Fn(&Acc, &Path<D>)>(&self, init: &mut Acc, f: &F)
        requires
            forall|a: &Acc, p: &Path<D>| #[trigger] call_requires(*f, (a, p)),
        decreases self.focus_weight(),
    {
        proof {
            use_type_invariant(self);
        }
        init.push(self.data());
        f(init, self);
        let cs = self.children();
        let mut j: usize = 0;
        while j < cs.len()
            invariant
                j <= cs@.len(),
            decreases cs@.len() - j,
        {
            let c = &cs[j];
            proof {
                use_type_invariant(c);
                let ghost d = self.nodes@.len() as int;
                assert(c.depth() == self.depth() + 1);
                assert(c.node_eq_at(d - 1, *self, d - 1));
                assert(c.slot_at(d - 1) == j);
                assert(c.nodes@[d] == c.nodes@[d - 1].children@[c.slots@[d - 1] as int]);
                assert(c.nodes@.last() == self.nodes@.last().children@[j as int]);
                lemma_row_weight_at_least(self.nodes@.last().children@, j as int);
                assert(c.focus_weight() < self.focus_weight());
            }
            c.iter_acc_recursive(init, f);
            j = j + 1;
        }
        init.pop();
    }

    /// One accumulating rewriting pass over a subtree: the hooks run
    /// on descent and ascent, and `f` may consult the accumulator.
    #[verifier::loop_isolation(false)]
    fn rec_apply_acc<Acc: TreeAcc<D>, F: Fn(&Acc, &D) -> Option<D>>(
        n: &Arc<Node<D>>,
        acc: &mut Acc,
        f: &F,
    ) -> (r: Option<Arc<Node<D>>>)
        requires
            forall|a: &Acc, x: &D| #[trigger] call_requires(*f, (a, x)),
        ensures
            match r {
                None => acc_transforms::<D, Acc, F>(**n, **n, *f),
                Some(m) => acc_transforms::<D, Acc, F>(**n, *m, *f),
            },
            (forall|a: &Acc, x: &D, ret: Option<D>|
                call_ensures(*f, (a, x), ret) ==> ret is None) ==> r is None,
        decreases **n,
    {
        acc.push(&n.data);
        let ghost acc0 = *acc;
        let ret = f(acc, &n.data);
        let mut new_kids: Vec<Arc<Node<D>>> = Vec::new();
        let mut changed = false;
        let mut i: usize = 0;
        while i < n.children.len()
            invariant
                i <= n.children@.len(),
                new_kids@.len() == i,
                forall|j: int|
                    0 <= j < i ==> acc_transforms::<D, Acc, F>(
                        *(#[trigger] n.children@[j]),
                        *new_kids@[j],
                        *f,
                    ),
                !changed ==> forall|j: int| 0 <= j < i ==> new_kids@[j] == n.children@[j],
                (forall|a: &Acc, x: &D, ret: Option<D>|
                    call_ensures(*f, (a, x), ret) ==> ret is None) ==> !changed,
            decreases n.children@.len() - i,
        {
            match Self::rec_apply_acc(&n.children[i], acc, f) {
                Some(m) => {
                    changed = true;
                    new_kids.push(m);
                },
                None => {
                    new_kids.push(n.children[i].clone());
                },
            }
            i = i + 1;
        }
        acc.pop();
        match ret {
            Some(d) => {
                let m = Arc::new(Node { data: d, children: new_kids });
                proof {
                    assert(call_ensures(*f, (&acc0, &n.data), ret));
                    assert forall|j: int| 0 <= j < n.children@.len() implies acc_transforms::<
                        D,
                        Acc,
                        F,
                    >(*(#[trigger] n.children@[j]), *m.children@[j], *f) by {
                        assert(m.children@[j] == new_kids@[j]);
                    }
                }
                Some(m)
            },
            None => {
                if changed {
                    let m = Arc::new(Node { data: n.data.dup(), children: new_kids });
                    proof {
                        assert(call_ensures(*f, (&acc0, &n.data), ret));
                        assert forall|j: int|
                            0 <= j < n.children@.len() implies acc_transforms::<D, Acc, F>(
                            *(#[trigger] n.children@[j]),
                            *m.children@[j],
                            *f,
                        ) by {
                            assert(m.children@[j] == new_kids@[j]);
                        }
                    }
                    Some(m)
                } else {
                    proof {
                        assert(call_ensures(*f, (&acc0, &n.data), ret));
                        assert forall|j: int|
                            0 <= j < n.children@.len() implies acc_transforms::<D, Acc, F>(
                            *(#[trigger] n.children@[j]),
                            *n.children@[j],
                            *f,
                        ) by {
                            assert(acc_transforms::<D, Acc, F>(
                                *n.children@[j],
                                *new_kids@[j],
                                *f,
                            ));
                        }
                    }
                    None
                }
            },
        }
    }

    /// Applies an accumulating rewriting pass to the focused node and
    /// every descendant; the spine above the focus keeps its data and
    /// slots.
    pub fn apply_acc_recursive<Acc: TreeAcc<D>, F: Fn(&Acc, &D) -> Option<D>>(
        &self,
        init: &mut Acc,
        f: F,
    ) -> (r: Self)
        requires
            forall|a: &Acc, x: &D| #[trigger] call_requires(f, (a, x)),
        ensures
            r.depth() == self.depth(),
            forall|i: int| 0 <= i < self.depth() - 1 ==> r.data_at(i) == self.data_at(i),
            forall|i: int| 0 <= i < self.depth() - 1 ==> r.slot_at(i) == self.slot_at(i),
            self.focus_acc_transformed::<Acc, F>(r, f),
            (forall|a: &Acc, x: &D, ret: Option<D>|
                call_ensures(f, (a, x), ret) ==> ret is None) ==> r.same_tree(*self),
            r.linked(),
    {
        proof {
            use_type_invariant(self);
        }
        let last = self.nodes.len() - 1;
        match Self::rec_apply_acc(&self.nodes[last], init, &f) {
            Some(m) => self.replace_focus(m),
            None => {
                let r = self.duplicate();
                proof {
                    assert(r.nodes@ == self.nodes@);
                }
                r
            },
        }
    }
}

impl<D: EquatableAndCloneable> Clone for Path<D> {
    /// An equal path into the same tree, sharing every node.
    fn clone(&self) -> (r: Self)
        ensures
            r.same_tree(*self),
            r.linked(),
    {
        proof {
            use_type_invariant(self);
        }
        self.duplicate()
    }
}

impl<D: EquatableAndCloneable> PartialEq for Path<D> {
    /// Paths are equal when they take the same slots through like
    /// trees.
    fn eq(&self, other: &Self) -> (r: bool) {
        proof {
            use_type_invariant(self);
            use_type_invariant(other);
        }
        if self.nodes.len() != other.nodes.len() {
            return false;
        }
        let mut i: usize = 0;
        while i < self.slots.len()
            invariant
                spine_wf(self.nodes@, self.slots@),
                spine_wf(other.nodes@, other.slots@),
                self.nodes@.len() == other.nodes@.len(),
                i <= self.slots@.len(),
                forall|j: int| 0 <= j < i ==> self.slots@[j] == other.slots@[j],
            decreases self.slots@.len() - i,
        {
            if self.slots[i] != other.slots[i] {
                proof {
                    assert(self.slots@ != other.slots@);
                }
                return false;
            }
            i = i + 1;
        }
        proof {
            assert(self.slots@ =~= other.slots@);
        }
        let mut k: usize = 0;
        while k < self.nodes.len()
            invariant
                spine_wf(self.nodes@, self.slots@),
                spine_wf(other.nodes@, other.slots@),
                self.nodes@.len() == other.nodes@.len(),
                self.slots@ == other.slots@,
                k <= self.nodes@.len(),
                forall|j: int|
                    0 <= j < k ==> node_like(*(#[trigger] self.nodes@[j]), *other.nodes@[j]),
            decreases self.nodes@.len() - k,
        {
            if !Self::nodes_alike(&self.nodes[k], &other.nodes[k]) {
                return false;
            }
            k = k + 1;
        }
        true
    }
}

impl<D: EquatableAndCloneable> Eq for Path<D> {

}

impl<D: EquatableAndCloneable> vstd::std_specs::cmp::PartialEqSpecImpl for Path<D> {
    open spec fn obeys_eq_spec() -> bool {
        true
    }

    open spec fn eq_spec(&self, other: &Self) -> bool {
        self.like(*other)
    }
}

} // verus!
