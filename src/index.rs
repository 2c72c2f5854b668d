//! Stable pre-order node addressing.
//!
//! Every node of a mounted tree is tagged with its position in one
//! depth-first pre-order walk: the root gets the first index, and the
//! children of an element follow it in order, each one followed by its
//! own subtree.
use vstd::prelude::*;
use crate::node::{lemma_nodes_view, Node, NodeM};

verus! {

/// The number of nodes in a tree, leaves included.
pub open spec fn size(n: NodeM) -> nat
    decreases n,
{
    match n {
        NodeM::Element { children, .. } => 1 + forest_size(children),
        _ => 1,
    }
}

/// The number of nodes in a sequence of trees.
pub open spec fn forest_size(s: Seq<NodeM>) -> nat
    decreases s,
{
    if s.len() == 0 {
        0
    } else {
        forest_size(s.subrange(0, s.len() - 1)) + size(s[s.len() - 1])
    }
}

/// The index of child `i` of an element whose index is `parent`.
pub open spec fn child_index(parent: nat, children: Seq<NodeM>, i: int) -> nat {
    parent + 1 + forest_size(children.subrange(0, i))
}

/// Every tree has at least one node.
pub proof fn lemma_size_pos(n: NodeM)
    ensures
        size(n) >= 1,
{
}

/// The size of a forest grows with each tree added at its end.
pub proof fn lemma_forest_prefix(s: Seq<NodeM>, i: int, j: int)
    requires
        0 <= i <= j <= s.len(),
    ensures
        forest_size(s.subrange(0, i)) + (j - i) <= forest_size(s.subrange(0, j)),
    decreases j - i,
{
    if i < j {
        lemma_forest_prefix(s, i, j - 1);
        lemma_size_pos(s[j - 1]);
        assert(s.subrange(0, j).subrange(0, j - 1) =~= s.subrange(0, j - 1));
    }
}

/// Child `i` and its subtree take the indices just after those of the
/// children before it, inside the parent's own range.
pub proof fn lemma_child_range(parent: nat, children: Seq<NodeM>, i: int)
    requires
        0 <= i < children.len(),
    ensures
        child_index(parent, children, i) + size(children[i]) == child_index(parent, children, i + 1),
        parent < child_index(parent, children, i),
        child_index(parent, children, i + 1) <= parent + 1 + forest_size(children),
{
    assert(children.subrange(0, i + 1).subrange(0, i) =~= children.subrange(0, i));
    lemma_forest_prefix(children, i + 1, children.len() as int);
    assert(children.subrange(0, children.len() as int) =~= children);
}

/// Counts the nodes of a tree.
pub fn node_count(n: &Node) -> (r: usize)
    requires
        size(n@) <= usize::MAX,
    ensures
        r == size(n@),
    decreases size(n@),
{
    match n {
        Node::Element { children, .. } => {
            proof {
                lemma_nodes_view(children@);
            }
            let ghost cs = n@->children;
            let mut total: usize = 1;
            let mut i: usize = 0;
            while i < children.len()
                invariant
                    i <= children@.len(),
                    cs == crate::node::nodes_view(children@),
                    cs.len() == children@.len(),
                    forall|k: int| 0 <= k < cs.len() ==> #[trigger] cs[k] == children@[k]@,
                    size(n@) == 1 + forest_size(cs),
                    1 + forest_size(cs) <= usize::MAX,
                    total == 1 + forest_size(cs.subrange(0, i as int)),
                decreases children@.len() - i,
            {
                proof {
                    lemma_child_range(0, cs, i as int);
                }
                let c = node_count(&children[i]);
                total = total + c;
                i = i + 1;
            }
            assert(cs.subrange(0, cs.len() as int) =~= cs);
            total
        },
        _ => 1,
    }
}

/// The indices of the children of an element whose index is `parent`.
pub fn child_indices(children: &Vec<Node>, parent: usize) -> (r: Vec<usize>)
    requires
        parent + 1 + forest_size(crate::node::nodes_view(children@)) <= usize::MAX,
    ensures
        r@.len() == children@.len(),
        forall|i: int| 0 <= i < children@.len() ==> #[trigger] r@[i] == child_index(
            parent as nat,
            crate::node::nodes_view(children@),
            i,
        ),
{
    proof {
        lemma_nodes_view(children@);
    }
    let ghost cs = crate::node::nodes_view(children@);
    let mut r: Vec<usize> = Vec::new();
    let mut next: usize = parent + 1;
    let mut i: usize = 0;
    while i < children.len()
        invariant
            i <= children@.len(),
            cs == crate::node::nodes_view(children@),
            cs.len() == children@.len(),
            forall|k: int| 0 <= k < cs.len() ==> #[trigger] cs[k] == children@[k]@,
            parent + 1 + forest_size(cs) <= usize::MAX,
            next == child_index(parent as nat, cs, i as int),
            r@.len() == i,
            forall|k: int| 0 <= k < i ==> #[trigger] r@[k] == child_index(parent as nat, cs, k),
        decreases children@.len() - i,
    {
        proof {
            lemma_child_range(parent as nat, cs, i as int);
        }
        r.push(next);
        let c = node_count(&children[i]);
        next = next + c;
        i = i + 1;
    }
    r
}

/// The index of a mounted node and, for an element, those of its children.
#[derive(Debug, PartialEq, Eq)]
pub struct IndexedTree {
    pub index: usize,
    pub children: Vec<IndexedTree>,
}

/// `t` gives node `n`, mounted at index `start`, and each node under it
/// its pre-order index.
pub open spec fn indexed_as(t: IndexedTree, n: NodeM, start: nat) -> bool
    decreases t,
{
    &&& t.index == start
    &&& match n {
        NodeM::Element { children, .. } => indexed_forest(t.children@, children, start),
        _ => t.children@.len() == 0,
    }
}

/// `ts` gives each of the children `cs` of the element at `parent` its index tree.
pub open spec fn indexed_forest(ts: Seq<IndexedTree>, cs: Seq<NodeM>, parent: nat) -> bool
    decreases ts,
{
    &&& ts.len() == cs.len()
    &&& (ts.len() > 0 ==> {
        &&& indexed_forest(ts.subrange(0, ts.len() - 1), cs.subrange(0, cs.len() - 1), parent)
        &&& indexed_as(ts[ts.len() - 1], cs[cs.len() - 1], child_index(parent, cs, cs.len() - 1))
    })
}

/// Tags a tree mounted at index `start` with pre-order indices.
pub fn assign_indices(n: &Node, start: usize) -> (r: IndexedTree)
    requires
        start + size(n@) <= usize::MAX,
    ensures
        indexed_as(r, n@, start as nat),
    decreases size(n@),
{
    match n {
        Node::Element { children, .. } => {
            proof {
                lemma_nodes_view(children@);
            }
            let ghost cs = n@->children;
            let mut out: Vec<IndexedTree> = Vec::new();
            let mut next: usize = start + 1;
            let mut i: usize = 0;
            while i < children.len()
                invariant
                    i <= children@.len(),
                    cs == crate::node::nodes_view(children@),
                    cs.len() == children@.len(),
                    forall|k: int| 0 <= k < cs.len() ==> #[trigger] cs[k] == children@[k]@,
                    size(n@) == 1 + forest_size(cs),
                    start + size(n@) <= usize::MAX,
                    next == child_index(start as nat, cs, i as int),
                    indexed_forest(out@, cs.subrange(0, i as int), start as nat),
                decreases children@.len() - i,
            {
                proof {
                    lemma_child_range(start as nat, cs, i as int);
                }
                let t = assign_indices(&children[i], next);
                let ghost prev = out@;
                out.push(t);
                proof {
                    let c2 = cs.subrange(0, i + 1);
                    assert(c2.subrange(0, i as int) =~= cs.subrange(0, i as int));
                    assert(out@.subrange(0, i as int) =~= prev);
                    assert(child_index(start as nat, c2, i as int) == child_index(start as nat, cs, i as int));
                }
                let c = node_count(&children[i]);
                next = next + c;
                i = i + 1;
            }
            assert(cs.subrange(0, cs.len() as int) =~= cs);
            IndexedTree { index: start, children: out }
        },
        _ => IndexedTree { index: start, children: Vec::new() },
    }
}

} // verus!
