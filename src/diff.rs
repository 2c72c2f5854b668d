//! The tree differ: the patches that turn an old tree into a new one.
//!
//! Every patch addresses nodes by their index in the old tree, as it was
//! tagged when mounted; no index is ever taken from the new tree.
use vstd::prelude::*;
use crate::attr_diff::{diff_attributes, has_call, is_add_list, is_remove_list, lemma_attrs_unchanged, merged, no_calls, strings_view, to_add};
use crate::index::{child_index, child_indices, forest_size, lemma_child_range, size};
use crate::lis::{is_increasing_pick, longest_increasing, strictly_increasing};
use crate::node::{attrs_view, copy_node, lemma_nodes_view, nodes_view, opt_str_view, AttrM, Attribute, Node, NodeM, ValueM};
use crate::sameness::{lemma_empty_children, lemma_no_attr_change, matched_same, same_attrs, same_forest, same_view};
use crate::reconcile::{is_matching, key_of, keys_unique, lemma_first_key_unique, lemma_self_matching, match_children, pairs_with};

verus! {

/// One edit of the live tree.
#[allow(inconsistent_fields)]
#[derive(Debug, PartialEq)]
pub enum Patch {
    /// Replace node `index` and its subtree by `node`.
    Replace { index: usize, node: Node },
    /// Set the text of the text or comment node `index`.
    SetText { index: usize, text: String },
    /// Apply these attributes to element `index`.
    AddAttributes { index: usize, attrs: Vec<Attribute> },
    /// Remove the attributes with these names from element `index`.
    RemoveAttributes { index: usize, names: Vec<String> },
    /// Add these nodes after the last child of element `parent`.
    AppendChildren { parent: usize, children: Vec<Node> },
    /// Insert these nodes just before node `before`.
    InsertChildrenBefore { before: usize, children: Vec<Node> },
    /// Remove these children of element `parent`.
    RemoveChildren { parent: usize, children: Vec<usize> },
    /// Move child `child` of element `parent` just before its sibling
    /// `before`, or after the last child when there is none.
    MoveChildrenBefore { parent: usize, child: usize, before: Option<usize> },
}

/// Model of a patch.
#[allow(inconsistent_fields)]
pub enum PatchM {
    Replace { index: nat, node: NodeM },
    SetText { index: nat, text: Seq<char> },
    AddAttributes { index: nat, attrs: Seq<AttrM> },
    RemoveAttributes { index: nat, names: Seq<Seq<char>> },
    AppendChildren { parent: nat, children: Seq<NodeM> },
    InsertChildrenBefore { before: nat, children: Seq<NodeM> },
    RemoveChildren { parent: nat, children: Seq<nat> },
    MoveChildrenBefore { parent: nat, child: nat, before: Option<nat> },
}

/// The indices of a list, as natural numbers.
pub open spec fn nats_view(s: Seq<usize>) -> Seq<nat> {
    s.map_values(|c: usize| c as nat)
}

/// An optional index, as a natural number.
pub open spec fn opt_nat(o: Option<usize>) -> Option<nat> {
    match o {
        Some(x) => Some(x as nat),
        None => None,
    }
}

impl View for Patch {
    type V = PatchM;

    open spec fn view(&self) -> PatchM {
        match self {
            Patch::Replace { index, node } => PatchM::Replace { index: *index as nat, node: node@ },
            Patch::SetText { index, text } => PatchM::SetText { index: *index as nat, text: text@ },
            Patch::AddAttributes { index, attrs } => PatchM::AddAttributes {
                index: *index as nat,
                attrs: attrs_view(attrs@),
            },
            Patch::RemoveAttributes { index, names } => PatchM::RemoveAttributes {
                index: *index as nat,
                names: strings_view(names@),
            },
            Patch::AppendChildren { parent, children } => PatchM::AppendChildren {
                parent: *parent as nat,
                children: nodes_view(children@),
            },
            Patch::InsertChildrenBefore { before, children } => PatchM::InsertChildrenBefore {
                before: *before as nat,
                children: nodes_view(children@),
            },
            Patch::RemoveChildren { parent, children } => PatchM::RemoveChildren {
                parent: *parent as nat,
                children: nats_view(children@),
            },
            Patch::MoveChildrenBefore { parent, child, before } => PatchM::MoveChildrenBefore {
                parent: *parent as nat,
                child: *child as nat,
                before: opt_nat(*before),
            },
        }
    }
}

/// The models of a list of patches.
pub open spec fn patches_view(s: Seq<Patch>) -> Seq<PatchM> {
    s.map_values(|p: Patch| p@)
}

/// Every node index that the patch names lies in `lo .. hi`.
pub open spec fn targets_within(p: PatchM, lo: int, hi: int) -> bool {
    match p {
        PatchM::Replace { index, .. } => lo <= index < hi,
        PatchM::SetText { index, .. } => lo <= index < hi,
        PatchM::AddAttributes { index, .. } => lo <= index < hi,
        PatchM::RemoveAttributes { index, .. } => lo <= index < hi,
        PatchM::AppendChildren { parent, .. } => lo <= parent < hi,
        PatchM::InsertChildrenBefore { before, .. } => lo <= before < hi,
        PatchM::RemoveChildren { parent, children } => lo <= parent < hi
            && forall|t: int| 0 <= t < children.len() ==> lo <= #[trigger] children[t] < hi,
        PatchM::MoveChildrenBefore { parent, child, before } => lo <= parent < hi && lo <= child < hi
            && match before {
                Some(b) => lo <= b < hi,
                None => true,
            },
    }
}

/// Every patch of the list names only nodes in `lo .. hi`.
pub open spec fn all_within(s: Seq<PatchM>, lo: int, hi: int) -> bool {
    forall|t: int| 0 <= t < s.len() ==> targets_within(#[trigger] s[t], lo, hi)
}

/// The two nodes cannot be patched in place: they are of different kinds,
/// or elements with another tag or namespace.
pub open spec fn replaced(old: NodeM, new: NodeM) -> bool {
    match (old, new) {
        (NodeM::Element { tag: t1, namespace: n1, .. }, NodeM::Element { tag: t2, namespace: n2, .. }) =>
            t1 != t2 || n1 != n2,
        (NodeM::Text(_), NodeM::Text(_)) => false,
        (NodeM::Comment(_), NodeM::Comment(_)) => false,
        _ => true,
    }
}

/// The patches for a leaf whose text may have changed.
pub open spec fn text_patches(index: nat, old: Seq<char>, new: Seq<char>) -> Seq<PatchM> {
    if old == new {
        Seq::empty()
    } else {
        seq![PatchM::SetText { index, text: new }]
    }
}

/// The patches that apply and remove attributes of element `index`.
pub open spec fn attr_patches(index: nat, add: Seq<AttrM>, rem: Seq<Seq<char>>) -> Seq<PatchM> {
    (if add.len() > 0 { seq![PatchM::AddAttributes { index, attrs: add }] } else { Seq::empty() })
        + (if rem.len() > 0 { seq![PatchM::RemoveAttributes { index, names: rem }] } else { Seq::empty() })
}

/// The patches of two elements begin with those of their attributes.
pub open spec fn starts_with_attr_patches(r: Seq<PatchM>, index: nat, old: Seq<AttrM>, new: Seq<AttrM>) -> bool {
    exists|add: Seq<AttrM>, rem: Seq<Seq<char>>|
        is_add_list(old, new, add) && is_remove_list(old, new, rem)
            && attr_patches(index, add, rem).len() <= r.len()
            && #[trigger] attr_patches(index, add, rem) == r.subrange(0, attr_patches(index, add, rem).len() as int)
}

fn opt_string_eq(a: &Option<String>, b: &Option<String>) -> (r: bool)
    ensures
        r == (opt_str_view(*a) == opt_str_view(*b)),
{
    match a {
        Some(x) => match b {
            Some(y) => *x == *y,
            None => false,
        },
        None => b.is_none(),
    }
}

fn copy_nodes(s: &Vec<Node>, from: usize, to: usize) -> (r: Vec<Node>)
    requires
        from <= to <= s@.len(),
    ensures
        nodes_view(r@) == nodes_view(s@).subrange(from as int, to as int),
{
    proof {
        lemma_nodes_view(s@);
    }
    let mut r: Vec<Node> = Vec::new();
    let mut i: usize = from;
    while i < to
        invariant
            from <= i <= to <= s@.len(),
            nodes_view(s@).len() == s@.len(),
            forall|k: int| 0 <= k < s@.len() ==> #[trigger] nodes_view(s@)[k] == s@[k]@,
            r@.len() == i - from,
            forall|k: int| 0 <= k < r@.len() ==> #[trigger] r@[k]@ == s@[from + k]@,
        decreases to - i,
    {
        r.push(copy_node(&s[i]));
        i = i + 1;
    }
    proof {
        lemma_nodes_view(r@);
        assert(nodes_view(r@) =~= nodes_view(s@).subrange(from as int, to as int));
    }
    r
}

/// The old positions of the matched children, in the order of the new list.
pub open spec fn matched_positions(m: Seq<Option<usize>>) -> Seq<usize>
    decreases m.len(),
{
    if m.len() == 0 {
        Seq::empty()
    } else {
        let r = matched_positions(m.drop_last());
        match m.last() {
            Some(i) => r.push(i),
            None => r,
        }
    }
}

/// `len` is the length of a longest increasing subsequence of `s`.
pub open spec fn is_lis_len(s: Seq<usize>, len: nat) -> bool {
    &&& exists|idx: Seq<int>| #[trigger] is_increasing_pick(s, idx) && idx.len() == len
    &&& forall|idx: Seq<int>| #[trigger] is_increasing_pick(s, idx) ==> idx.len() <= len
}

/// Every old child is matched with some new child.
pub open spec fn all_old_matched(m: Seq<Option<usize>>, n_old: nat) -> bool {
    forall|i: int| 0 <= i < n_old ==> #[trigger] old_is_matched(m, i)
}

/// Old child `i` is matched with some new child.
pub open spec fn old_is_matched(m: Seq<Option<usize>>, i: int) -> bool {
    exists|j: int| 0 <= j < m.len() && m[j] == Some(i as usize)
}

/// Every new child is matched with some old child.
pub open spec fn all_new_matched(m: Seq<Option<usize>>) -> bool {
    forall|j: int| 0 <= j < m.len() ==> #[trigger] m[j] is Some
}

/// Requirements shared by the child-level steps.
pub open spec fn child_step_ok(m: Seq<Option<usize>>, old_idx: Seq<usize>, parent: usize, lo: int, hi: int) -> bool {
    &&& lo <= parent < hi
    &&& forall|i: int| 0 <= i < old_idx.len() ==> lo <= #[trigger] old_idx[i] < hi
    &&& forall|j: int| 0 <= j < m.len() ==> match #[trigger] m[j] {
        Some(i) => i < old_idx.len(),
        None => true,
    }
}

proof fn lemma_matched_positions_step(m: Seq<Option<usize>>, j: int)
    requires
        0 <= j < m.len(),
    ensures
        matched_positions(m.subrange(0, j + 1)) == match m[j] {
            Some(i) => matched_positions(m.subrange(0, j)).push(i),
            None => matched_positions(m.subrange(0, j)),
        },
{
    assert(m.subrange(0, j + 1).drop_last() =~= m.subrange(0, j));
}

/// The patch removes, from element `parent`, exactly the nodes `gone`.
pub open spec fn removes_exactly(pt: PatchM, parent: nat, gone: Set<nat>) -> bool {
    match pt {
        PatchM::RemoveChildren { parent: q, children } => q == parent
            && forall|x: nat| #[trigger] children.contains(x) <==> gone.contains(x),
        _ => false,
    }
}

/// The indices of the old children that no new child is matched with.
pub open spec fn unmatched_indices(m: Seq<Option<usize>>, old_idx: Seq<usize>) -> Set<nat> {
    Set::new(|x: nat| exists|i: int| 0 <= i < old_idx.len() && !old_is_matched(m, i) && x == old_idx[i] as nat)
}

/// The removal of the old children that no new child is matched with.
fn removals(m: &Vec<Option<usize>>, old_idx: &Vec<usize>, parent: usize, lo: Ghost<int>, hi: Ghost<int>) -> (r: Vec<Patch>)
    requires
        child_step_ok(m@, old_idx@, parent, lo@, hi@),
    ensures
        all_within(patches_view(r@), lo@, hi@),
        r@.len() <= 1,
        r@.len() == 1 <==> !all_old_matched(m@, old_idx@.len() as nat),
        r@.len() == 1 ==> removes_exactly(patches_view(r@)[0], parent as nat, unmatched_indices(m@, old_idx@)),
        forall|t: int| 0 <= t < r@.len() ==> #[trigger] r@[t] is RemoveChildren,
{
    let n = old_idx.len();
    let mut used: Vec<bool> = Vec::new();
    let mut i: usize = 0;
    while i < n
        invariant
            n == old_idx@.len(),
            i <= n,
            used@.len() == i,
            forall|k: int| 0 <= k < i ==> !#[trigger] used@[k],
        decreases n - i,
    {
        used.push(false);
        i = i + 1;
    }
    let mut j: usize = 0;
    while j < m.len()
        invariant
            child_step_ok(m@, old_idx@, parent, lo@, hi@),
            n == old_idx@.len(),
            used@.len() == n,
            j <= m@.len(),
            forall|k: int| 0 <= k < n ==> #[trigger] used@[k] == exists|j2: int| 0 <= j2 < j && m@[j2] == Some(k as usize),
        decreases m@.len() - j,
    {
        match m[j] {
            Some(i) => {
                used.set(i, true);
            },
            None => {},
        }
        proof {
            assert forall|k: int| 0 <= k < n implies #[trigger] used@[k] == exists|j2: int| 0 <= j2 < j + 1 && m@[j2] == Some(k as usize) by {
                if exists|j2: int| 0 <= j2 < j + 1 && m@[j2] == Some(k as usize) {
                    let j2 = choose|j2: int| 0 <= j2 < j + 1 && m@[j2] == Some(k as usize);
                    if j2 < j {
                        assert(exists|j3: int| 0 <= j3 < j && m@[j3] == Some(k as usize));
                    }
                }
            }
        }
        j = j + 1;
    }
    proof {
        assert forall|k: int| 0 <= k < n implies #[trigger] used@[k] == old_is_matched(m@, k) by {}
    }
    let mut gone: Vec<usize> = Vec::new();
    let mut i: usize = 0;
    while i < n
        invariant
            child_step_ok(m@, old_idx@, parent, lo@, hi@),
            n == old_idx@.len(),
            used@.len() == n,
            forall|k: int| 0 <= k < n ==> #[trigger] used@[k] == old_is_matched(m@, k),
            i <= n,
            forall|t: int| 0 <= t < gone@.len() ==> lo@ <= #[trigger] gone@[t] < hi@,
            forall|t: int| 0 <= t < gone@.len() ==> exists|k: int| 0 <= k < i && !used@[k] && #[trigger] gone@[t] == old_idx@[k],
            forall|k: int| 0 <= k < i && !#[trigger] used@[k] ==> gone@.contains(old_idx@[k]),
            gone@.len() == 0 <==> forall|k: int| 0 <= k < i ==> #[trigger] used@[k],
        decreases n - i,
    {
        if !used[i] {
            let ghost prev = gone@;
            gone.push(old_idx[i]);
            proof {
                assert(gone@[gone@.len() - 1] == old_idx@[i as int]);
                assert forall|k: int| 0 <= k < i && !#[trigger] used@[k] implies gone@.contains(old_idx@[k]) by {
                    assert(prev.contains(old_idx@[k]));
                    let t = choose|t: int| 0 <= t < prev.len() && prev[t] == old_idx@[k];
                    assert(gone@[t] == old_idx@[k]);
                }
                assert forall|t: int| 0 <= t < gone@.len() implies exists|k: int| 0 <= k < i + 1 && !used@[k] && #[trigger] gone@[t] == old_idx@[k] by {
                    if t < prev.len() {
                        assert(gone@[t] == prev[t]);
                    } else {
                        assert(gone@[t] == old_idx@[i as int]);
                    }
                }
            }
        }
        proof {
            assert forall|k: int| 0 <= k < i + 1 && !#[trigger] used@[k] implies gone@.contains(old_idx@[k]) by {
                if k == i {
                    assert(gone@[gone@.len() - 1] == old_idx@[k]);
                }
            }
        }
        i = i + 1;
    }
    if gone.len() == 0 {
        proof {
            assert forall|k: int| 0 <= k < n implies #[trigger] old_is_matched(m@, k) by {
                assert(used@[k]);
            }
        }
        Vec::new()
    } else {
        proof {
            let k = choose|k: int| 0 <= k < n && !#[trigger] used@[k];
            assert(!old_is_matched(m@, k));
        }
        let ghost gv = gone@;
        let r = vec![Patch::RemoveChildren { parent, children: gone }];
        proof {
            assert(targets_within(patches_view(r@)[0], lo@, hi@)) by {
                assert forall|t: int| 0 <= t < gv.len() implies lo@ <= #[trigger] nats_view(gv)[t] < hi@ by {
                    assert(lo@ <= gv[t] < hi@);
                }
            }
            let cv = nats_view(gv);
            let um = unmatched_indices(m@, old_idx@);
            assert forall|x: nat| #[trigger] cv.contains(x) <==> um.contains(x) by {
                if cv.contains(x) {
                    let t = choose|t: int| 0 <= t < cv.len() && cv[t] == x;
                    assert(gv[t] as nat == x);
                    let k = choose|k: int| 0 <= k < n && !used@[k] && #[trigger] gv[t] == old_idx@[k];
                    assert(um.contains(x));
                }
                if um.contains(x) {
                    let k = choose|k: int| 0 <= k < old_idx@.len() && !old_is_matched(m@, k) && x == old_idx@[k] as nat;
                    assert(!used@[k]);
                    assert(gv.contains(old_idx@[k]));
                    let t = choose|t: int| 0 <= t < gv.len() && gv[t] == old_idx@[k];
                    assert(cv[t] == x);
                }
            }
        }
        r
    }
}

fn matched_list(m: &Vec<Option<usize>>, bound: usize) -> (vals: Vec<usize>)
    requires
        forall|j: int| 0 <= j < m@.len() ==> match #[trigger] m@[j] {
            Some(i) => i < bound,
            None => true,
        },
    ensures
        vals@ == matched_positions(m@),
        forall|t: int| 0 <= t < vals@.len() ==> #[trigger] vals@[t] < bound,
{
    let mut vals: Vec<usize> = Vec::new();
    let mut j: usize = 0;
    while j < m.len()
        invariant
            j <= m@.len(),
            vals@ == matched_positions(m@.subrange(0, j as int)),
            forall|t: int| 0 <= t < vals@.len() ==> #[trigger] vals@[t] < bound,
            forall|j2: int| 0 <= j2 < m@.len() ==> match #[trigger] m@[j2] {
                Some(i) => i < bound,
                None => true,
            },
        decreases m@.len() - j,
    {
        proof {
            lemma_matched_positions_step(m@, j as int);
        }
        match m[j] {
            Some(i) => {
                assert(m@[j as int] == Some(i));
                vals.push(i);
            },
            None => {},
        }
        j = j + 1;
    }
    assert(m@.subrange(0, m@.len() as int) =~= m@);
    vals
}

/// The moves for the matched children at positions `t ..` of the new
/// order, from the last to the first: each child whose position is not in
/// `keep` goes just before the matched child that follows it in the new
/// order, or after the last child when it is the last one.
pub open spec fn move_plan(vals: Seq<usize>, keep: Seq<usize>, old_idx: Seq<usize>, parent: nat, t: int) -> Seq<PatchM>
    decreases vals.len() - t,
{
    if t < 0 || t >= vals.len() {
        Seq::empty()
    } else {
        move_plan(vals, keep, old_idx, parent, t + 1) + if keep.contains(t as usize) {
            Seq::empty()
        } else {
            seq![PatchM::MoveChildrenBefore {
                parent,
                child: old_idx[vals[t] as int] as nat,
                before: if t + 1 < vals.len() { Some(old_idx[vals[t + 1] as int] as nat) } else { None },
            }]
        }
    }
}

/// The insertions for the new children from position `j` on, where the
/// unmatched run pending since `start` has not been placed yet: a run goes
/// just before the matched child that ends it, or after the last child.
pub open spec fn insert_plan(m: Seq<Option<usize>>, old_idx: Seq<usize>, ns: Seq<NodeM>, parent: nat, j: int, start: int) -> Seq<PatchM>
    decreases m.len() - j,
{
    if j < 0 || j >= m.len() {
        if 0 <= start < m.len() {
            seq![PatchM::AppendChildren { parent, children: ns.subrange(start, m.len() as int) }]
        } else {
            Seq::empty()
        }
    } else {
        match m[j] {
            Some(i) => (if start < j {
                seq![PatchM::InsertChildrenBefore { before: old_idx[i as int] as nat, children: ns.subrange(start, j) }]
            } else {
                Seq::empty()
            }) + insert_plan(m, old_idx, ns, parent, j + 1, j + 1),
            None => insert_plan(m, old_idx, ns, parent, j + 1, start),
        }
    }
}

/// The moves that put the matched children in the new order. Those on a
/// longest increasing run of old positions stay; the others are moved,
/// from the last to the first, each before the child that follows it.
fn moves(m: &Vec<Option<usize>>, old_idx: &Vec<usize>, parent: usize, lo: Ghost<int>, hi: Ghost<int>) -> (r: Vec<Patch>)
    requires
        child_step_ok(m@, old_idx@, parent, lo@, hi@),
    ensures
        all_within(patches_view(r@), lo@, hi@),
        forall|t: int| 0 <= t < r@.len() ==> #[trigger] r@[t] is MoveChildrenBefore,
        exists|len: nat| is_lis_len(matched_positions(m@), len) && r@.len() + len == matched_positions(m@).len(),
        exists|keep: Seq<usize>| #![trigger move_plan(matched_positions(m@), keep, old_idx@, parent as nat, 0)]
            is_increasing_pick(matched_positions(m@), keep.map_values(|p: usize| p as int))
            && is_lis_len(matched_positions(m@), keep.len())
            && patches_view(r@) == move_plan(matched_positions(m@), keep, old_idx@, parent as nat, 0),
{
    let vals = matched_list(m, old_idx.len());
    let keep = longest_increasing(&vals);
    let ghost kv = keep@.map_values(|p: usize| p as int);
    proof {
        assert(is_increasing_pick(vals@, kv));
        assert(is_lis_len(vals@, keep@.len() as nat));
    }
    let n = vals.len();
    proof {
        assert forall|a: int, b: int| 0 <= a < b < keep@.len() implies #[trigger] keep@[a] < #[trigger] keep@[b] by {
            lemma_pick_sorted(vals@, kv, a, b);
        }
        assert forall|u: int| 0 <= u < keep@.len() implies #[trigger] keep@[u] < n by {
            assert(kv[u] == keep@[u] as int);
        }
    }
    let mut r: Vec<Patch> = Vec::new();
    let mut q: usize = keep.len();
    let mut t: usize = n;
    while t > 0
        invariant
            child_step_ok(m@, old_idx@, parent, lo@, hi@),
            n == vals@.len(),
            forall|t2: int| 0 <= t2 < vals@.len() ==> #[trigger] vals@[t2] < old_idx@.len(),
            forall|a: int, b: int| 0 <= a < b < keep@.len() ==> #[trigger] keep@[a] < #[trigger] keep@[b],
            t <= n,
            q <= keep@.len(),
            forall|u: int| q <= u < keep@.len() ==> #[trigger] keep@[u] >= t,
            forall|u: int| 0 <= u < q ==> #[trigger] keep@[u] < t,
            r@.len() + (keep@.len() - q) == n - t,
            all_within(patches_view(r@), lo@, hi@),
            forall|k: int| 0 <= k < r@.len() ==> #[trigger] r@[k] is MoveChildrenBefore,
            patches_view(r@) == move_plan(vals@, keep@, old_idx@, parent as nat, t as int),
        decreases t,
    {
        t = t - 1;
        if q > 0 && keep[q - 1] == t {
            q = q - 1;
            proof {
                assert forall|u: int| 0 <= u < q implies #[trigger] keep@[u] < t by {
                    assert(keep@[u] < keep@[q as int]);
                }
                assert(keep@[q as int] == t);
                assert(keep@.contains(t));
                assert(move_plan(vals@, keep@, old_idx@, parent as nat, t as int) =~= move_plan(vals@, keep@, old_idx@, parent as nat, t + 1));
            }
        } else {
            proof {
                assert(!keep@.contains(t)) by {
                    if keep@.contains(t) {
                        let u = choose|u: int| 0 <= u < keep@.len() && keep@[u] == t;
                        if u >= q {
                            assert(keep@[u] >= t + 1);
                        } else if u < q - 1 {
                            assert(keep@[u] < keep@[q - 1]);
                        }
                    }
                }
            }
            let before = if t + 1 < n { Some(old_idx[vals[t + 1]]) } else { None };
            let ghost prev = patches_view(r@);
            r.push(Patch::MoveChildrenBefore { parent, child: old_idx[vals[t]], before });
            proof {
                assert(patches_view(r@) =~= prev.push(r@[r@.len() - 1]@));
                assert(patches_view(r@) =~= move_plan(vals@, keep@, old_idx@, parent as nat, t as int));
            }
        }
    }
    proof {
        if q > 0 {
            assert(keep@[0] < 0);
        }
        assert(keep@.map_values(|p: usize| p as int) == kv);
    }
    r
}

/// The positions that an increasing pick names increase strictly.
pub proof fn lemma_pick_sorted(s: Seq<usize>, idx: Seq<int>, a: int, b: int)
    requires
        is_increasing_pick(s, idx),
        0 <= a < b < idx.len(),
    ensures
        idx[a] < idx[b],
    decreases b - a,
{
    if a + 1 < b {
        lemma_pick_sorted(s, idx, a, b - 1);
    }
    assert(idx[b - 1] < idx[b]);
}

/// The insertions of the new children that are matched with no old child:
/// each run of them goes before the next matched child, or after the last
/// child when none follows.
fn inserts(m: &Vec<Option<usize>>, old_idx: &Vec<usize>, new: &Vec<Node>, parent: usize, lo: Ghost<int>, hi: Ghost<int>) -> (r: Vec<Patch>)
    requires
        child_step_ok(m@, old_idx@, parent, lo@, hi@),
        m@.len() == new@.len(),
    ensures
        all_within(patches_view(r@), lo@, hi@),
        all_new_matched(m@) <==> r@.len() == 0,
        forall|t: int| 0 <= t < r@.len() ==> #[trigger] r@[t] is InsertChildrenBefore || r@[t] is AppendChildren,
        patches_view(r@) == insert_plan(m@, old_idx@, nodes_view(new@), parent as nat, 0, 0),
{
    let n = new.len();
    let mut r: Vec<Patch> = Vec::new();
    let mut start: usize = 0;
    let mut j: usize = 0;
    while j < n
        invariant
            child_step_ok(m@, old_idx@, parent, lo@, hi@),
            m@.len() == new@.len(),
            n == new@.len(),
            start <= j <= n,
            (forall|j2: int| 0 <= j2 < j ==> #[trigger] m@[j2] is Some) ==> (r@.len() == 0 && start == j),
            forall|j2: int| 0 <= j2 < j && #[trigger] m@[j2] is None ==> (r@.len() > 0 || j2 >= start),
            forall|j2: int| start <= j2 < j ==> #[trigger] m@[j2] is None,
            r@.len() > 0 ==> exists|j2: int| 0 <= j2 < j && #[trigger] m@[j2] is None,
            all_within(patches_view(r@), lo@, hi@),
            forall|t: int| 0 <= t < r@.len() ==> #[trigger] r@[t] is InsertChildrenBefore || r@[t] is AppendChildren,
            patches_view(r@) + insert_plan(m@, old_idx@, nodes_view(new@), parent as nat, j as int, start as int)
                == insert_plan(m@, old_idx@, nodes_view(new@), parent as nat, 0, 0),
        decreases n - j,
    {
        match m[j] {
            Some(i) => {
                if start < j {
                    proof {
                        assert(m@[start as int] is None);
                    }
                    let group = copy_nodes(new, start, j);
                    let ghost prev = patches_view(r@);
                    r.push(Patch::InsertChildrenBefore { before: old_idx[i], children: group });
                    proof {
                        assert(patches_view(r@) =~= prev.push(r@[r@.len() - 1]@));
                        let rest = insert_plan(m@, old_idx@, nodes_view(new@), parent as nat, j + 1, j + 1);
                        assert(prev + (seq![r@[r@.len() - 1]@] + rest) =~= patches_view(r@) + rest);
                    }
                } else {
                    proof {
                        let rest = insert_plan(m@, old_idx@, nodes_view(new@), parent as nat, j + 1, j + 1);
                        assert(Seq::<PatchM>::empty() + rest =~= rest);
                    }
                }
                start = j + 1;
            },
            None => {},
        }
        j = j + 1;
    }
    proof {
        if r@.len() == 0 && start == n {
            assert forall|j2: int| 0 <= j2 < m@.len() implies #[trigger] m@[j2] is Some by {
                if m@[j2] is None {
                    assert(j2 >= start);
                }
            }
        }
    }
    if start < n {
        proof {
            assert(m@[start as int] is None);
        }
        let group = copy_nodes(new, start, n);
        let ghost prev = patches_view(r@);
        r.push(Patch::AppendChildren { parent, children: group });
        proof {
            assert(patches_view(r@) =~= prev.push(r@[r@.len() - 1]@));
        }
    } else {
        proof {
            assert(patches_view(r@) + Seq::<PatchM>::empty() =~= patches_view(r@));
        }
    }
    r
}

/// What the patches of two nodes of the same kind are: a changed text, or
/// for elements the shape that `element_shape` states.
pub open spec fn in_place_ok(old: NodeM, new: NodeM, index: nat, r: Seq<PatchM>) -> bool {
    match (old, new) {
        (NodeM::Text(a), NodeM::Text(b)) => r == text_patches(index, a, b),
        (NodeM::Comment(a), NodeM::Comment(b)) => r == text_patches(index, a, b),
        (NodeM::Element { tag: t1, namespace: n1, attrs: a1, .. }, NodeM::Element { tag: t2, namespace: n2, attrs: a2, .. }) =>
            (t1 == t2 && n1 == n2) ==> starts_with_attr_patches(r, index, a1, a2) && element_shape(old, new, index, r),
        _ => true,
    }
}

proof fn lemma_append_view(a: Seq<Patch>, b: Seq<Patch>)
    ensures
        patches_view(a + b) == patches_view(a) + patches_view(b),
{
    assert(patches_view(a + b) =~= patches_view(a) + patches_view(b));
}

proof fn lemma_within_widen(s: Seq<PatchM>, lo: int, hi: int, lo2: int, hi2: int)
    requires
        all_within(s, lo, hi),
        lo2 <= lo,
        hi <= hi2,
    ensures
        all_within(s, lo2, hi2),
{
    assert forall|t: int| 0 <= t < s.len() implies targets_within(#[trigger] s[t], lo2, hi2) by {
        assert(targets_within(s[t], lo, hi));
    }
}

proof fn lemma_within_append(a: Seq<PatchM>, b: Seq<PatchM>, lo: int, hi: int)
    requires
        all_within(a, lo, hi),
        all_within(b, lo, hi),
    ensures
        all_within(a + b, lo, hi),
{
    assert forall|t: int| 0 <= t < (a + b).len() implies targets_within(#[trigger] (a + b)[t], lo, hi) by {
        if t < a.len() {
            assert(targets_within(a[t], lo, hi));
        } else {
            assert(targets_within(b[t - a.len()], lo, hi));
        }
    }
}

/// The patch applies, to element `index`, attribute `name` with these values.
pub open spec fn applies_attr(p: PatchM, index: nat, name: Seq<char>, values: Seq<ValueM>) -> bool {
    match p {
        PatchM::AddAttributes { index: i, attrs } => i == index
            && exists|j: int| 0 <= j < attrs.len() && #[trigger] attrs[j].name == name && attrs[j].values == values,
        _ => false,
    }
}

/// When two elements of one tag are diffed, every attribute of the new
/// one whose values include a side-effecting one is in the first patch,
/// an `AddAttributes` of the element, with its merged values; this holds
/// also when the old element had the very same values.
pub open spec fn reapplies_calls(old: NodeM, new: NodeM, index: nat, r: Seq<PatchM>) -> bool {
    match (old, new) {
        (NodeM::Element { tag: t1, namespace: n1, .. }, NodeM::Element { tag: t2, namespace: n2, attrs: a2, .. }) =>
            (t1 == t2 && n1 == n2) ==> forall|k: Seq<char>| #[trigger] has_call(merged(a2, k)) ==> r.len() > 0 && applies_attr(r[0], index, k, merged(a2, k)),
        _ => true,
    }
}

/// Side-effecting attribute values are always applied again.
pub proof fn lemma_reapplies_calls(old: NodeM, new: NodeM, index: nat, r: Seq<PatchM>)
    requires
        in_place_ok(old, new, index, r),
    ensures
        reapplies_calls(old, new, index, r),
{
    match (old, new) {
        (NodeM::Element { tag: t1, namespace: n1, attrs: a1, .. }, NodeM::Element { tag: t2, namespace: n2, attrs: a2, .. }) => {
            if t1 == t2 && n1 == n2 {
                assert forall|k: Seq<char>| #[trigger] has_call(merged(a2, k)) implies r.len() > 0 && applies_attr(r[0], index, k, merged(a2, k)) by {
                    let (add, rem) = choose|add: Seq<AttrM>, rem: Seq<Seq<char>>|
                        is_add_list(a1, a2, add) && is_remove_list(a1, a2, rem)
                            && attr_patches(index, add, rem).len() <= r.len()
                            && #[trigger] attr_patches(index, add, rem) == r.subrange(0, attr_patches(index, add, rem).len() as int);
                    let i = choose|i: int| 0 <= i < merged(a2, k).len() && #[trigger] merged(a2, k)[i] is FunctionCall;
                    assert(to_add(a1, a2, k));
                    let j = choose|j: int| 0 <= j < add.len() && #[trigger] add[j].name == k;
                    let ap = attr_patches(index, add, rem);
                    assert(ap[0] == PatchM::AddAttributes { index, attrs: add });
                    assert(r[0] == r.subrange(0, ap.len() as int)[0]);
                    assert(add[j].values == merged(a2, add[j].name));
                }
            }
        },
        _ => {},
    }
}

/// The removal step's patches: none when every old child is matched, else
/// one patch that removes exactly the unmatched ones.
pub open spec fn removal_ok(rr: Seq<PatchM>, m: Seq<Option<usize>>, old_idx: Seq<usize>, parent: nat) -> bool {
    &&& rr.len() <= 1
    &&& rr.len() == 1 <==> !all_old_matched(m, old_idx.len() as nat)
    &&& rr.len() == 1 ==> removes_exactly(rr[0], parent, unmatched_indices(m, old_idx))
}

/// The patches of two elements of one tag, given the matching `m` of their
/// children, the old children's indices `old_idx`, the attribute lists
/// `add` and `rem`, the patches `subs` of the matched pairs, the removal
/// `rr` and the kept run `keep`: attribute patches, then the patches of
/// the matched pairs (which name only descendants), then the removal, the
/// moves and the insertions.
pub open spec fn shape_with(
    old: NodeM,
    new: NodeM,
    idx: nat,
    r: Seq<PatchM>,
    m: Seq<Option<usize>>,
    old_idx: Seq<usize>,
    add: Seq<AttrM>,
    rem: Seq<Seq<char>>,
    subs: Seq<PatchM>,
    rr: Seq<PatchM>,
    keep: Seq<usize>,
) -> bool {
    let cs = old->children;
    let ncs = new->children;
    &&& is_matching(cs, ncs, m)
    &&& old_idx.len() == cs.len()
    &&& forall|i: int| 0 <= i < cs.len() ==> #[trigger] old_idx[i] == child_index(idx, cs, i)
    &&& is_add_list(old->attrs, new->attrs, add)
    &&& is_remove_list(old->attrs, new->attrs, rem)
    &&& all_within(subs, (idx + 1) as int, (idx + size(old)) as int)
    &&& removal_ok(rr, m, old_idx, idx)
    &&& is_increasing_pick(matched_positions(m), keep.map_values(|p: usize| p as int))
    &&& is_lis_len(matched_positions(m), keep.len())
    &&& r == attr_patches(idx, add, rem) + subs + rr + move_plan(matched_positions(m), keep, old_idx, idx, 0)
        + insert_plan(m, old_idx, ncs, idx, 0, 0)
}

/// The patches of two elements of one tag have the shape `shape_with` gives.
pub open spec fn element_shape(old: NodeM, new: NodeM, idx: nat, r: Seq<PatchM>) -> bool {
    exists|m: Seq<Option<usize>>, old_idx: Seq<usize>, add: Seq<AttrM>, rem: Seq<Seq<char>>, subs: Seq<PatchM>,
        rr: Seq<PatchM>, keep: Seq<usize>| #[trigger] shape_with(old, new, idx, r, m, old_idx, add, rem, subs, rr, keep)
}

/// How a patch list was built: for two elements of one tag, the
/// choices of `shape_with` and, for each new child, the trace and patches
/// of its matched pair.
pub enum DiffTrace {
    Leaf,
    Elem {
        m: Seq<Option<usize>>,
        old_idx: Seq<usize>,
        add: Seq<AttrM>,
        rem: Seq<Seq<char>>,
        rr: Seq<PatchM>,
        keep: Seq<usize>,
        subs: Seq<(DiffTrace, Seq<PatchM>)>,
    },
}

/// The patches of the entries, one after the other.
pub open spec fn flat(subs: Seq<(DiffTrace, Seq<PatchM>)>) -> Seq<PatchM>
    decreases subs.len(),
{
    if subs.len() == 0 {
        Seq::empty()
    } else {
        flat(subs.drop_last()) + subs.last().1
    }
}

/// `r` is the patch list of `old` (at index `idx`) against `new`, as `t`
/// records it: a replacement, a text change, or for elements of one tag
/// the shape of `shape_with` whose matched pairs' patches are, in turn,
/// their own patch lists.
pub open spec fn trace_ok(t: DiffTrace, old: NodeM, new: NodeM, idx: nat, r: Seq<PatchM>) -> bool
    decreases t,
{
    if replaced(old, new) {
        r == seq![PatchM::Replace { index: idx, node: new }]
    } else {
        match (old, new) {
            (NodeM::Text(a), NodeM::Text(b)) => r == text_patches(idx, a, b),
            (NodeM::Comment(a), NodeM::Comment(b)) => r == text_patches(idx, a, b),
            (NodeM::Element { children: cs, .. }, NodeM::Element { children: ncs, .. }) => match t {
                DiffTrace::Elem { m, old_idx, add, rem, rr, keep, subs } => {
                    &&& shape_with(old, new, idx, r, m, old_idx, add, rem, flat(subs), rr, keep)
                    &&& subs.len() == ncs.len()
                    &&& subs_ok(subs, cs, ncs, m, old_idx)
                },
                DiffTrace::Leaf => false,
            },
            _ => false,
        }
    }
}

/// Each entry `j` of `subs` is empty for an unmatched new child, and for a
/// matched one the patch list of its pair, at the old child's index.
pub open spec fn subs_ok(
    subs: Seq<(DiffTrace, Seq<PatchM>)>,
    cs: Seq<NodeM>,
    ncs: Seq<NodeM>,
    m: Seq<Option<usize>>,
    old_idx: Seq<usize>,
) -> bool
    decreases subs,
{
    if subs.len() == 0 {
        true
    } else {
        let j = subs.len() - 1;
        &&& subs_ok(subs.subrange(0, j), cs, ncs, m, old_idx)
        &&& 0 <= j < m.len()
        &&& match m[j] {
            Some(i) => i < cs.len() && i < old_idx.len() && j < ncs.len()
                && trace_ok(subs[j].0, cs[i as int], ncs[j], old_idx[i as int] as nat, subs[j].1),
            None => subs[j].1.len() == 0,
        }
    }
}

/// A tree that diffs to nothing against itself: no attribute value has a
/// side effect, and no two children of one element share a key.
pub open spec fn plain_tree(n: NodeM) -> bool
    decreases n,
{
    match n {
        NodeM::Element { attrs, children, .. } => no_calls(attrs) && keys_unique(children) && plain_forest(children),
        _ => true,
    }
}

/// Every tree of the list is a `plain_tree`.
pub open spec fn plain_forest(s: Seq<NodeM>) -> bool
    decreases s,
{
    if s.len() == 0 {
        true
    } else {
        plain_forest(s.subrange(0, s.len() - 1)) && plain_tree(s[s.len() - 1])
    }
}

proof fn lemma_plain_forest(s: Seq<NodeM>, i: int)
    requires
        plain_forest(s),
        0 <= i < s.len(),
    ensures
        plain_tree(s[i]),
    decreases s.len(),
{
    if i < s.len() - 1 {
        lemma_plain_forest(s.subrange(0, s.len() - 1), i);
    }
}

/// New child `j` is matched with old child `j`.
pub open spec fn self_paired(m: Seq<Option<usize>>, j: int) -> bool {
    match m[j] {
        Some(i) => i == j,
        None => false,
    }
}

proof fn lemma_plain_child(n: NodeM, i: int)
    requires
        plain_tree(n),
        n is Element,
        0 <= i < n->children.len(),
    ensures
        plain_tree(n->children[i]),
{
    lemma_plain_forest(n->children, i);
}

proof fn lemma_identity_positions(m: Seq<Option<usize>>)
    requires
        forall|j: int| 0 <= j < m.len() ==> #[trigger] self_paired(m, j),
    ensures
        matched_positions(m).len() == m.len(),
        forall|t: int| 0 <= t < m.len() ==> #[trigger] matched_positions(m)[t] == t,
    decreases m.len(),
{
    if m.len() > 0 {
        let d = m.drop_last();
        assert forall|j: int| 0 <= j < d.len() implies #[trigger] self_paired(d, j) by {
            assert(d[j] == m[j]);
            assert(self_paired(m, j));
        }
        lemma_identity_positions(d);
        assert(self_paired(m, m.len() - 1));
    }
}

/// A list whose values increase strictly is its own longest increasing subsequence.
proof fn lemma_identity_lis(s: Seq<usize>, len: nat)
    requires
        forall|t: int| 0 <= t < s.len() ==> #[trigger] s[t] == t,
        is_lis_len(s, len),
    ensures
        len >= s.len(),
{
    let idx = Seq::new(s.len(), |t: int| t);
    assert(is_increasing_pick(s, idx));
}

/// Two elements of one tag and namespace with the same attributes, none
/// of them side-effecting.
pub open spec fn same_shell(old: NodeM, new: NodeM) -> bool {
    match (old, new) {
        (NodeM::Element { tag: t1, namespace: n1, attrs: a1, .. }, NodeM::Element { tag: t2, namespace: n2, attrs: a2, .. }) =>
            t1 == t2 && n1 == n2 && a1 == a2 && no_calls(a1),
        _ => false,
    }
}

/// The new children are copies of old ones: new child `j` is old child
/// `p[j]`. Every child has a key, no key repeats in either list, and the
/// old children are plain trees.
pub open spec fn keyed_selection(old: Seq<NodeM>, new: Seq<NodeM>, p: Seq<usize>) -> bool {
    &&& p.len() == new.len()
    &&& forall|j: int| 0 <= j < new.len() ==> #[trigger] p[j] < old.len() && new[j] == old[p[j] as int]
    &&& forall|i: int| 0 <= i < old.len() ==> #[trigger] key_of(old[i]) is Some
    &&& keys_unique(old)
    &&& keys_unique(new)
    &&& plain_forest(old)
}

/// Old child `i` is picked by `p`.
pub open spec fn selected(p: Seq<usize>, i: int) -> bool {
    exists|j: int| 0 <= j < p.len() && p[j] == i
}

/// Every old child is picked by `p`.
pub open spec fn all_selected(p: Seq<usize>, n_old: nat) -> bool {
    forall|i: int| 0 <= i < n_old ==> #[trigger] selected(p, i)
}

/// The indices of the old children of element `parent` that `p` leaves out.
pub open spec fn unselected_indices(parent: nat, cs: Seq<NodeM>, p: Seq<usize>) -> Set<nat> {
    Set::new(|x: nat| exists|i: int| 0 <= i < cs.len() && !selected(p, i) && x == child_index(parent, cs, i))
}

/// The patches of a selection: one removal of exactly the children left
/// out, if any, then the moves, as many as the children outside a longest
/// run of the selection that keeps the old order.
pub open spec fn selection_ok(r: Seq<PatchM>, parent: nat, cs: Seq<NodeM>, p: Seq<usize>) -> bool {
    let all = all_selected(p, cs.len());
    &&& exists|len: nat| is_lis_len(p, len) && r.len() + len == p.len() + (if all { 0int } else { 1int })
    &&& all ==> forall|t: int| 0 <= t < r.len() ==> #[trigger] r[t] is MoveChildrenBefore
    &&& !all ==> r.len() > 0 && removes_exactly(r[0], parent, unselected_indices(parent, cs, p))
        && forall|t: int| 1 <= t < r.len() ==> #[trigger] r[t] is MoveChildrenBefore
}

proof fn lemma_selection_unique(old: Seq<NodeM>, new: Seq<NodeM>, p: Seq<usize>, p2: Seq<usize>)
    requires
        keyed_selection(old, new, p),
        keyed_selection(old, new, p2),
    ensures
        p == p2,
{
    assert forall|j: int| 0 <= j < p.len() implies p[j] == p2[j] by {
        let a = p[j] as int;
        let b = p2[j] as int;
        assert(old[a] == new[j] && old[b] == new[j]);
        if a < b {
            assert(key_of(old[a]) != key_of(old[b]));
        } else if b < a {
            assert(key_of(old[b]) != key_of(old[a]));
        }
    }
    assert(p =~= p2);
}

proof fn lemma_selection_matching(old: Seq<NodeM>, new: Seq<NodeM>, p: Seq<usize>, m: Seq<Option<usize>>)
    requires
        keyed_selection(old, new, p),
        is_matching(old, new, m),
    ensures
        forall|j: int| 0 <= j < new.len() ==> #[trigger] m[j] == Some(p[j]),
{
    assert forall|j: int| 0 <= j < new.len() implies #[trigger] m[j] == Some(p[j]) by {
        let i = p[j] as int;
        assert(new[j] == old[i]);
        let k = key_of(old[i])->0;
        assert forall|j2: int| 0 <= j2 < j implies key_of(#[trigger] new[j2]) != Some(k) by {
            assert(key_of(new[j2]) != key_of(new[j]));
        }
        assert forall|i2: int| 0 <= i2 < i implies key_of(#[trigger] old[i2]) != Some(k) by {
            assert(key_of(old[i2]) != key_of(old[i]));
        }
        assert(pairs_with(old, new, j, i));
        match m[j] {
            Some(i3) => {
                lemma_first_key_unique(old, i3 as int, i, k);
            },
            None => {},
        }
    }
}

proof fn lemma_all_matched_positions(m: Seq<Option<usize>>, p: Seq<usize>)
    requires
        p.len() == m.len(),
        forall|j: int| 0 <= j < m.len() ==> #[trigger] m[j] == Some(p[j]),
    ensures
        matched_positions(m) == p,
    decreases m.len(),
{
    if m.len() > 0 {
        let d = m.drop_last();
        let pd = p.drop_last();
        assert forall|j: int| 0 <= j < d.len() implies #[trigger] d[j] == Some(pd[j]) by {
            assert(d[j] == m[j]);
        }
        lemma_all_matched_positions(d, pd);
        assert(m[m.len() - 1] == Some(p[p.len() - 1]));
        assert(p =~= pd.push(p[p.len() - 1]));
    }
}

/// An increasing pick is no longer than the list.
pub proof fn lemma_pick_len(s: Seq<usize>, idx: Seq<int>)
    requires
        is_increasing_pick(s, idx),
    ensures
        idx.len() <= s.len(),
{
    if idx.len() > 0 {
        lemma_pick_at_least(s, idx, idx.len() - 1);
    }
}

proof fn lemma_pick_at_least(s: Seq<usize>, idx: Seq<int>, t: int)
    requires
        is_increasing_pick(s, idx),
        0 <= t < idx.len(),
    ensures
        idx[t] >= t,
    decreases t,
{
    if t > 0 {
        lemma_pick_at_least(s, idx, t - 1);
        assert(idx[t - 1] < idx[t]);
    }
}

/// The patches that turn the tree `old`, whose root has index `idx`, into `new`.
pub fn diff_node(old: &Node, new: &Node, idx: usize) -> (r: Vec<Patch>)
    requires
        idx + size(old@) <= usize::MAX,
    ensures
        all_within(patches_view(r@), idx as int, idx + size(old@)),
        replaced(old@, new@) ==> patches_view(r@) == seq![PatchM::Replace { index: idx as nat, node: new@ }],
        in_place_ok(old@, new@, idx as nat, patches_view(r@)),
        old@ == new@ && plain_tree(old@) ==> r@.len() == 0,
        r@.len() == 0 ==> same_view(old@, new@),
        forall|p: Seq<usize>| same_shell(old@, new@) && #[trigger] keyed_selection(old@->children, new@->children, p)
            ==> selection_ok(patches_view(r@), idx as nat, old@->children, p),
        exists|t: DiffTrace| #[trigger] trace_ok(t, old@, new@, idx as nat, patches_view(r@)),
    decreases size(old@),
{
    match old {
        Node::Element { tag: ot, namespace: ons, .. } => match new {
            Node::Element { tag: nt, namespace: nns, .. } => {
                if *ot == *nt && opt_string_eq(ons, nns) {
                    return diff_element(old, new, idx);
                }
            },
            _ => {},
        },
        Node::Text(a) => match new {
            Node::Text(b) => {
                if *a == *b {
                    let r: Vec<Patch> = Vec::new();
                    assert(patches_view(r@) =~= text_patches(idx as nat, a@, b@));
                    assert(trace_ok(DiffTrace::Leaf, old@, new@, idx as nat, patches_view(r@)));
                    return r;
                } else {
                    let r = vec![Patch::SetText { index: idx, text: b.clone() }];
                    assert(patches_view(r@) =~= text_patches(idx as nat, a@, b@));
                    assert(trace_ok(DiffTrace::Leaf, old@, new@, idx as nat, patches_view(r@)));
                    return r;
                }
            },
            _ => {},
        },
        Node::Comment(a) => match new {
            Node::Comment(b) => {
                if *a == *b {
                    let r: Vec<Patch> = Vec::new();
                    assert(patches_view(r@) =~= text_patches(idx as nat, a@, b@));
                    assert(trace_ok(DiffTrace::Leaf, old@, new@, idx as nat, patches_view(r@)));
                    return r;
                } else {
                    let r = vec![Patch::SetText { index: idx, text: b.clone() }];
                    assert(patches_view(r@) =~= text_patches(idx as nat, a@, b@));
                    assert(trace_ok(DiffTrace::Leaf, old@, new@, idx as nat, patches_view(r@)));
                    return r;
                }
            },
            _ => {},
        },
    }
    let r = vec![Patch::Replace { index: idx, node: copy_node(new) }];
    assert(patches_view(r@) =~= seq![PatchM::Replace { index: idx as nat, node: new@ }]);
    assert(trace_ok(DiffTrace::Leaf, old@, new@, idx as nat, patches_view(r@)));
    r
}

#[verifier::rlimit(40)]
fn diff_element(old: &Node, new: &Node, idx: usize) -> (r: Vec<Patch>)
    requires
        idx + size(old@) <= usize::MAX,
        old@ is Element,
        new@ is Element,
        !replaced(old@, new@),
    ensures
        all_within(patches_view(r@), idx as int, idx + size(old@)),
        starts_with_attr_patches(patches_view(r@), idx as nat, old@->attrs, new@->attrs),
        old@ == new@ && plain_tree(old@) ==> r@.len() == 0,
        r@.len() == 0 ==> same_attrs(old@->attrs, new@->attrs) && same_forest(old@->children, new@->children),
        forall|p: Seq<usize>| same_shell(old@, new@) && #[trigger] keyed_selection(old@->children, new@->children, p)
            ==> selection_ok(patches_view(r@), idx as nat, old@->children, p),
        element_shape(old@, new@, idx as nat, patches_view(r@)),
        exists|t: DiffTrace| #[trigger] trace_ok(t, old@, new@, idx as nat, patches_view(r@)),
    decreases size(old@), 0nat,
{
    let hi: Ghost<int> = Ghost(idx + size(old@));
    let (oa, oc) = match old {
        Node::Element { attrs, children, .. } => (attrs, children),
        _ => { return Vec::new(); },
    };
    let (na, nc) = match new {
        Node::Element { attrs, children, .. } => (attrs, children),
        _ => { return Vec::new(); },
    };
    let ghost cs = nodes_view(oc@);
    let ghost ncs = nodes_view(nc@);
    proof {
        lemma_nodes_view(oc@);
        lemma_nodes_view(nc@);
    }
    let mut r: Vec<Patch> = Vec::new();
    let (add, rem) = diff_attributes(oa, na);
    let ghost addv = attrs_view(add@);
    let ghost remv = strings_view(rem@);
    if add.len() > 0 {
        r.push(Patch::AddAttributes { index: idx, attrs: add });
    }
    if rem.len() > 0 {
        r.push(Patch::RemoveAttributes { index: idx, names: rem });
    }
    let ghost ap = attr_patches(idx as nat, addv, remv);
    let ghost same = old@ == new@ && plain_tree(old@);
    let ghost p = if exists|p: Seq<usize>| keyed_selection(cs, ncs, p) {
        choose|p: Seq<usize>| keyed_selection(cs, ncs, p)
    } else {
        Seq::empty()
    };
    let ghost sel = same_shell(old@, new@) && keyed_selection(cs, ncs, p);
    proof {
        if same || sel {
            lemma_attrs_unchanged(attrs_view(oa@), addv, remv);
        }
        assert(patches_view(r@) =~= ap);
        assert(all_within(ap, idx as int, hi@));
    }
    let old_idx = child_indices(oc, idx);
    let m = match_children(oc, nc);
    proof {
        if same {
            assert(cs == ncs);
            lemma_self_matching(cs, m@);
        }
        if sel {
            lemma_selection_matching(cs, ncs, p, m@);
        }
        assert forall|i: int| 0 <= i < old_idx@.len() implies idx < #[trigger] old_idx@[i] < hi@ by {
            lemma_child_range(idx as nat, cs, i);
        }
    }
    let ghost mut tr: Seq<(DiffTrace, Seq<PatchM>)> = Seq::empty();
    proof {
        assert(patches_view(r@).subrange(ap.len() as int, r@.len() as int) =~= Seq::<PatchM>::empty());
    }
    let mut j: usize = 0;
    while j < nc.len()
        invariant
            j <= nc@.len(),
            m@.len() == nc@.len(),
            is_matching(cs, ncs, m@),
            cs == nodes_view(oc@),
            cs.len() == oc@.len(),
            forall|k: int| 0 <= k < cs.len() ==> #[trigger] cs[k] == oc@[k]@,
            old_idx@.len() == oc@.len(),
            forall|i: int| 0 <= i < old_idx@.len() ==> #[trigger] old_idx@[i] == child_index(idx as nat, cs, i),
            size(old@) == 1 + forest_size(cs),
            hi@ == idx + size(old@),
            hi@ <= usize::MAX,
            all_within(patches_view(r@), idx as int, hi@),
            patches_view(r@).subrange(0, ap.len() as int) == ap,
            all_within(patches_view(r@).subrange(ap.len() as int, r@.len() as int), idx + 1, hi@),
            tr.len() == j,
            flat(tr) == patches_view(r@).subrange(ap.len() as int, r@.len() as int),
            subs_ok(tr, cs, ncs, m@, old_idx@),
            ap.len() <= r@.len(),
            same == (old@ == new@ && plain_tree(old@)),
            same ==> cs == ncs && r@.len() == 0 && plain_tree(old@),
            same ==> forall|j2: int| 0 <= j2 < nc@.len() ==> #[trigger] self_paired(m@, j2),
            old@ is Element && old@->children == cs,
            new@ is Element && new@->children == ncs,
            sel == (same_shell(old@, new@) && keyed_selection(cs, ncs, p)),
            sel ==> r@.len() == 0,
            sel ==> forall|j2: int| 0 <= j2 < nc@.len() ==> #[trigger] m@[j2] == Some(p[j2]),
            r@.len() == ap.len() ==> forall|j2: int| 0 <= j2 < j ==> #[trigger] matched_same(cs, ncs, m@, j2),
            ncs == nodes_view(nc@),
            ncs.len() == nc@.len(),
            forall|k: int| 0 <= k < ncs.len() ==> #[trigger] ncs[k] == nc@[k]@,
        decreases nc@.len() - j,
    {
        match m[j] {
            Some(i) => {
                proof {
                    lemma_child_range(idx as nat, cs, i as int);
                    if same {
                        assert(self_paired(m@, j as int));
                        lemma_plain_child(old@, i as int);
                    }
                    if sel {
                        assert(m@[j as int] == Some(p[j as int]));
                        lemma_plain_forest(cs, i as int);
                    }
                }
                let mut sub = diff_node(&oc[i], &nc[j], old_idx[i]);
                let ghost before = r@;
                let ghost subv = sub@;
                r.append(&mut sub);
                proof {
                    if r@.len() == ap.len() {
                        assert(before.len() == ap.len());
                        assert forall|j2: int| 0 <= j2 < j + 1 implies #[trigger] matched_same(cs, ncs, m@, j2) by {
                            if j2 < j {
                                assert(matched_same(cs, ncs, m@, j2));
                            } else {
                                assert(subv.len() == 0);
                            }
                        }
                    }
                    lemma_append_view(before, subv);
                    lemma_within_widen(patches_view(subv), old_idx@[i as int] as int, old_idx@[i as int] + size(cs[i as int]), idx as int, hi@);
                    lemma_within_append(patches_view(before), patches_view(subv), idx as int, hi@);
                    assert(patches_view(r@).subrange(0, ap.len() as int) =~= patches_view(before).subrange(0, ap.len() as int));
                    let tail0 = patches_view(before).subrange(ap.len() as int, before.len() as int);
                    lemma_within_widen(patches_view(subv), old_idx@[i as int] as int, old_idx@[i as int] + size(cs[i as int]), idx + 1, hi@);
                    lemma_within_append(tail0, patches_view(subv), idx + 1, hi@);
                    assert(patches_view(r@).subrange(ap.len() as int, r@.len() as int) =~= tail0 + patches_view(subv));
                    let st = choose|t: DiffTrace| #[trigger] trace_ok(t, cs[i as int], ncs[j as int], old_idx@[i as int] as nat, patches_view(subv));
                    let tr0 = tr;
                    tr = tr.push((st, patches_view(subv)));
                    assert(tr.drop_last() =~= tr0);
                    assert(tr.subrange(0, j as int) =~= tr0);
                }
            },
            None => {
                proof {
                    let tr0 = tr;
                    tr = tr.push((DiffTrace::Leaf, Seq::<PatchM>::empty()));
                    assert(tr.drop_last() =~= tr0);
                    assert(tr.subrange(0, j as int) =~= tr0);
                    assert(flat(tr) =~= flat(tr0));
                    if r@.len() == ap.len() {
                        assert forall|j2: int| 0 <= j2 < j + 1 implies #[trigger] matched_same(cs, ncs, m@, j2) by {
                            if j2 < j {
                                assert(matched_same(cs, ncs, m@, j2));
                            }
                        }
                    }
                }
            },
        }
        j = j + 1;
    }
    let mut rest = removals(&m, &old_idx, idx, Ghost(idx as int), hi);
    let mut mv = moves(&m, &old_idx, idx, Ghost(idx as int), hi);
    let mut ins = inserts(&m, &old_idx, nc, idx, Ghost(idx as int), hi);
    let n_old: usize = old_idx.len();
    proof {
        if same {
            assert forall|i: int| 0 <= i < old_idx@.len() implies #[trigger] old_is_matched(m@, i) by {
                assert(self_paired(m@, i));
                assert(m@[i] == Some(i as usize));
            }
            assert forall|j2: int| 0 <= j2 < m@.len() implies #[trigger] m@[j2] is Some by {
                assert(self_paired(m@, j2));
            }
            assert(all_new_matched(m@));
            lemma_identity_positions(m@);
            let len = choose|len: nat| is_lis_len(matched_positions(m@), len)
                && mv@.len() + len == matched_positions(m@).len();
            lemma_identity_lis(matched_positions(m@), len);
        }
        if sel {
            lemma_all_matched_positions(m@, p);
            assert(all_new_matched(m@));
            assert forall|i: int| 0 <= i < cs.len() implies #[trigger] old_is_matched(m@, i) == selected(p, i) by {
                assert(i < n_old);
                if old_is_matched(m@, i) {
                    let j2 = choose|j2: int| 0 <= j2 < m@.len() && m@[j2] == Some(i as usize);
                    assert(m@[j2] == Some(p[j2]));
                    assert(p[j2] as int == i);
                    assert(selected(p, i));
                }
                if selected(p, i) {
                    let j2 = choose|j2: int| 0 <= j2 < p.len() && p[j2] == i;
                    assert(m@[j2] == Some(p[j2]));
                    assert(p[j2] == i as usize);
                    assert(old_is_matched(m@, i));
                }
            }
            if all_old_matched(m@, old_idx@.len() as nat) {
                assert forall|i: int| 0 <= i < cs.len() implies #[trigger] selected(p, i) by {
                    assert(old_is_matched(m@, i));
                }
            }
            if all_selected(p, cs.len()) {
                assert forall|i: int| 0 <= i < old_idx@.len() implies #[trigger] old_is_matched(m@, i) by {
                    assert(selected(p, i));
                }
            }
            let um = unmatched_indices(m@, old_idx@);
            let us = unselected_indices(idx as nat, cs, p);
            assert forall|x: nat| um.contains(x) <==> us.contains(x) by {
                if um.contains(x) {
                    let i = choose|i: int| 0 <= i < old_idx@.len() && !old_is_matched(m@, i) && x == old_idx@[i] as nat;
                    assert(!selected(p, i));
                    assert(x == child_index(idx as nat, cs, i));
                }
                if us.contains(x) {
                    let i = choose|i: int| 0 <= i < cs.len() && !selected(p, i) && x == child_index(idx as nat, cs, i);
                    assert(!old_is_matched(m@, i));
                    assert(x == old_idx@[i] as nat);
                }
            }
            assert(um =~= us);
        }
    }
    let ghost keep = choose|keep: Seq<usize>| #![trigger move_plan(matched_positions(m@), keep, old_idx@, idx as nat, 0)]
        is_increasing_pick(matched_positions(m@), keep.map_values(|p: usize| p as int))
        && is_lis_len(matched_positions(m@), keep.len())
        && patches_view(mv@) == move_plan(matched_positions(m@), keep, old_idx@, idx as nat, 0);
    let ghost (r0, s1, s2, s3) = (r@, rest@, mv@, ins@);
    r.append(&mut rest);
    r.append(&mut mv);
    r.append(&mut ins);
    proof {
        lemma_append_view(r0, s1);
        lemma_append_view(r0 + s1, s2);
        lemma_append_view(r0 + s1 + s2, s3);
        lemma_within_append(patches_view(r0), patches_view(s1), idx as int, hi@);
        lemma_within_append(patches_view(r0) + patches_view(s1), patches_view(s2), idx as int, hi@);
        lemma_within_append(patches_view(r0) + patches_view(s1) + patches_view(s2), patches_view(s3), idx as int, hi@);
        assert(patches_view(r@).subrange(0, ap.len() as int) =~= patches_view(r0).subrange(0, ap.len() as int));
        let subs = patches_view(r0).subrange(ap.len() as int, r0.len() as int);
        assert(patches_view(r0) =~= ap + subs);
        assert(patches_view(r@) =~= attr_patches(idx as nat, addv, remv) + subs + patches_view(s1) + patches_view(s2) + patches_view(s3));
        assert(shape_with(old@, new@, idx as nat, patches_view(r@), m@, old_idx@, addv, remv, subs, patches_view(s1), keep));
        let et = DiffTrace::Elem { m: m@, old_idx: old_idx@, add: addv, rem: remv, rr: patches_view(s1), keep, subs: tr };
        assert(trace_ok(et, old@, new@, idx as nat, patches_view(r@)));
        if sel {
            let rv = patches_view(r@);
            assert(rv =~= patches_view(s1) + patches_view(s2));
            assert forall|t: int| 0 <= t < s2.len() implies #[trigger] patches_view(s2)[t] is MoveChildrenBefore by {
                assert(s2[t] is MoveChildrenBefore);
            }
            if !all_selected(p, cs.len()) {
                assert(rv[0] == patches_view(s1)[0]);
            }
            assert forall|t: int| s1.len() <= t < rv.len() implies #[trigger] rv[t] is MoveChildrenBefore by {
                assert(rv[t] == patches_view(s2)[t - s1.len()]);
            }
            assert(selection_ok(rv, idx as nat, cs, p));
        }
        if r@.len() == 0 {
            assert(patches_view(r0).len() == 0);
            assert(ap.len() == 0);
            assert(addv.len() == 0 && remv.len() == 0);
            lemma_no_attr_change(attrs_view(oa@), attrs_view(na@), addv, remv);
            assert(s1.len() == 0 && s2.len() == 0 && s3.len() == 0);
            let len = choose|len: nat| is_lis_len(matched_positions(m@), len)
                && s2.len() + len == matched_positions(m@).len();
            lemma_empty_children(cs, ncs, m@, len);
        }
        assert forall|p2: Seq<usize>| same_shell(old@, new@) && #[trigger] keyed_selection(cs, ncs, p2)
            implies selection_ok(patches_view(r@), idx as nat, cs, p2) by {
            lemma_selection_unique(cs, ncs, p, p2);
        }
    }
    r
}

/// The new element has the children of the old one, all keyed, in another
/// order: new child `j` is old child `p[j]`.
pub open spec fn keyed_reorder(old: NodeM, new: NodeM, p: Seq<usize>) -> bool {
    &&& same_shell(old, new)
    &&& keyed_selection(old->children, new->children, p)
    &&& all_selected(p, old->children.len())
}

/// The new element keeps some of the keyed children of the old one, in
/// their old order: new child `j` is old child `p[j]`.
pub open spec fn keyed_removal(old: NodeM, new: NodeM, p: Seq<usize>) -> bool {
    &&& same_shell(old, new)
    &&& keyed_selection(old->children, new->children, p)
    &&& strictly_increasing(p)
}

/// Reordering a keyed list only moves children, and moves no more of them
/// than lie outside a longest run that already has the old order.
pub proof fn lemma_reorder_only_moves(r: Seq<PatchM>, parent: nat, cs: Seq<NodeM>, p: Seq<usize>)
    requires
        selection_ok(r, parent, cs, p),
        all_selected(p, cs.len()),
    ensures
        forall|t: int| 0 <= t < r.len() ==> #[trigger] r[t] is MoveChildrenBefore,
        exists|len: nat| is_lis_len(p, len) && r.len() + len == p.len(),
{
}

/// Removing keyed children while keeping the order of the others gives one
/// patch, which removes exactly those children, or none when none was removed.
pub proof fn lemma_removal_only(r: Seq<PatchM>, parent: nat, cs: Seq<NodeM>, p: Seq<usize>)
    requires
        selection_ok(r, parent, cs, p),
        strictly_increasing(p),
    ensures
        r.len() <= 1,
        r.len() == 0 <==> all_selected(p, cs.len()),
        r.len() == 1 ==> removes_exactly(r[0], parent, unselected_indices(parent, cs, p)),
{
    let len = choose|len: nat| is_lis_len(p, len)
        && r.len() + len == p.len() + (if all_selected(p, cs.len()) { 0int } else { 1int });
    let whole = Seq::new(p.len(), |t: int| t);
    assert(is_increasing_pick(p, whole));
    let best = choose|idx: Seq<int>| #[trigger] is_increasing_pick(p, idx) && idx.len() == len;
    lemma_pick_len(p, best);
}

/// The patches that turn the mounted tree `old` into `new`.
pub fn diff(old: &Node, new: &Node) -> (r: Vec<Patch>)
    requires
        size(old@) <= usize::MAX,
    ensures
        all_within(patches_view(r@), 0, size(old@) as int),
        replaced(old@, new@) ==> patches_view(r@) == seq![PatchM::Replace { index: 0, node: new@ }],
        in_place_ok(old@, new@, 0, patches_view(r@)),
        old@ == new@ && plain_tree(old@) ==> r@.len() == 0,
        r@.len() == 0 ==> same_view(old@, new@),
        exists|t: DiffTrace| #[trigger] trace_ok(t, old@, new@, 0, patches_view(r@)),
        reapplies_calls(old@, new@, 0, patches_view(r@)),
        forall|p: Seq<usize>| #[trigger] keyed_reorder(old@, new@, p) ==> {
            &&& forall|t: int| 0 <= t < r@.len() ==> #[trigger] r@[t] is MoveChildrenBefore
            &&& exists|len: nat| is_lis_len(p, len) && r@.len() + len == p.len()
        },
        forall|p: Seq<usize>| #[trigger] keyed_removal(old@, new@, p) ==> {
            &&& r@.len() <= 1
            &&& r@.len() == 0 <==> all_selected(p, old@->children.len())
            &&& r@.len() == 1 ==> removes_exactly(patches_view(r@)[0], 0, unselected_indices(0, old@->children, p))
        },
{
    let r = diff_node(old, new, 0);
    proof {
        lemma_reapplies_calls(old@, new@, 0, patches_view(r@));
        let rv = patches_view(r@);
        assert forall|p: Seq<usize>| #[trigger] keyed_reorder(old@, new@, p) implies {
            &&& forall|t: int| 0 <= t < r@.len() ==> #[trigger] r@[t] is MoveChildrenBefore
            &&& exists|len: nat| is_lis_len(p, len) && r@.len() + len == p.len()
        } by {
            lemma_reorder_only_moves(rv, 0, old@->children, p);
            assert forall|t: int| 0 <= t < r@.len() implies #[trigger] r@[t] is MoveChildrenBefore by {
                assert(rv[t] is MoveChildrenBefore);
            }
        }
        assert forall|p: Seq<usize>| #[trigger] keyed_removal(old@, new@, p) implies {
            &&& r@.len() <= 1
            &&& r@.len() == 0 <==> all_selected(p, old@->children.len())
            &&& r@.len() == 1 ==> removes_exactly(rv[0], 0, unselected_indices(0, old@->children, p))
        } by {
            lemma_removal_only(rv, 0, old@->children, p);
        }
    }
    r
}

} // verus!
