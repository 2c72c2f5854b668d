//! When two trees look the same to a user: same kinds, tags, namespaces
//! and texts, the same merged value for every attribute name, and children
//! with the same keys in the same order.
use vstd::prelude::*;
use crate::attr_diff::{is_add_list, is_remove_list, merged, present, to_add, to_remove};
use crate::diff::{all_new_matched, all_old_matched, is_lis_len, matched_positions, old_is_matched};
use crate::lis::is_increasing_pick;
use crate::node::{AttrM, NodeM};
use crate::reconcile::{is_matching, key_of, pairs_with};

verus! {

/// Every attribute name has the same merged values in both sets.
pub open spec fn same_attrs(a: Seq<AttrM>, b: Seq<AttrM>) -> bool {
    forall|k: Seq<char>| #[trigger] merged(a, k) == merged(b, k)
}

/// The two trees look the same.
pub open spec fn same_view(a: NodeM, b: NodeM) -> bool
    decreases a,
{
    match (a, b) {
        (NodeM::Element { tag: t1, namespace: n1, attrs: a1, children: c1, .. },
         NodeM::Element { tag: t2, namespace: n2, attrs: a2, children: c2, .. }) =>
            t1 == t2 && n1 == n2 && same_attrs(a1, a2) && same_forest(c1, c2),
        (NodeM::Text(x), NodeM::Text(y)) => x == y,
        (NodeM::Comment(x), NodeM::Comment(y)) => x == y,
        _ => false,
    }
}

/// The two lists of trees look the same, child by child, keys included.
pub open spec fn same_forest(a: Seq<NodeM>, b: Seq<NodeM>) -> bool
    decreases a,
{
    &&& a.len() == b.len()
    &&& (a.len() > 0 ==> {
        &&& same_forest(a.subrange(0, a.len() - 1), b.subrange(0, b.len() - 1))
        &&& same_view(a[a.len() - 1], b[b.len() - 1])
        &&& key_of(a[a.len() - 1]) == key_of(b[b.len() - 1])
    })
}

/// Lists that look the same child by child look the same.
pub proof fn lemma_same_forest(a: Seq<NodeM>, b: Seq<NodeM>)
    requires
        a.len() == b.len(),
        forall|j: int| 0 <= j < a.len() ==> #[trigger] same_view(a[j], b[j]) && key_of(a[j]) == key_of(b[j]),
    ensures
        same_forest(a, b),
    decreases a.len(),
{
    if a.len() > 0 {
        let a2 = a.subrange(0, a.len() - 1);
        let b2 = b.subrange(0, b.len() - 1);
        assert forall|j: int| 0 <= j < a2.len() implies #[trigger] same_view(a2[j], b2[j]) && key_of(a2[j]) == key_of(b2[j]) by {
            assert(a2[j] == a[j] && b2[j] == b[j]);
            assert(same_view(a[j], b[j]));
        }
        lemma_same_forest(a2, b2);
        assert(same_view(a[a.len() - 1], b[b.len() - 1]));
    }
}

/// Attribute sets with nothing to apply and nothing to remove look the same.
pub proof fn lemma_no_attr_change(a: Seq<AttrM>, b: Seq<AttrM>, add: Seq<AttrM>, rem: Seq<Seq<char>>)
    requires
        is_add_list(a, b, add),
        is_remove_list(a, b, rem),
        add.len() == 0,
        rem.len() == 0,
    ensures
        same_attrs(a, b),
{
    assert forall|k: Seq<char>| #[trigger] merged(a, k) == merged(b, k) by {
        if to_add(a, b, k) {
            let j = choose|j: int| 0 <= j < add.len() && #[trigger] add[j].name == k;
        }
        if to_remove(a, b, k) {
            let j = choose|j: int| 0 <= j < rem.len() && #[trigger] rem[j] == k;
        }
        if !present(b, k) {
            assert(merged(b, k) =~= Seq::empty());
            assert(merged(a, k) =~= Seq::empty());
        }
    }
}

proof fn lemma_positions_all_matched(m: Seq<Option<usize>>)
    requires
        all_new_matched(m),
    ensures
        matched_positions(m).len() == m.len(),
        forall|j: int| 0 <= j < m.len() ==> #[trigger] m[j] == Some(matched_positions(m)[j]),
    decreases m.len(),
{
    if m.len() > 0 {
        let d = m.drop_last();
        assert forall|j: int| 0 <= j < d.len() implies #[trigger] d[j] is Some by {
            assert(d[j] == m[j]);
        }
        lemma_positions_all_matched(d);
        assert(m[m.len() - 1] is Some);
        assert forall|j: int| 0 <= j < m.len() implies #[trigger] m[j] == Some(matched_positions(m)[j]) by {
            if j < m.len() - 1 {
                assert(d[j] == m[j]);
            }
        }
    }
}

proof fn lemma_full_pick_at_most(s: Seq<usize>, idx: Seq<int>, t: int)
    requires
        is_increasing_pick(s, idx),
        idx.len() == s.len(),
        0 <= t < idx.len(),
    ensures
        idx[t] <= t,
    decreases idx.len() - t,
{
    if t < idx.len() - 1 {
        lemma_full_pick_at_most(s, idx, t + 1);
        assert(idx[t] < idx[t + 1]);
    }
}

proof fn lemma_full_pick_at_least(s: Seq<usize>, idx: Seq<int>, t: int)
    requires
        is_increasing_pick(s, idx),
        0 <= t < idx.len(),
    ensures
        idx[t] >= t,
    decreases t,
{
    if t > 0 {
        lemma_full_pick_at_least(s, idx, t - 1);
        assert(idx[t - 1] < idx[t]);
    }
}

proof fn lemma_adjacent_sorted(p: Seq<usize>, a: int, b: int)
    requires
        forall|t: int| 0 < t < p.len() ==> p[t - 1] < #[trigger] p[t],
        0 <= a < b < p.len(),
    ensures
        p[a] < p[b],
    decreases b - a,
{
    if a + 1 < b {
        lemma_adjacent_sorted(p, a, b - 1);
    }
    assert(p[b - 1] < p[b]);
}

/// The value `i` occurs in `p`.
pub open spec fn holds_value(p: Seq<usize>, i: int) -> bool {
    exists|t: int| 0 <= t < p.len() && p[t] == i
}

/// A list whose longest increasing subsequence is the whole list, and which
/// holds every value below `n`, is `0, 1, ..., n - 1`.
proof fn lemma_identity_from_lis(p: Seq<usize>, n: nat)
    requires
        is_lis_len(p, p.len()),
        forall|t: int| 0 <= t < p.len() ==> #[trigger] p[t] < n,
        forall|i: int| 0 <= i < n ==> #[trigger] holds_value(p, i),
    ensures
        p.len() == n,
        forall|t: int| 0 <= t < p.len() ==> #[trigger] p[t] == t,
{
    let idx = choose|idx: Seq<int>| #[trigger] is_increasing_pick(p, idx) && idx.len() == p.len();
    assert forall|t: int| 0 < t < p.len() implies p[t - 1] < #[trigger] p[t] by {
        lemma_full_pick_at_least(p, idx, t);
        lemma_full_pick_at_most(p, idx, t);
        lemma_full_pick_at_least(p, idx, t - 1);
        lemma_full_pick_at_most(p, idx, t - 1);
        assert(p[idx[t - 1]] < p[idx[t]]);
    }
    lemma_identity_values(p, n, 0);
    if p.len() > 0 {
        assert(p[p.len() - 1] == p.len() - 1);
    }
    if n > 0 {
        assert(holds_value(p, n - 1));
    }
}

proof fn lemma_identity_values(p: Seq<usize>, n: nat, t0: int)
    requires
        forall|t: int| 0 < t < p.len() ==> p[t - 1] < #[trigger] p[t],
        forall|t: int| 0 <= t < p.len() ==> #[trigger] p[t] < n,
        forall|i: int| 0 <= i < n ==> #[trigger] holds_value(p, i),
        0 <= t0 <= p.len(),
        forall|t: int| 0 <= t < t0 ==> #[trigger] p[t] == t,
    ensures
        forall|t: int| 0 <= t < p.len() ==> #[trigger] p[t] == t,
    decreases p.len() - t0,
{
    if t0 < p.len() {
        if t0 > 0 {
            assert(p[t0 - 1] == t0 - 1);
        }
        if p[t0] != t0 {
            assert(p[t0] > t0);
            assert(holds_value(p, t0));
            let j = choose|j: int| 0 <= j < p.len() && #[trigger] p[j] == t0;
            if j < t0 {
                assert(p[j] == j);
            } else if j > t0 {
                lemma_adjacent_sorted(p, t0, j);
            }
        }
        lemma_identity_values(p, n, t0 + 1);
    }
}

/// When every old and every new child is matched and no move is needed,
/// each new child is matched with the old child at its own position.
pub proof fn lemma_nothing_moved(cs: Seq<NodeM>, ncs: Seq<NodeM>, m: Seq<Option<usize>>)
    requires
        cs.len() <= usize::MAX,
        is_matching(cs, ncs, m),
        all_old_matched(m, cs.len()),
        all_new_matched(m),
        is_lis_len(matched_positions(m), matched_positions(m).len()),
    ensures
        cs.len() == ncs.len(),
        forall|j: int| 0 <= j < ncs.len() ==> #[trigger] m[j] == Some(j as usize),
        forall|j: int| 0 <= j < ncs.len() ==> key_of(#[trigger] cs[j]) == key_of(ncs[j]),
{
    let p = matched_positions(m);
    lemma_positions_all_matched(m);
    assert forall|t: int| 0 <= t < p.len() implies #[trigger] p[t] < cs.len() by {
        assert(m[t] == Some(p[t]));
        assert(pairs_with(cs, ncs, t, p[t] as int));
    }
    assert forall|i: int| 0 <= i < cs.len() implies #[trigger] holds_value(p, i) by {
        assert(old_is_matched(m, i));
        let j = choose|j: int| 0 <= j < m.len() && m[j] == Some(i as usize);
        assert(m[j] == Some(p[j]));
        assert(p[j] == i);
    }
    lemma_identity_from_lis(p, cs.len());
    assert forall|j: int| 0 <= j < ncs.len() implies #[trigger] m[j] == Some(j as usize) by {
        assert(m[j] == Some(p[j]));
    }
    assert forall|j: int| 0 <= j < ncs.len() implies key_of(#[trigger] cs[j]) == key_of(ncs[j]) by {
        assert(m[j] == Some(p[j]));
        assert(pairs_with(cs, ncs, j, j));
    }
}

/// New child `j`, if matched, looks the same as its old child.
pub open spec fn matched_same(cs: Seq<NodeM>, ncs: Seq<NodeM>, m: Seq<Option<usize>>, j: int) -> bool {
    match m[j] {
        Some(i) => i < cs.len() && same_view(cs[i as int], ncs[j]),
        None => true,
    }
}

/// Children that need no removal, insertion or move, and whose matched
/// pairs look the same, look the same.
pub proof fn lemma_empty_children(cs: Seq<NodeM>, ncs: Seq<NodeM>, m: Seq<Option<usize>>, len: nat)
    requires
        cs.len() <= usize::MAX,
        is_matching(cs, ncs, m),
        all_old_matched(m, cs.len()),
        all_new_matched(m),
        is_lis_len(matched_positions(m), len),
        len == matched_positions(m).len(),
        forall|j: int| 0 <= j < ncs.len() ==> #[trigger] matched_same(cs, ncs, m, j),
    ensures
        same_forest(cs, ncs),
{
    lemma_nothing_moved(cs, ncs, m);
    assert forall|j: int| 0 <= j < cs.len() implies #[trigger] same_view(cs[j], ncs[j]) && key_of(cs[j]) == key_of(ncs[j]) by {
        assert(matched_same(cs, ncs, m, j));
        assert(m[j] == Some(j as usize));
    }
    lemma_same_forest(cs, ncs);
}

} // verus!
