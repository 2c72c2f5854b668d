//! Matching the children of an old element with those of a new one.
//!
//! A child with a key is matched with the first old child that has the
//! same key; of several new children with one key only the first is
//! matched, the others count as new. A child without a key is matched with
//! the old child without a key that has the same rank among the children
//! without a key. When no child has a key this is matching by position.
use vstd::prelude::*;
use crate::node::{lemma_nodes_view, nodes_view, Node, NodeM};

verus! {

/// The key of a node, if it has one.
pub open spec fn key_of(n: NodeM) -> Option<Seq<char>> {
    match n {
        NodeM::Element { key, .. } => key,
        _ => None,
    }
}

/// Node `i` has key `k`, and no node before it has.
pub open spec fn is_first_key(s: Seq<NodeM>, i: int, k: Seq<char>) -> bool {
    key_of(s[i]) == Some(k) && forall|i2: int| 0 <= i2 < i ==> key_of(#[trigger] s[i2]) != Some(k)
}

/// How many nodes of `s` have no key.
pub open spec fn unkeyed_count(s: Seq<NodeM>) -> nat
    decreases s.len(),
{
    if s.len() == 0 {
        0
    } else {
        unkeyed_count(s.drop_last()) + if key_of(s.last()) is None { 1nat } else { 0nat }
    }
}

/// The rank of node `i` among the nodes of `s` without a key.
pub open spec fn unkeyed_rank(s: Seq<NodeM>, i: int) -> nat {
    unkeyed_count(s.subrange(0, i))
}

/// New child `j` is matched with old child `i`.
pub open spec fn pairs_with(old: Seq<NodeM>, new: Seq<NodeM>, j: int, i: int) -> bool {
    &&& 0 <= i < old.len()
    &&& match key_of(new[j]) {
        Some(k) => is_first_key(new, j, k) && is_first_key(old, i, k),
        None => key_of(old[i]) is None && unkeyed_rank(old, i) == unkeyed_rank(new, j),
    }
}

/// `m` gives for each new child the old child it is matched with, if any.
pub open spec fn is_matching(old: Seq<NodeM>, new: Seq<NodeM>, m: Seq<Option<usize>>) -> bool {
    &&& m.len() == new.len()
    &&& forall|j: int| 0 <= j < new.len() ==> match #[trigger] m[j] {
        Some(i) => pairs_with(old, new, j, i as int),
        None => forall|i: int| !pairs_with(old, new, j, i),
    }
}

/// The rank among unkeyed nodes grows by one past each unkeyed node.
pub proof fn lemma_unkeyed_step(s: Seq<NodeM>, i: int)
    requires
        0 <= i < s.len(),
    ensures
        unkeyed_rank(s, i + 1) == unkeyed_rank(s, i) + if key_of(s[i]) is None { 1nat } else { 0nat },
{
    assert(s.subrange(0, i + 1).drop_last() =~= s.subrange(0, i));
}

/// The key of a node, if it has one.
pub fn node_key(n: &Node) -> (r: Option<&String>)
    ensures
        match r {
            Some(k) => key_of(n@) == Some(k@),
            None => key_of(n@) is None,
        },
{
    match n {
        Node::Element { key, .. } => match key {
            Some(k) => Some(k),
            None => None,
        },
        _ => None,
    }
}

/// The position of the first node with key `k`.
fn find_key(s: &Vec<Node>, k: &String) -> (r: Option<usize>)
    ensures
        match r {
            Some(i) => i < s@.len() && is_first_key(nodes_view(s@), i as int, k@),
            None => forall|i: int| 0 <= i < s@.len() ==> key_of(#[trigger] nodes_view(s@)[i]) != Some(k@),
        },
{
    proof {
        lemma_nodes_view(s@);
    }
    let ghost sv = nodes_view(s@);
    let mut i: usize = 0;
    while i < s.len()
        invariant
            i <= s@.len(),
            sv == nodes_view(s@),
            sv.len() == s@.len(),
            forall|i2: int| 0 <= i2 < sv.len() ==> #[trigger] sv[i2] == s@[i2]@,
            forall|i2: int| 0 <= i2 < i ==> key_of(#[trigger] sv[i2]) != Some(k@),
        decreases s@.len() - i,
    {
        match node_key(&s[i]) {
            Some(k2) => {
                if *k2 == *k {
                    return Some(i);
                }
            },
            None => {},
        }
        i = i + 1;
    }
    None
}

/// The position of the node without a key whose rank among those is `rank`.
fn find_unkeyed(s: &Vec<Node>, rank: usize) -> (r: Option<usize>)
    ensures
        match r {
            Some(i) => i < s@.len() && key_of(nodes_view(s@)[i as int]) is None
                && unkeyed_rank(nodes_view(s@), i as int) == rank,
            None => forall|i: int| 0 <= i < s@.len() ==> !(key_of(#[trigger] nodes_view(s@)[i]) is None
                && unkeyed_rank(nodes_view(s@), i) == rank),
        },
{
    proof {
        lemma_nodes_view(s@);
    }
    let ghost sv = nodes_view(s@);
    let mut i: usize = 0;
    let mut count: usize = 0;
    while i < s.len()
        invariant
            i <= s@.len(),
            sv == nodes_view(s@),
            sv.len() == s@.len(),
            forall|i2: int| 0 <= i2 < sv.len() ==> #[trigger] sv[i2] == s@[i2]@,
            count == unkeyed_rank(sv, i as int),
            count <= i,
            count <= rank,
            forall|i2: int| 0 <= i2 < i ==> !(key_of(#[trigger] sv[i2]) is None && unkeyed_rank(sv, i2) == rank),
        decreases s@.len() - i,
    {
        proof {
            lemma_unkeyed_step(sv, i as int);
        }
        if node_key(&s[i]).is_none() {
            if count == rank {
                return Some(i);
            }
            count = count + 1;
        }
        i = i + 1;
    }
    proof {
        assert forall|i2: int| 0 <= i2 < s@.len() implies !(key_of(#[trigger] sv[i2]) is None
            && unkeyed_rank(sv, i2) == rank) by {
        }
    }
    None
}

/// Only one node can be the first with a given key.
pub proof fn lemma_first_key_unique(s: Seq<NodeM>, a: int, b: int, k: Seq<char>)
    requires
        0 <= a < s.len(),
        0 <= b < s.len(),
        is_first_key(s, a, k),
        is_first_key(s, b, k),
    ensures
        a == b,
{
    if a < b {
        assert(key_of(s[a]) == Some(k));
    } else if b < a {
        assert(key_of(s[b]) == Some(k));
    }
}

fn match_one(old: &Vec<Node>, new: &Vec<Node>, j: usize, rank: usize) -> (r: Option<usize>)
    requires
        j < new@.len(),
        rank == unkeyed_rank(nodes_view(new@), j as int),
    ensures
        match r {
            Some(i) => pairs_with(nodes_view(old@), nodes_view(new@), j as int, i as int),
            None => forall|i: int| !pairs_with(nodes_view(old@), nodes_view(new@), j as int, i),
        },
{
    proof {
        lemma_nodes_view(old@);
        lemma_nodes_view(new@);
    }
    let ghost ov = nodes_view(old@);
    let ghost nv = nodes_view(new@);
    match node_key(&new[j]) {
        Some(k) => {
            match find_key(new, k) {
                Some(j2) => {
                    if j2 != j {
                        proof {
                            assert forall|i: int| !pairs_with(ov, nv, j as int, i) by {
                                if is_first_key(nv, j as int, k@) {
                                    lemma_first_key_unique(nv, j as int, j2 as int, k@);
                                }
                            }
                        }
                        return None;
                    }
                },
                None => {
                    assert(key_of(nv[j as int]) != Some(k@));
                },
            }
            let r = find_key(old, k);
            proof {
                match r {
                    Some(i) => {},
                    None => {
                        assert forall|i: int| !pairs_with(ov, nv, j as int, i) by {
                            if 0 <= i < ov.len() {
                                assert(key_of(ov[i]) != Some(k@));
                            }
                        }
                    },
                }
            }
            r
        },
        None => find_unkeyed(old, rank),
    }
}

/// Matches each new child with an old child, or with none.
pub fn match_children(old: &Vec<Node>, new: &Vec<Node>) -> (m: Vec<Option<usize>>)
    ensures
        is_matching(nodes_view(old@), nodes_view(new@), m@),
{
    proof {
        lemma_nodes_view(new@);
    }
    let ghost ov = nodes_view(old@);
    let ghost nv = nodes_view(new@);
    let mut m: Vec<Option<usize>> = Vec::new();
    let mut j: usize = 0;
    let mut rank: usize = 0;
    while j < new.len()
        invariant
            j <= new@.len(),
            ov == nodes_view(old@),
            nv == nodes_view(new@),
            nv.len() == new@.len(),
            forall|i2: int| 0 <= i2 < nv.len() ==> #[trigger] nv[i2] == new@[i2]@,
            rank == unkeyed_rank(nv, j as int),
            rank <= j,
            m@.len() == j,
            forall|j2: int| 0 <= j2 < j ==> match #[trigger] m@[j2] {
                Some(i) => pairs_with(ov, nv, j2, i as int),
                None => forall|i: int| !pairs_with(ov, nv, j2, i),
            },
        decreases new@.len() - j,
    {
        let r = match_one(old, new, j, rank);
        m.push(r);
        proof {
            lemma_unkeyed_step(nv, j as int);
        }
        if node_key(&new[j]).is_none() {
            rank = rank + 1;
        }
        j = j + 1;
    }
    m
}

/// No two nodes of the list share a key.
pub open spec fn keys_unique(s: Seq<NodeM>) -> bool {
    forall|a: int, b: int| 0 <= a < b < s.len() && key_of(s[a]) is Some ==> key_of(#[trigger] s[a]) != key_of(#[trigger] s[b])
}

/// A node without a key ranks below every later node without a key.
pub proof fn lemma_rank_grows(s: Seq<NodeM>, a: int, b: int)
    requires
        0 <= a < b <= s.len(),
        key_of(s[a]) is None,
    ensures
        unkeyed_rank(s, a) < unkeyed_rank(s, b),
    decreases b - a,
{
    lemma_unkeyed_step(s, b - 1);
    if a < b - 1 {
        lemma_rank_grows(s, a, b - 1);
    }
}

/// In a list whose keys are unique, matching the list with itself pairs
/// each child with itself.
pub proof fn lemma_self_matching(s: Seq<NodeM>, m: Seq<Option<usize>>)
    requires
        keys_unique(s),
        is_matching(s, s, m),
    ensures
        forall|j: int| 0 <= j < s.len() ==> match #[trigger] m[j] {
            Some(i) => i == j,
            None => false,
        },
{
    assert forall|j: int| 0 <= j < s.len() implies match #[trigger] m[j] {
        Some(i) => i == j,
        None => false,
    } by {
        match key_of(s[j]) {
            Some(k) => {
                assert forall|i2: int| 0 <= i2 < j implies key_of(#[trigger] s[i2]) != Some(k) by {
                    if key_of(s[i2]) is Some {
                        assert(key_of(s[i2]) != key_of(s[j]));
                    }
                }
                assert(pairs_with(s, s, j, j));
                match m[j] {
                    Some(i) => {
                        lemma_first_key_unique(s, i as int, j, k);
                    },
                    None => {},
                }
            },
            None => {
                assert(pairs_with(s, s, j, j));
                match m[j] {
                    Some(i) => {
                        if (i as int) < j {
                            lemma_rank_grows(s, i as int, j);
                        } else if (i as int) > j {
                            lemma_rank_grows(s, j, i as int);
                        }
                    },
                    None => {},
                }
            },
        }
    }
}

} // verus!
