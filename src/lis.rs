//! Longest increasing subsequence: which matched children can stay where
//! they are when a keyed list is reordered.
use vstd::prelude::*;

verus! {

/// `idx` lists positions of `s` in increasing order, and the values of `s`
/// at those positions increase too.
pub open spec fn is_increasing_pick(s: Seq<usize>, idx: Seq<int>) -> bool {
    &&& forall|t: int| 0 <= t < idx.len() ==> 0 <= #[trigger] idx[t] < s.len()
    &&& forall|t: int| 0 < t < idx.len() ==> idx[t - 1] < #[trigger] idx[t]
    &&& forall|t: int| 0 < t < idx.len() ==> s[idx[t - 1]] < #[trigger] s[idx[t]]
}

/// The values of `s` increase strictly from left to right.
pub open spec fn strictly_increasing(s: Seq<usize>) -> bool {
    forall|a: int, b: int| 0 <= a < b < s.len() ==> s[a] < s[b]
}

/// A longest increasing subsequence of `s`, as the list of its positions.
pub fn longest_increasing(s: &Vec<usize>) -> (keep: Vec<usize>)
    ensures
        is_increasing_pick(s@, keep@.map_values(|p: usize| p as int)),
        forall|idx: Seq<int>| is_increasing_pick(s@, idx) ==> idx.len() <= keep@.len(),
{
    let n = s.len();
    // best[i]: the length of a longest increasing subsequence that ends at i;
    // prev[i]: the position before i in one such subsequence.
    let mut best: Vec<usize> = Vec::new();
    let mut prev: Vec<usize> = Vec::new();
    let mut i: usize = 0;
    while i < n
        invariant
            n == s@.len(),
            i <= n,
            best@.len() == i,
            prev@.len() == i,
            forall|a: int| 0 <= a < i ==> 1 <= #[trigger] best@[a] <= a + 1,
            forall|a: int| 0 <= a < i ==> #[trigger] best@[a] > 1 ==> (prev@[a] < a
                && s@[prev@[a] as int] < s@[a] && best@[a] == best@[prev@[a] as int] + 1),
            forall|a: int, idx: Seq<int>| 0 <= a < i && #[trigger] is_increasing_pick(s@, idx) && idx.len() > 0
                && idx.last() == a ==> idx.len() <= #[trigger] best@[a],
        decreases n - i,
    {
        let mut b: usize = 1;
        let mut p: usize = 0;
        let mut j: usize = 0;
        while j < i
            invariant
                n == s@.len(),
                j <= i < n,
                best@.len() == i,
                prev@.len() == i,
                forall|a: int| 0 <= a < i ==> 1 <= #[trigger] best@[a] <= a + 1,
                1 <= b <= j + 1,
                b > 1 ==> (p < j && s@[p as int] < s@[i as int] && b == best@[p as int] + 1),
                forall|a: int| 0 <= a < j && s@[a] < s@[i as int] ==> #[trigger] best@[a] + 1 <= b,
            decreases i - j,
        {
            if s[j] < s[i] && best[j] + 1 > b {
                b = best[j] + 1;
                p = j;
            }
            j = j + 1;
        }
        proof {
            assert forall|idx: Seq<int>| #[trigger] is_increasing_pick(s@, idx) && idx.len() > 0
                && idx.last() == i implies idx.len() <= b by {
                if idx.len() > 1 {
                    let rest = idx.drop_last();
                    assert(is_increasing_pick(s@, rest));
                    let a = rest.last();
                    assert(idx[idx.len() - 2] == a);
                    assert(rest.len() <= best@[a]);
                }
            }
        }
        best.push(b);
        prev.push(p);
        i = i + 1;
    }
    if n == 0 {
        let keep: Vec<usize> = Vec::new();
        proof {
            assert forall|idx: Seq<int>| is_increasing_pick(s@, idx) implies idx.len() <= 0 by {
                if idx.len() > 0 {
                    assert(0 <= idx[0] < s@.len());
                }
            }
            assert(keep@.map_values(|p: usize| p as int) =~= Seq::<int>::empty());
        }
        return keep;
    }
    // the end of a longest one
    let mut e: usize = 0;
    let mut k: usize = 1;
    while k < n
        invariant
            n == s@.len(),
            best@.len() == n,
            e < k <= n,
            forall|a: int| 0 <= a < k ==> #[trigger] best@[a] <= best@[e as int],
        decreases n - k,
    {
        if best[k] > best[e] {
            e = k;
        }
        k = k + 1;
    }
    // walk back along `prev`, collecting positions from the last one
    let mut rev: Vec<usize> = Vec::new();
    let mut cur: usize = e;
    rev.push(cur);
    while best[cur] > 1
        invariant
            n == s@.len(),
            best@.len() == n,
            prev@.len() == n,
            forall|a: int| 0 <= a < n ==> 1 <= #[trigger] best@[a] <= a + 1,
            forall|a: int| 0 <= a < n ==> #[trigger] best@[a] > 1 ==> (prev@[a] < a
                && s@[prev@[a] as int] < s@[a] && best@[a] == best@[prev@[a] as int] + 1),
            cur < n,
            rev@.len() >= 1,
            rev@.last() == cur,
            rev@.len() + best@[cur as int] == best@[e as int] + 1,
            forall|t: int| 0 <= t < rev@.len() ==> #[trigger] rev@[t] < n,
            forall|t: int| 0 < t < rev@.len() ==> #[trigger] rev@[t] < rev@[t - 1] && s@[rev@[t] as int] < s@[rev@[t - 1] as int],
        decreases cur,
    {
        cur = prev[cur];
        rev.push(cur);
    }
    let mut keep: Vec<usize> = Vec::new();
    let len = rev.len();
    let mut t: usize = 0;
    while t < len
        invariant
            len == rev@.len(),
            t <= len,
            keep@.len() == t,
            forall|u: int| 0 <= u < t ==> #[trigger] keep@[u] == rev@[len - 1 - u],
        decreases len - t,
    {
        keep.push(rev[len - 1 - t]);
        t = t + 1;
    }
    proof {
        let kv = keep@.map_values(|p: usize| p as int);
        assert forall|u: int| 0 < u < kv.len() implies kv[u - 1] < #[trigger] kv[u] && s@[kv[u - 1]] < s@[kv[u]] by {
            assert(keep@[u] == rev@[len - 1 - u]);
            assert(keep@[u - 1] == rev@[(len - 1 - u) + 1]);
        }
        assert forall|idx: Seq<int>| is_increasing_pick(s@, idx) implies idx.len() <= keep@.len() by {
            if idx.len() > 0 {
                let a = idx.last();
                assert(0 <= idx[idx.len() - 1] < s@.len());
                assert(idx.len() <= best@[a]);
            }
        }
    }
    keep
}

} // verus!
