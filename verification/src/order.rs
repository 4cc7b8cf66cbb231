//! Stable ranking of a list by an integer key.

use vstd::prelude::*;

verus! {

/// Index `a` ranks before index `b`: by key, then by position.
pub open spec fn ranks_before(keys: Seq<i128>, a: int, b: int) -> bool {
    keys[a] < keys[b] || (keys[a] == keys[b] && a < b)
}

/// `order` lists the indices `lo..hi` in rank order.
pub open spec fn is_ranking_of(keys: Seq<i128>, lo: int, hi: int, order: Seq<usize>) -> bool {
    &&& order.len() == hi - lo
    &&& forall|i: int| 0 <= i < order.len() ==> lo <= #[trigger] order[i] < hi
    &&& forall|i: int, j: int|
        0 <= i < j < order.len() ==> ranks_before(keys, #[trigger] order[i] as int, #[trigger] order[j] as int)
    &&& forall|k: int| lo <= k < hi ==> order.contains(#[trigger] (k as usize))
}

/// `order` lists all indices of `keys` in rank order.
pub open spec fn is_ranking(keys: Seq<i128>, order: Seq<usize>) -> bool {
    is_ranking_of(keys, 0, keys.len() as int, order)
}

/// Merge two rankings of adjacent index ranges.
fn merge_rankings(keys: &Vec<i128>, a: &Vec<usize>, b: &Vec<usize>, lo: usize, mid: usize, hi: usize) -> (out: Vec<usize>)
    requires
        lo <= mid <= hi <= keys@.len(),
        is_ranking_of(keys@, lo as int, mid as int, a@),
        is_ranking_of(keys@, mid as int, hi as int, b@),
    ensures
        is_ranking_of(keys@, lo as int, hi as int, out@),
{
    let mut out: Vec<usize> = Vec::new();
    let mut i: usize = 0;
    let mut j: usize = 0;
    while i < a.len() || j < b.len()
        invariant
            lo <= mid <= hi <= keys@.len(),
            is_ranking_of(keys@, lo as int, mid as int, a@),
            is_ranking_of(keys@, mid as int, hi as int, b@),
            i <= a@.len(),
            j <= b@.len(),
            out@.len() == i + j,
            forall|p: int| 0 <= p < out@.len() ==> lo <= #[trigger] out@[p] < hi,
            forall|p: int, q: int|
                0 <= p < q < out@.len() ==> ranks_before(keys@, #[trigger] out@[p] as int, #[trigger] out@[q] as int),
            forall|p: int, q: int|
                0 <= p < out@.len() && i <= q < a@.len() ==> ranks_before(keys@, #[trigger] out@[p] as int, #[trigger] a@[q] as int),
            forall|p: int, q: int|
                0 <= p < out@.len() && j <= q < b@.len() ==> ranks_before(keys@, #[trigger] out@[p] as int, #[trigger] b@[q] as int),
            forall|q: int| 0 <= q < i ==> out@.contains(#[trigger] a@[q]),
            forall|q: int| 0 <= q < j ==> out@.contains(#[trigger] b@[q]),
        decreases (a@.len() - i) + (b@.len() - j),
    {
        let ghost prev = out@;
        let take_a: bool = if j >= b.len() {
            true
        } else if i >= a.len() {
            false
        } else {
            keys[a[i]] <= keys[b[j]]
        };
        if take_a {
            out.push(a[i]);
            i = i + 1;
        } else {
            out.push(b[j]);
            j = j + 1;
        }
        proof {
            assert(out@[prev.len() as int] == out@.last());
            assert forall|v: usize| prev.contains(v) implies out@.contains(v) by {
                let p = choose|p: int| 0 <= p < prev.len() && prev[p] == v;
                assert(out@[p] == v);
            }
        }
    }
    proof {
        assert forall|k: int| lo <= k < hi implies out@.contains(#[trigger] (k as usize)) by {
            if k < mid {
                let q = choose|q: int| 0 <= q < a@.len() && a@[q] == k as usize;
                assert(out@.contains(a@[q]));
            } else {
                let q = choose|q: int| 0 <= q < b@.len() && b@[q] == k as usize;
                assert(out@.contains(b@[q]));
            }
        }
    }
    out
}

fn sort_range(keys: &Vec<i128>, lo: usize, hi: usize) -> (out: Vec<usize>)
    requires
        lo <= hi <= keys@.len(),
    ensures
        is_ranking_of(keys@, lo as int, hi as int, out@),
    decreases hi - lo,
{
    if hi - lo <= 1 {
        let mut out: Vec<usize> = Vec::new();
        if lo < hi {
            out.push(lo);
            assert(out@[0] == lo);
        }
        out
    } else {
        let mid: usize = lo + (hi - lo) / 2;
        let a = sort_range(keys, lo, mid);
        let b = sort_range(keys, mid, hi);
        merge_rankings(keys, &a, &b, lo, mid, hi)
    }
}

/// Rank the indices of `keys` by ascending key; equal keys keep their order.
pub fn sort_indices(keys: &Vec<i128>) -> (order: Vec<usize>)
    ensures
        is_ranking(keys@, order@),
{
    sort_range(keys, 0, keys.len())
}

/// Two rankings of the same keys are the same list.
pub proof fn ranking_is_unique(keys: Seq<i128>, a: Seq<usize>, b: Seq<usize>)
    requires
        is_ranking(keys, a),
        is_ranking(keys, b),
    ensures
        a == b,
{
    assert forall|i: int| 0 <= i < a.len() implies a[i] == b[i] by {
        ranking_agrees_upto(keys, a, b, i + 1);
    }
    assert(a =~= b);
}

proof fn ranking_agrees_upto(keys: Seq<i128>, a: Seq<usize>, b: Seq<usize>, n: int)
    requires
        is_ranking(keys, a),
        is_ranking(keys, b),
        0 <= n <= a.len(),
    ensures
        forall|i: int| 0 <= i < n ==> a[i] == b[i],
    decreases n,
{
    if n > 0 {
        ranking_agrees_upto(keys, a, b, n - 1);
        let m = n - 1;
        if a[m] != b[m] {
            assert(b.contains((a[m] as int) as usize));
            let p = choose|p: int| 0 <= p < b.len() && b[p] == a[m];
            assert(a.contains((b[m] as int) as usize));
            let q = choose|q: int| 0 <= q < a.len() && a[q] == b[m];
            if p < m {
                assert(a[p] == b[p]);
                assert(ranks_before(keys, a[p] as int, a[m] as int));
            }
            if q < m {
                assert(a[q] == b[q]);
                assert(ranks_before(keys, b[q] as int, b[m] as int));
            }
            assert(ranks_before(keys, b[m] as int, b[p] as int));
            assert(ranks_before(keys, a[m] as int, a[q] as int));
        }
    }
}

/// A ranking goes by ascending keys, and equal ones stay in order.
pub proof fn ranking_is_stable(keys: Seq<i128>, order: Seq<usize>, i: int, j: int)
    requires
        is_ranking(keys, order),
        0 <= i < j < order.len(),
    ensures
        keys[order[i] as int] <= keys[order[j] as int],
        keys[order[i] as int] == keys[order[j] as int] ==> order[i] < order[j],
{
    assert(ranks_before(keys, order[i] as int, order[j] as int));
}

} // verus!
