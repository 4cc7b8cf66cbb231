//! Length covered by intervals and area covered by rectangles.

use crate::geom::in_range;
use crate::geom::COORD_LIMIT;
use crate::order::is_ranking;
use crate::order::ranks_before;
use crate::order::sort_indices;
use vstd::prelude::*;
use vstd::set_lib::*;

verus! {

/// The unit interval `[x, x + 1)` lies in one of the intervals.
pub open spec fn line_covered(ivs: Seq<(i64, i64)>, x: int) -> bool {
    exists|i: int| 0 <= i < ivs.len() && (#[trigger] ivs[i]).0 <= x < ivs[i].1
}

/// All unit intervals covered by `ivs`.
pub open spec fn covered_line(ivs: Seq<(i64, i64)>) -> Set<int> {
    Set::new(|x: int| line_covered(ivs, x))
}

/// Proper intervals, sorted by their left endpoint.
pub open spec fn sorted_intervals(ivs: Seq<(i64, i64)>) -> bool {
    &&& forall|i: int| 0 <= i < ivs.len() ==> (#[trigger] ivs[i]).0 <= ivs[i].1
    &&& forall|i: int, j: int| 0 <= i < j < ivs.len() ==> (#[trigger] ivs[i]).0 <= (#[trigger] ivs[j]).0
}

proof fn range_set(a: int, b: int)
    requires
        a <= b,
    ensures
        set_int_range(a, b).finite(),
        set_int_range(a, b).len() == b - a,
{
    lemma_int_range(a, b);
}

/// Adding `[a, b)` beyond a set that ends at `a` adds `b - a` elements.
proof fn extend_set(s: Set<int>, a: int, b: int)
    requires
        s.finite(),
        a <= b,
        forall|x: int| s.contains(x) ==> x < a,
    ensures
        s.union(set_int_range(a, b)).finite(),
        s.union(set_int_range(a, b)).len() == s.len() + (b - a),
{
    range_set(a, b);
    lemma_set_disjoint_lens(s, set_int_range(a, b));
}

/// Compute the covered length of a set of intervals sorted by their left
/// endpoint.  Overlapping intervals are merged on the fly in O(n).
pub fn covered_x_length(sorted: &[(i64, i64)]) -> (total: i128)
    requires
        sorted_intervals(sorted@),
    ensures
        covered_line(sorted@).finite(),
        total == covered_line(sorted@).len(),
{
    let mut total: i128 = 0;
    let mut hi: i128 = 0;
    let mut i: usize = 0;
    let ghost mut seen: Set<int> = Set::empty();
    while i < sorted.len()
        invariant
            sorted_intervals(sorted@),
            i <= sorted@.len(),
            seen.finite(),
            total == seen.len(),
            forall|x: int| seen.contains(x) <==> line_covered(sorted@.take(i as int), x),
            i == 0 ==> total == 0,
            i > 0 ==> exists|j: int| 0 <= j < i && (#[trigger] sorted@[j]).1 == hi,
            i > 0 ==> i64::MIN <= hi <= i64::MAX,
            i > 0 ==> 0 <= total <= hi - sorted@[0].0,
            forall|x: int| seen.contains(x) ==> x < hi,
        decreases sorted@.len() - i,
    {
        let x0: i128 = sorted[i].0 as i128;
        let x1: i128 = sorted[i].1 as i128;
        let ghost before = sorted@.take(i as int);
        let ghost after = sorted@.take(i + 1);
        proof {
            assert forall|x: int| line_covered(after, x) <==> (line_covered(before, x) || x0 <= x < x1) by {
                if line_covered(after, x) {
                    let k = choose|k: int| 0 <= k < after.len() && (#[trigger] after[k]).0 <= x < after[k].1;
                    if k < i {
                        assert(before[k] == after[k]);
                    }
                }
                if line_covered(before, x) {
                    let k = choose|k: int| 0 <= k < before.len() && (#[trigger] before[k]).0 <= x < before[k].1;
                    assert(after[k] == before[k]);
                }
                assert(after[i as int] == sorted@[i as int]);
            }
            if i > 0 {
                let j = choose|j: int| 0 <= j < i && (#[trigger] sorted@[j]).1 == hi;
                assert forall|x: int| x0 <= x < hi implies line_covered(before, x) by {
                    assert(before[j] == sorted@[j]);
                }
            }
        }
        if i == 0 || x0 > hi {
            proof {
                extend_set(seen, x0 as int, x1 as int);
                seen = seen.union(set_int_range(x0 as int, x1 as int));
            }
            total = total + (x1 - x0);
            hi = x1;
        } else if x1 > hi {
            proof {
                extend_set(seen, hi as int, x1 as int);
                seen = seen.union(set_int_range(hi as int, x1 as int));
            }
            total = total + (x1 - hi);
            hi = x1;
        }
        i = i + 1;
    }
    proof {
        assert(sorted@.take(i as int) =~= sorted@);
        assert(covered_line(sorted@) =~= seen);
    }
    total
}

/// The unit cell with lower-left corner `(x, y)` lies in one of the
/// rectangles `(x0, y0, x1, y1)`.
pub open spec fn cell_covered(rects: Seq<(i64, i64, i64, i64)>, x: int, y: int) -> bool {
    exists|i: int|
        0 <= i < rects.len() && (#[trigger] rects[i]).0 <= x < rects[i].2 && rects[i].1 <= y < rects[i].3
}

/// All unit cells covered by `rects`: the union of the rectangles.
pub open spec fn covered_cells(rects: Seq<(i64, i64, i64, i64)>) -> Set<(int, int)> {
    Set::new(|c: (int, int)| cell_covered(rects, c.0, c.1))
}

/// The covered cells below the line `y = top`.
spec fn cells_below(rects: Seq<(i64, i64, i64, i64)>, top: int) -> Set<(int, int)> {
    Set::new(|c: (int, int)| cell_covered(rects, c.0, c.1) && c.1 < top)
}

/// The cells with x in `p` and y in `[a, b)`.
pub open spec fn strip(p: Set<int>, a: int, b: int) -> Set<(int, int)> {
    Set::new(|c: (int, int)| p.contains(c.0) && a <= c.1 < b)
}

/// A strip has its height times its width in cells.
pub proof fn strip_len(p: Set<int>, a: int, b: int)
    requires
        p.finite(),
        a <= b,
    ensures
        strip(p, a, b).finite(),
        strip(p, a, b).len() == (b - a) * p.len(),
    decreases b - a,
{
    if a == b {
        assert(strip(p, a, b) =~= Set::empty());
        assert((b - a) * p.len() == 0) by (nonlinear_arith)
            requires
                a == b,
        ;
    } else {
        strip_len(p, a, b - 1);
        let f = |x: int| (x, b - 1);
        let row = strip(p, b - 1, b);
        assert(row =~= p.map(f)) by {
            assert forall|c: (int, int)| row.contains(c) implies p.map(f).contains(c) by {
                assert(f(c.0) == c);
            }
        }
        p.lemma_map_finite(f);
        assert forall|b1: (int, int)| row.contains(b1) implies exists|x: int| p.contains(x) && f(x) == b1 by {
            assert(f(b1.0) == b1);
        }
        lemma_map_size(p, row, f);
        lemma_set_disjoint_lens(strip(p, a, b - 1), row);
        assert(strip(p, a, b) =~= strip(p, a, b - 1).union(row));
        assert((b - 1 - a) * p.len() + p.len() == (b - a) * p.len()) by (nonlinear_arith);
    }
}

/// Rectangles with positive width and height, in coordinate range.
spec fn all_solid(rects: Seq<(i64, i64, i64, i64)>) -> bool {
    forall|i: int|
        0 <= i < rects.len() ==> (#[trigger] rects[i]).0 < rects[i].2 && rects[i].1 < rects[i].3 && in_range(
            rects[i].0 as int,
        ) && in_range(rects[i].1 as int) && in_range(rects[i].2 as int) && in_range(rects[i].3 as int)
}

/// Drop the rectangles that cover no cell.
fn solid_rects(rects: &[(i64, i64, i64, i64)]) -> (out: Vec<(i64, i64, i64, i64)>)
    requires
        rects_in_range(rects@),
    ensures
        all_solid(out@),
        covered_cells(out@) == covered_cells(rects@),
{
    let mut out: Vec<(i64, i64, i64, i64)> = Vec::new();
    let mut i: usize = 0;
    while i < rects.len()
        invariant
            rects_in_range(rects@),
            i <= rects@.len(),
            all_solid(out@),
            forall|x: int, y: int| cell_covered(out@, x, y) <==> cell_covered(rects@.take(i as int), x, y),
        decreases rects@.len() - i,
    {
        let r = rects[i];
        let ghost prev = out@;
        if r.0 < r.2 && r.1 < r.3 {
            out.push(r);
        }
        proof {
            let before = rects@.take(i as int);
            let after = rects@.take(i + 1);
            assert forall|x: int, y: int| cell_covered(out@, x, y) <==> cell_covered(after, x, y) by {
                let hit = r.0 <= x < r.2 && r.1 <= y < r.3;
                assert(after[i as int] == r);
                assert(cell_covered(after, x, y) <==> cell_covered(before, x, y) || hit) by {
                    if cell_covered(after, x, y) {
                        let k = choose|k: int|
                            0 <= k < after.len() && (#[trigger] after[k]).0 <= x < after[k].2 && after[k].1 <= y
                                < after[k].3;
                        if k < i {
                            assert(before[k] == after[k]);
                        }
                    }
                    if cell_covered(before, x, y) {
                        let k = choose|k: int|
                            0 <= k < before.len() && (#[trigger] before[k]).0 <= x < before[k].2 && before[k].1 <= y
                                < before[k].3;
                        assert(after[k] == before[k]);
                    }
                }
                assert(cell_covered(out@, x, y) <==> cell_covered(prev, x, y) || hit) by {
                    if cell_covered(out@, x, y) {
                        let k = choose|k: int|
                            0 <= k < out@.len() && (#[trigger] out@[k]).0 <= x < out@[k].2 && out@[k].1 <= y
                                < out@[k].3;
                        if k < prev.len() {
                            assert(prev[k] == out@[k]);
                        }
                    }
                    if cell_covered(prev, x, y) {
                        let k = choose|k: int|
                            0 <= k < prev.len() && (#[trigger] prev[k]).0 <= x < prev[k].2 && prev[k].1 <= y
                                < prev[k].3;
                        assert(out@[k] == prev[k]);
                    }
                    if hit {
                        assert(out@[prev.len() as int] == r);
                    }
                }
            }
        }
        i = i + 1;
    }
    proof {
        assert(rects@.take(i as int) =~= rects@);
        assert(covered_cells(out@) =~= covered_cells(rects@));
    }
    out
}

/// Every corner of every rectangle is in coordinate range.
pub open spec fn rects_in_range(rects: Seq<(i64, i64, i64, i64)>) -> bool {
    forall|i: int|
        0 <= i < rects.len() ==> in_range((#[trigger] rects[i]).0 as int) && in_range(rects[i].1 as int) && in_range(
            rects[i].2 as int,
        ) && in_range(rects[i].3 as int)
}

/// `active` lists exactly the rectangles that meet the row at `y`, by
/// ascending left edge.
spec fn active_at(rects: Seq<(i64, i64, i64, i64)>, active: Seq<usize>, y: int) -> bool {
    &&& active_sorted(rects, active)
    &&& forall|k: int|
        0 <= k < rects.len() ==> (active.contains(#[trigger] (k as usize)) <==> rects[k].1 <= y < rects[k].3)
}

spec fn active_sorted(rects: Seq<(i64, i64, i64, i64)>, active: Seq<usize>) -> bool {
    &&& forall|p: int| 0 <= p < active.len() ==> (#[trigger] active[p]) < rects.len()
    &&& forall|p: int, q: int|
        0 <= p < q < active.len() ==> rects[(#[trigger] active[p]) as int].0 <= rects[(#[trigger] active[q]) as int].0
    &&& active.no_duplicates()
}

/// Insert rectangle `k`, keeping the list sorted by left edge.
fn insert_active(rects: &Vec<(i64, i64, i64, i64)>, active: &mut Vec<usize>, k: usize)
    requires
        k < rects@.len(),
        active_sorted(rects@, old(active)@),
        !old(active)@.contains(k),
    ensures
        active_sorted(rects@, final(active)@),
        forall|v: usize| final(active)@.contains(v) <==> old(active)@.contains(v) || v == k,
{
    let ghost prev = active@;
    let mut pos: usize = 0;
    while pos < active.len() && rects[active[pos]].0 < rects[k].0
        invariant
            k < rects@.len(),
            active_sorted(rects@, active@),
            active@ == prev,
            pos <= active@.len(),
            forall|p: int| 0 <= p < pos ==> rects@[(#[trigger] active@[p]) as int].0 < rects@[k as int].0,
        decreases active@.len() - pos,
    {
        pos = pos + 1;
    }
    active.insert(pos, k);
    proof {
        let now = active@;
        assert(now[pos as int] == k);
        assert forall|v: usize| now.contains(v) <==> prev.contains(v) || v == k by {
            if now.contains(v) && v != k {
                let p = choose|p: int| 0 <= p < now.len() && now[p] == v;
                if p < pos {
                    assert(prev[p] == v);
                } else {
                    assert(prev[p - 1] == v);
                }
            }
            if prev.contains(v) {
                let p = choose|p: int| 0 <= p < prev.len() && prev[p] == v;
                if p < pos {
                    assert(now[p] == v);
                } else {
                    assert(now[p + 1] == v);
                }
            }
        }
        assert(forall|p: int| 0 <= p < pos ==> now[p] == prev[p]);
        assert(forall|p: int| pos < p < now.len() ==> now[p] == prev[p - 1]);
        assert forall|p: int, q: int| 0 <= p < q < now.len() implies rects@[(#[trigger] now[p]) as int].0 <= rects@[(
        #[trigger] now[q]) as int].0 by {
            let pp = if p < pos { p } else { p - 1 };
            let qq = if q < pos { q } else { q - 1 };
            if p != pos && q != pos {
                assert(rects@[prev[pp] as int].0 <= rects@[prev[qq] as int].0);
            } else if p == pos {
                assert(rects@[prev[pos as int] as int].0 <= rects@[prev[qq] as int].0);
            }
        }
        assert forall|p: int, q: int| 0 <= p < now.len() && 0 <= q < now.len() && p != q implies now[p] != now[q] by {
            let pp = if p < pos { p } else { p - 1 };
            let qq = if q < pos { q } else { q - 1 };
            if p == pos {
                assert(prev.contains(prev[qq]));
            } else if q == pos {
                assert(prev.contains(prev[pp]));
            } else {
                assert(prev[pp] != prev[qq]);
            }
        }
    }
}

/// Remove rectangle `k` from the list.
fn remove_active(rects: &Vec<(i64, i64, i64, i64)>, active: &mut Vec<usize>, k: usize)
    requires
        active_sorted(rects@, old(active)@),
        old(active)@.contains(k),
    ensures
        active_sorted(rects@, final(active)@),
        forall|v: usize| final(active)@.contains(v) <==> old(active)@.contains(v) && v != k,
{
    let ghost prev = active@;
    let n = active.len();
    let mut pos: usize = 0;
    while active[pos] != k
        invariant
            active@ == prev,
            prev.contains(k),
            pos < n,
            n == active@.len(),
            forall|p: int| 0 <= p < pos ==> active@[p] != k,
        decreases n - pos,
    {
        proof {
            let q = choose|q: int| 0 <= q < prev.len() && prev[q] == k;
            assert(q > pos);
        }
        pos = pos + 1;
    }
    active.remove(pos);
    proof {
        let now = active@;
        assert(forall|p: int| 0 <= p < pos ==> now[p] == prev[p]);
        assert(forall|p: int| pos <= p < now.len() ==> now[p] == prev[p + 1]);
        assert forall|v: usize| now.contains(v) <==> prev.contains(v) && v != k by {
            if now.contains(v) {
                let p = choose|p: int| 0 <= p < now.len() && now[p] == v;
                let pp = if p < pos { p } else { p + 1 };
                assert(prev[pp] == v);
                assert(prev[pp] != prev[pos as int]);
            }
            if prev.contains(v) && v != k {
                let p = choose|p: int| 0 <= p < prev.len() && prev[p] == v;
                if p < pos {
                    assert(now[p] == v);
                } else {
                    assert(now[p - 1] == v);
                }
            }
        }
        assert forall|p: int, q: int| 0 <= p < q < now.len() implies rects@[(#[trigger] now[p]) as int].0 <= rects@[(
        #[trigger] now[q]) as int].0 by {
            let pp = if p < pos { p } else { p + 1 };
            let qq = if q < pos { q } else { q + 1 };
            assert(rects@[prev[pp] as int].0 <= rects@[prev[qq] as int].0);
        }
        assert forall|p: int, q: int| 0 <= p < now.len() && 0 <= q < now.len() && p != q implies now[p] != now[q] by {
            let pp = if p < pos { p } else { p + 1 };
            let qq = if q < pos { q } else { q + 1 };
            assert(prev[pp] != prev[qq]);
        }
    }
}

/// Covered length of the row that the active rectangles meet.
fn active_length(rects: &Vec<(i64, i64, i64, i64)>, active: &Vec<usize>, y: Ghost<int>) -> (len: i128)
    requires
        all_solid(rects@),
        active_at(rects@, active@, y@),
    ensures
        ({
            let row = Set::new(|x: int| cell_covered(rects@, x, y@));
            row.finite() && len == row.len()
        }),
        0 <= len <= 2 * COORD_LIMIT,
{
    let mut ivs: Vec<(i64, i64)> = Vec::new();
    let mut p: usize = 0;
    let n = rects.len();
    while p < active.len()
        invariant
            all_solid(rects@),
            active_sorted(rects@, active@),
            p <= active@.len(),
            ivs@.len() == p,
            forall|q: int|
                0 <= q < p ==> (#[trigger] ivs@[q]) == (rects@[active@[q] as int].0, rects@[active@[q] as int].2),
        decreases active@.len() - p,
    {
        let k = active[p];
        ivs.push((rects[k].0, rects[k].2));
        p = p + 1;
    }
    proof {
        assert forall|i: int, j: int| 0 <= i < j < ivs@.len() implies (#[trigger] ivs@[i]).0 <= (#[trigger] ivs@[j]).0 by {
            assert(rects@[active@[i] as int].0 <= rects@[active@[j] as int].0);
        }
        let row = Set::new(|x: int| cell_covered(rects@, x, y@));
        assert forall|x: int| row.contains(x) <==> line_covered(ivs@, x) by {
            if cell_covered(rects@, x, y@) {
                let k = choose|k: int|
                    0 <= k < n && (#[trigger] rects@[k]).0 <= x < rects@[k].2 && rects@[k].1 <= y@ < rects@[k].3;
                assert(active@.contains(k as usize));
                let q = choose|q: int| 0 <= q < active@.len() && active@[q] == k as usize;
                assert(ivs@[q].0 <= x < ivs@[q].1);
            }
            if line_covered(ivs@, x) {
                let q = choose|q: int| 0 <= q < ivs@.len() && (#[trigger] ivs@[q]).0 <= x < ivs@[q].1;
                let k = active@[q] as int;
                assert(active@.contains(k as usize));
                assert(rects@[k].1 <= y@ < rects@[k].3);
                assert(rects@[k].0 <= x < rects@[k].2);
            }
        }
        assert(row =~= covered_line(ivs@));
        let all = set_int_range(-COORD_LIMIT as int, COORD_LIMIT as int);
        range_set(-COORD_LIMIT as int, COORD_LIMIT as int);
        assert forall|x: int| row.contains(x) implies all.contains(x) by {
            let k = choose|k: int|
                0 <= k < rects@.len() && (#[trigger] rects@[k]).0 <= x < rects@[k].2 && rects@[k].1 <= y@
                    < rects@[k].3;
        }
        lemma_set_subset_finite(all, row);
        lemma_len_subset(row, all);
    }
    covered_x_length(ivs.as_slice())
}

/// `v` is among the first `i` entries of `order`.
spec fn listed(order: Seq<usize>, i: int, v: usize) -> bool {
    exists|p: int| 0 <= p < i && #[trigger] order[p] == v
}

/// The first `i` entries of a ranking are those with a key of at most `y`.
spec fn splits_at(keys: Seq<i128>, order: Seq<usize>, i: int, y: int) -> bool {
    &&& 0 <= i <= order.len()
    &&& forall|p: int| 0 <= p < i ==> keys[(#[trigger] order[p]) as int] <= y
    &&& i < order.len() ==> keys[order[i] as int] > y
}

proof fn listed_iff(keys: Seq<i128>, order: Seq<usize>, i: int, y: int)
    requires
        is_ranking(keys, order),
        keys.len() <= usize::MAX,
        splits_at(keys, order, i, y),
    ensures
        forall|k: int| 0 <= k < keys.len() ==> (listed(order, i, #[trigger] (k as usize)) <==> keys[k] <= y),
{
    assert forall|k: int| 0 <= k < keys.len() implies (listed(order, i, #[trigger] (k as usize)) <==> keys[k] <= y) by {
        assert(order.contains(k as usize));
        let q = choose|q: int| 0 <= q < order.len() && order[q] == k as usize;
        if keys[k] <= y && q >= i {
            if q > i {
                assert(ranks_before(keys, order[i] as int, order[q] as int));
            }
        }
        if listed(order, i, k as usize) {
            let p = choose|p: int| 0 <= p < i && #[trigger] order[p] == k as usize;
            assert(keys[order[p] as int] <= y);
        }
    }
}

proof fn listed_step(order: Seq<usize>, i: int)
    requires
        0 <= i < order.len(),
    ensures
        forall|v: usize| #[trigger] listed(order, i + 1, v) <==> listed(order, i, v) || v == order[i],
{
    assert forall|v: usize| #[trigger] listed(order, i + 1, v) <==> listed(order, i, v) || v == order[i] by {
        if listed(order, i, v) {
            let p = choose|p: int| 0 <= p < i && #[trigger] order[p] == v;
            assert(order[p] == v);
        }
        if v == order[i] {
            assert(order[i] == v);
        }
    }
}

proof fn not_listed_twice(keys: Seq<i128>, order: Seq<usize>, i: int)
    requires
        is_ranking(keys, order),
        0 <= i < order.len(),
    ensures
        !listed(order, i, order[i]),
{
    if listed(order, i, order[i]) {
        let p = choose|p: int| 0 <= p < i && #[trigger] order[p] == order[i];
        assert(ranks_before(keys, order[p] as int, order[i] as int));
    }
}

/// `lower` and `upper` hold the edges of `rects`.
spec fn edges_of(rects: Seq<(i64, i64, i64, i64)>, lower: Seq<i128>, upper: Seq<i128>) -> bool {
    &&& lower.len() == rects.len()
    &&& upper.len() == rects.len()
    &&& rects.len() <= usize::MAX
    &&& forall|q: int| 0 <= q < rects.len() ==> (#[trigger] lower[q]) == rects[q].1
    &&& forall|q: int| 0 <= q < rects.len() ==> (#[trigger] upper[q]) == rects[q].3
}

/// The rectangles entered but not left are those that meet the row at `y`.
proof fn active_is_row(
    rects: Seq<(i64, i64, i64, i64)>,
    lower: Seq<i128>,
    upper: Seq<i128>,
    enter: Seq<usize>,
    leave: Seq<usize>,
    active: Seq<usize>,
    i: int,
    j: int,
    y: int,
)
    requires
        edges_of(rects, lower, upper),
        is_ranking(lower, enter),
        is_ranking(upper, leave),
        splits_at(lower, enter, i, y),
        splits_at(upper, leave, j, y),
        active_sorted(rects, active),
        forall|v: usize| active.contains(v) <==> listed(enter, i, v) && !listed(leave, j, v),
    ensures
        active_at(rects, active, y),
{
    listed_iff(lower, enter, i, y);
    listed_iff(upper, leave, j, y);
    assert forall|k: int| 0 <= k < rects.len() implies (active.contains(#[trigger] (k as usize)) <==> rects[k].1 <= y
        < rects[k].3) by {
        assert(lower[k] == rects[k].1);
        assert(upper[k] == rects[k].3);
        assert(listed(enter, i, k as usize) <==> lower[k] <= y);
        assert(listed(leave, j, k as usize) <==> upper[k] <= y);
    }
}

/// Between two consecutive edges every row is covered alike.
proof fn strip_is_uniform(
    rects: Seq<(i64, i64, i64, i64)>,
    lower: Seq<i128>,
    upper: Seq<i128>,
    enter: Seq<usize>,
    leave: Seq<usize>,
    i: int,
    j: int,
    y: int,
    next: int,
)
    requires
        edges_of(rects, lower, upper),
        is_ranking(lower, enter),
        is_ranking(upper, leave),
        splits_at(lower, enter, i, y),
        splits_at(upper, leave, j, y),
        y <= next,
        i < enter.len() ==> next <= lower[enter[i] as int],
        j < leave.len() ==> next <= upper[leave[j] as int],
    ensures
        forall|x: int, t: int| y <= t < next ==> (#[trigger] cell_covered(rects, x, t) <==> cell_covered(rects, x, y)),
{
    assert forall|k: int| 0 <= k < rects.len() implies {
        &&& (#[trigger] rects[k]).1 <= y || rects[k].1 >= next
        &&& rects[k].3 <= y || rects[k].3 >= next
    } by {
        assert(enter.contains(k as usize));
        let p = choose|p: int| 0 <= p < enter.len() && enter[p] == k as usize;
        assert(lower[k] == rects[k].1);
        assert(upper[k] == rects[k].3);
        if p < i {
            assert(lower[enter[p] as int] <= y);
        } else if p > i {
            assert(ranks_before(lower, enter[i] as int, enter[p] as int));
        }
        assert(leave.contains(k as usize));
        let q = choose|q: int| 0 <= q < leave.len() && leave[q] == k as usize;
        if q < j {
            assert(upper[leave[q] as int] <= y);
        } else if q > j {
            assert(ranks_before(upper, leave[j] as int, leave[q] as int));
        }
    }
    assert forall|x: int, t: int| y <= t < next implies (#[trigger] cell_covered(rects, x, t) <==> cell_covered(
        rects,
        x,
        y,
    )) by {
        if cell_covered(rects, x, t) {
            let k = choose|k: int|
                0 <= k < rects.len() && (#[trigger] rects[k]).0 <= x < rects[k].2 && rects[k].1 <= t < rects[k].3;
            assert(rects[k].1 <= y < rects[k].3);
        }
        if cell_covered(rects, x, y) {
            let k = choose|k: int|
                0 <= k < rects.len() && (#[trigger] rects[k]).0 <= x < rects[k].2 && rects[k].1 <= y < rects[k].3;
            assert(rects[k].1 <= t < rects[k].3);
        }
    }
}

/// The cells below `next` are those below `y` and the uniform strip between.
proof fn add_strip(rects: Seq<(i64, i64, i64, i64)>, row: Set<int>, y: int, next: int)
    requires
        y <= next,
        row.finite(),
        forall|x: int| row.contains(x) <==> cell_covered(rects, x, y),
        forall|x: int, t: int| y <= t < next ==> (#[trigger] cell_covered(rects, x, t) <==> cell_covered(rects, x, y)),
        cells_below(rects, y).finite(),
    ensures
        cells_below(rects, next).finite(),
        cells_below(rects, next).len() == cells_below(rects, y).len() + (next - y) * row.len(),
{
    strip_len(row, y, next);
    lemma_set_disjoint_lens(cells_below(rects, y), strip(row, y, next));
    assert(cells_below(rects, next) =~= cells_below(rects, y).union(strip(row, y, next)));
}

/// Union area of a set of axis-aligned rectangles `(x0, y0, x1, y1)`, by a
/// scanline over their lower and upper edges.
pub fn rect_union_area(rects: &[(i64, i64, i64, i64)]) -> (area: i128)
    requires
        rects_in_range(rects@),
    ensures
        covered_cells(rects@).finite(),
        area == covered_cells(rects@).len(),
        area <= 0x2_0000_0000_0000_0000,
{
    let solid = solid_rects(rects);
    let n = solid.len();
    if n == 0 {
        assert(covered_cells(solid@) =~= Set::empty());
        return 0;
    }
    let mut lower: Vec<i128> = Vec::new();
    let mut upper: Vec<i128> = Vec::new();
    let mut k: usize = 0;
    while k < n
        invariant
            n == solid@.len(),
            k <= n,
            lower@.len() == k,
            upper@.len() == k,
            forall|q: int| 0 <= q < k ==> (#[trigger] lower@[q]) == solid@[q].1,
            forall|q: int| 0 <= q < k ==> (#[trigger] upper@[q]) == solid@[q].3,
        decreases n - k,
    {
        lower.push(solid[k].1 as i128);
        upper.push(solid[k].3 as i128);
        k = k + 1;
    }
    let enter = sort_indices(&lower);
    let leave = sort_indices(&upper);
    let mut active: Vec<usize> = Vec::new();
    let mut area: i128 = 0;
    let mut i: usize = 0;
    let mut j: usize = 0;
    let y_start: i128 = lower[enter[0]] - 1;
    let mut y_prev: i128 = y_start;
    proof {
        assert(solid@[enter@[0] as int].1 >= -COORD_LIMIT);
        assert forall|q: int| 0 <= q < n implies (#[trigger] solid@[q]).1 > y_start by {
            assert(enter@.contains(q as usize));
            let p = choose|p: int| 0 <= p < n && enter@[p] == q as usize;
            if p > 0 {
                assert(ranks_before(lower@, enter@[0] as int, enter@[p] as int));
            }
            assert(lower@[q] == solid@[q].1);
        }
        assert(upper@[leave@[0] as int] > y_start) by {
            assert(solid@[leave@[0] as int].1 > y_start);
        }
        assert(cells_below(solid@, y_start as int) =~= Set::empty());
    }
    while j < n
        invariant
            n == solid@.len(),
            all_solid(solid@),
            edges_of(solid@, lower@, upper@),
            is_ranking(lower@, enter@),
            is_ranking(upper@, leave@),
            i <= n,
            j <= n,
            -COORD_LIMIT - 1 <= y_start <= y_prev <= COORD_LIMIT,
            splits_at(lower@, enter@, i as int, y_prev as int),
            splits_at(upper@, leave@, j as int, y_prev as int),
            active_sorted(solid@, active@),
            forall|v: usize| active@.contains(v) <==> listed(enter@, i as int, v) && !listed(leave@, j as int, v),
            cells_below(solid@, y_prev as int).finite(),
            area == cells_below(solid@, y_prev as int).len(),
            0 <= area <= (y_prev - y_start) * (2 * COORD_LIMIT),
        decreases (n - i) + (n - j),
    {
        let y_out: i128 = upper[leave[j]];
        let y: i128 = if i < n && lower[enter[i]] <= y_out {
            lower[enter[i]]
        } else {
            y_out
        };
        assert(solid@[leave@[j as int] as int].3 <= COORD_LIMIT);
        proof {
            active_is_row(
                solid@,
                lower@,
                upper@,
                enter@,
                leave@,
                active@,
                i as int,
                j as int,
                y_prev as int,
            );
            strip_is_uniform(solid@, lower@, upper@, enter@, leave@, i as int, j as int, y_prev as int, y as int);
        }
        let len = active_length(&solid, &active, Ghost(y_prev as int));
        proof {
            let row = Set::new(|x: int| cell_covered(solid@, x, y_prev as int));
            add_strip(solid@, row, y_prev as int, y as int);
            assert(0 <= (y - y_prev) * len <= (y - y_prev) * (2 * COORD_LIMIT)) by (nonlinear_arith)
                requires
                    0 <= y - y_prev,
                    0 <= len <= 2 * COORD_LIMIT,
            ;
            assert((y_prev - y_start) * (2 * COORD_LIMIT) + (y - y_prev) * (2 * COORD_LIMIT) == (y - y_start) * (2
                * COORD_LIMIT)) by (nonlinear_arith);
            assert((y - y_start) * (2 * COORD_LIMIT) <= 0x2_0000_0000_0000_0000) by (nonlinear_arith)
                requires
                    y - y_start <= 2 * COORD_LIMIT + 1,
                    COORD_LIMIT == 0x8000_0000i64,
            ;
        }
        area = area + (y - y_prev) * len;
        let ghost i0 = i;
        let ghost j0 = j;
        while i < n && lower[enter[i]] == y
            invariant
                n == solid@.len(),
                edges_of(solid@, lower@, upper@),
                is_ranking(lower@, enter@),
                i0 <= i <= n,
                active_sorted(solid@, active@),
                forall|v: usize| active@.contains(v) <==> listed(enter@, i as int, v) && !listed(leave@, j as int, v),
                forall|p: int| 0 <= p < i ==> lower@[(#[trigger] enter@[p]) as int] <= y,
                forall|p: int| 0 <= p < j ==> upper@[(#[trigger] leave@[p]) as int] < y,
                all_solid(solid@),
            decreases n - i,
        {
            let k = enter[i];
            proof {
                not_listed_twice(lower@, enter@, i as int);
                listed_step(enter@, i as int);
                assert(!listed(leave@, j as int, k)) by {
                    if listed(leave@, j as int, k) {
                        let p = choose|p: int| 0 <= p < j && #[trigger] leave@[p] == k;
                        assert(upper@[leave@[p] as int] < y);
                        assert(solid@[k as int].1 < solid@[k as int].3);
                    }
                }
            }
            insert_active(&solid, &mut active, k);
            i = i + 1;
        }
        proof {
            if i < n {
                if i > i0 {
                    assert(ranks_before(lower@, enter@[i0 as int] as int, enter@[i as int] as int));
                }
                assert(lower@[enter@[i as int] as int] > y);
            }
            listed_iff(lower@, enter@, i as int, y as int);
        }
        while j < n && upper[leave[j]] == y
            invariant
                n == solid@.len(),
                all_solid(solid@),
                edges_of(solid@, lower@, upper@),
                is_ranking(upper@, leave@),
                j0 <= j <= n,
                active_sorted(solid@, active@),
                forall|v: usize| active@.contains(v) <==> listed(enter@, i as int, v) && !listed(leave@, j as int, v),
                forall|p: int| 0 <= p < j ==> upper@[(#[trigger] leave@[p]) as int] <= y,
                forall|k: int|
                    0 <= k < n ==> (listed(enter@, i as int, #[trigger] (k as usize)) <==> lower@[k] <= y),
            decreases n - j,
        {
            let k = leave[j];
            proof {
                not_listed_twice(upper@, leave@, j as int);
                listed_step(leave@, j as int);
                assert(solid@[k as int].1 < solid@[k as int].3);
                assert(listed(enter@, i as int, (k as int) as usize));
            }
            remove_active(&solid, &mut active, k);
            j = j + 1;
        }
        proof {
            if j < n && j > j0 {
                assert(ranks_before(upper@, leave@[j0 as int] as int, leave@[j as int] as int));
            }
        }
        y_prev = y;
    }
    proof {
        assert(cells_below(solid@, y_prev as int) =~= covered_cells(solid@)) by {
            assert forall|x: int, y: int| cell_covered(solid@, x, y) implies y < y_prev by {
                let k = choose|k: int|
                    0 <= k < n && (#[trigger] solid@[k]).0 <= x < solid@[k].2 && solid@[k].1 <= y < solid@[k].3;
                assert(leave@.contains(k as usize));
                let p = choose|p: int| 0 <= p < n && leave@[p] == k as usize;
                assert(upper@[leave@[p] as int] <= y_prev);
                assert(upper@[k] == solid@[k].3);
            }
        }
        assert((y_prev - y_start) * (2 * COORD_LIMIT) <= 0x2_0000_0000_0000_0000) by (nonlinear_arith)
            requires
                y_prev - y_start <= 2 * COORD_LIMIT + 1,
                COORD_LIMIT == 0x8000_0000i64,
        ;
    }
    area
}

} // verus!
