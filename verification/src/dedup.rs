//! Removal of repeated polygons.

use crate::geom::dbu_of;
use crate::geom::ring_in_range;
use crate::geom::shapes_in_range;
use crate::geom::shapes_of;
use crate::geom::to_dbu;
use crate::geom::Point;
use crate::geom::Polygon;
use crate::geom::Shape;
use crate::order::is_ranking;
use crate::order::ranks_before;
use crate::order::sort_indices;
use vstd::prelude::*;

verus! {

/// A ring in whole database units.
pub open spec fn dbu_ring(ring: Seq<Point>) -> Seq<(int, int)> {
    ring.map_values(|p: Point| (dbu_of(p.x as int), dbu_of(p.y as int)))
}

/// Shape `i` has the exterior of an earlier one, in whole database units.
pub open spec fn is_repeated(shapes: Seq<Shape>, i: int) -> bool {
    exists|j: int| 0 <= j < i && dbu_ring((#[trigger] shapes[j]).exterior) == dbu_ring(shapes[i].exterior)
}

/// The first `n` shapes without the repeated ones.
pub open spec fn first_occurrences(shapes: Seq<Shape>, n: int) -> Seq<Shape>
    decreases n,
{
    if n <= 0 {
        Seq::empty()
    } else if is_repeated(shapes, n - 1) {
        first_occurrences(shapes, n - 1)
    } else {
        first_occurrences(shapes, n - 1).push(shapes[n - 1])
    }
}

/// A number that equal rings share.
spec fn ring_key(ring: Seq<(int, int)>, n: int) -> int
    decreases n,
{
    if n <= 0 {
        0
    } else {
        let k = (ring_key(ring, n - 1) * 1_000_003 + ring[n - 1].0 + 0x1_0000_0000) % 0x1fff_ffff_ffff_ffff;
        (k * 1_000_003 + ring[n - 1].1 + 0x1_0000_0000) % 0x1fff_ffff_ffff_ffff
    }
}

/// The key of a ring.
fn key_of(ring: &Vec<Point>) -> (k: i128)
    requires
        ring_in_range(ring@),
    ensures
        k == ring_key(dbu_ring(ring@), ring@.len() as int),
{
    let mut k: i128 = 0;
    let mut i: usize = 0;
    while i < ring.len()
        invariant
            ring_in_range(ring@),
            i <= ring@.len(),
            k == ring_key(dbu_ring(ring@), i as int),
            0 <= k < 0x1fff_ffff_ffff_ffff,
        decreases ring@.len() - i,
    {
        assert(ring@[i as int].in_range());
        let x = to_dbu(ring[i].x) as i128;
        let y = to_dbu(ring[i].y) as i128;
        let m: i128 = (k * 1_000_003 + x + 0x1_0000_0000) % 0x1fff_ffff_ffff_ffff;
        k = (m * 1_000_003 + y + 0x1_0000_0000) % 0x1fff_ffff_ffff_ffff;
        i = i + 1;
    }
    k
}

/// Are the rings equal in whole database units?
fn same_ring(a: &Vec<Point>, b: &Vec<Point>) -> (same: bool)
    requires
        ring_in_range(a@),
        ring_in_range(b@),
    ensures
        same == (dbu_ring(a@) == dbu_ring(b@)),
{
    if a.len() != b.len() {
        assert(dbu_ring(a@).len() != dbu_ring(b@).len());
        return false;
    }
    let mut i: usize = 0;
    while i < a.len()
        invariant
            ring_in_range(a@),
            ring_in_range(b@),
            a@.len() == b@.len(),
            i <= a@.len(),
            forall|j: int| 0 <= j < i ==> (#[trigger] dbu_ring(a@)[j]) == dbu_ring(b@)[j],
        decreases a@.len() - i,
    {
        assert(a@[i as int].in_range() && b@[i as int].in_range());
        if to_dbu(a[i].x) != to_dbu(b[i].x) || to_dbu(a[i].y) != to_dbu(b[i].y) {
            assert(dbu_ring(a@)[i as int] != dbu_ring(b@)[i as int]);
            return false;
        }
        i = i + 1;
    }
    assert(dbu_ring(a@) =~= dbu_ring(b@));
    true
}

/// The position of index `i` in a ranking.
proof fn position_in(keys: Seq<i128>, order: Seq<usize>, i: int) -> (p: int)
    requires
        is_ranking(keys, order),
        0 <= i < keys.len() <= usize::MAX,
    ensures
        0 <= p < order.len(),
        order[p] == i,
{
    assert(order.contains(i as usize));
    choose|p: int| 0 <= p < order.len() && order[p] == i as usize
}

/// Flags of the polygons that repeat an earlier one.
fn flag_repeated(polys: &Vec<Polygon>) -> (flags: Vec<bool>)
    requires
        shapes_in_range(shapes_of(polys@)),
    ensures
        flags@.len() == polys@.len(),
        forall|i: int| 0 <= i < polys@.len() ==> #[trigger] flags@[i] == is_repeated(shapes_of(polys@), i),
{
    let ghost shapes = shapes_of(polys@);
    let n = polys.len();
    let mut keys: Vec<i128> = Vec::new();
    let mut flags: Vec<bool> = Vec::new();
    let mut i: usize = 0;
    while i < n
        invariant
            n == polys@.len(),
            i <= n,
            shapes == shapes_of(polys@),
            shapes_in_range(shapes),
            keys@.len() == i,
            flags@.len() == i,
            forall|k: int|
                0 <= k < i ==> (#[trigger] keys@[k]) == ring_key(
                    dbu_ring(shapes[k].exterior),
                    shapes[k].exterior.len() as int,
                ),
        decreases n - i,
    {
        assert(shapes[i as int] == polys@[i as int]@);
        assert(shapes[i as int].in_range());
        keys.push(key_of(&polys[i].exterior));
        flags.push(false);
        i = i + 1;
    }
    let order = sort_indices(&keys);
    let mut start: usize = 0;
    let mut p: usize = 0;
    while p < n
        invariant
            n == polys@.len(),
            p <= n,
            start <= p,
            shapes == shapes_of(polys@),
            shapes_in_range(shapes),
            keys@.len() == n,
            flags@.len() == n,
            order@.len() == n,
            is_ranking(keys@, order@),
            forall|k: int|
                0 <= k < n ==> (#[trigger] keys@[k]) == ring_key(
                    dbu_ring(shapes[k].exterior),
                    shapes[k].exterior.len() as int,
                ),
            start < p ==> forall|q: int|
                start <= q < p ==> keys@[(#[trigger] order@[q]) as int] == keys@[order@[p - 1] as int],
            forall|q: int| 0 <= q < start ==> keys@[(#[trigger] order@[q]) as int] < keys@[order@[start as int] as int],
            forall|q: int| 0 <= q < p ==> flags@[(#[trigger] order@[q]) as int] == is_repeated(shapes, order@[q] as int),
            p > 0 ==> start < p,
        decreases n - p,
    {
        let i = order[p];
        assert(0 <= order@[p as int] < n);
        if p > 0 && keys[order[p - 1]] != keys[i] {
            proof {
                assert(ranks_before(keys@, order@[p - 1] as int, order@[p as int] as int));
                assert forall|q: int| 0 <= q < p implies keys@[(#[trigger] order@[q]) as int] < keys@[i as int] by {
                    if q < p - 1 {
                        assert(ranks_before(keys@, order@[q] as int, order@[p - 1] as int));
                    }
                }
            }
            start = p;
        }
        let mut repeated: bool = false;
        let mut q: usize = start;
        while q < p
            invariant
                n == polys@.len(),
                p < n,
                start <= q <= p,
                i == order@[p as int],
                i < n,
                shapes == shapes_of(polys@),
                shapes_in_range(shapes),
                keys@.len() == n,
                order@.len() == n,
                is_ranking(keys@, order@),
                forall|r: int| start <= r < p ==> keys@[(#[trigger] order@[r]) as int] == keys@[i as int],
                repeated ==> is_repeated(shapes, i as int),
                !repeated ==> forall|r: int|
                    start <= r < q ==> dbu_ring(shapes[(#[trigger] order@[r]) as int].exterior) != dbu_ring(
                        shapes[i as int].exterior,
                    ),
            decreases p - q,
        {
            let j = order[q];
            proof {
                assert(0 <= order@[q as int] < n);
                assert(shapes[i as int] == polys@[i as int]@ && shapes[j as int] == polys@[j as int]@);
                assert(shapes[i as int].in_range() && shapes[j as int].in_range());
                assert(ranks_before(keys@, order@[q as int] as int, order@[p as int] as int));
            }
            if same_ring(&polys[j].exterior, &polys[i].exterior) {
                assert(dbu_ring(shapes[j as int].exterior) == dbu_ring(shapes[i as int].exterior));
                repeated = true;
            }
            q = q + 1;
        }
        proof {
            if !repeated && is_repeated(shapes, i as int) {
                let j = choose|j: int|
                    0 <= j < i && dbu_ring((#[trigger] shapes[j]).exterior) == dbu_ring(shapes[i as int].exterior);
                assert(dbu_ring(shapes[j].exterior).len() == dbu_ring(shapes[i as int].exterior).len());
                assert(keys@[j] == keys@[i as int]);
                let r = position_in(keys@, order@, j);
                if r > p {
                    assert(ranks_before(keys@, order@[p as int] as int, order@[r] as int));
                }
                if r < start {
                    assert(keys@[order@[r] as int] < keys@[order@[start as int] as int]);
                }
                assert(start <= r < p);
                assert(false);
            }
        }
        let ghost before = flags@;
        flags[i] = repeated;
        proof {
            assert forall|q: int| 0 <= q < p + 1 implies flags@[(#[trigger] order@[q]) as int] == is_repeated(
                shapes,
                order@[q] as int,
            ) by {
                if q < p {
                    assert(ranks_before(keys@, order@[q] as int, order@[p as int] as int));
                    assert(before[order@[q] as int] == is_repeated(shapes, order@[q] as int));
                }
            }
        }
        p = p + 1;
    }
    proof {
        assert forall|i: int| 0 <= i < n implies #[trigger] flags@[i] == is_repeated(shapes, i) by {
            let q = position_in(keys@, order@, i);
            assert(flags@[order@[q] as int] == is_repeated(shapes, order@[q] as int));
        }
    }
    flags
}

/// Remove polygons whose exterior, in whole database units, is that of an
/// earlier one.
pub fn remove_repeated(polys: &Vec<Polygon>) -> (out: Vec<Polygon>)
    requires
        shapes_in_range(shapes_of(polys@)),
    ensures
        shapes_of(out@) == first_occurrences(shapes_of(polys@), polys@.len() as int),
        shapes_in_range(shapes_of(out@)),
{
    let ghost shapes = shapes_of(polys@);
    let flags = flag_repeated(polys);
    let mut out: Vec<Polygon> = Vec::new();
    let mut i: usize = 0;
    while i < polys.len()
        invariant
            i <= polys@.len(),
            shapes == shapes_of(polys@),
            shapes_in_range(shapes),
            flags@.len() == polys@.len(),
            forall|k: int| 0 <= k < polys@.len() ==> #[trigger] flags@[k] == is_repeated(shapes, k),
            shapes_of(out@) == first_occurrences(shapes, i as int),
            shapes_in_range(shapes_of(out@)),
        decreases polys@.len() - i,
    {
        assert(shapes[i as int] == polys@[i as int]@);
        assert(shapes[i as int].in_range());
        if !flags[i] {
            let ghost before = out@;
            out.push(polys[i].duplicate());
            assert(shapes_of(out@) =~= shapes_of(before).push(shapes[i as int]));
        }
        i = i + 1;
    }
    out
}

/// What is kept has no two equal exteriors, in whole database units.
pub proof fn kept_are_distinct(shapes: Seq<Shape>, n: int)
    requires
        0 <= n <= shapes.len(),
    ensures
        forall|a: int, b: int|
            0 <= a < b < first_occurrences(shapes, n).len() ==> dbu_ring(
                (#[trigger] first_occurrences(shapes, n)[a]).exterior,
            ) != dbu_ring((#[trigger] first_occurrences(shapes, n)[b]).exterior),
        forall|a: int|
            0 <= a < first_occurrences(shapes, n).len() ==> exists|j: int|
                0 <= j < n && #[trigger] shapes[j] == #[trigger] first_occurrences(shapes, n)[a],
    decreases n,
{
    if n > 0 {
        kept_are_distinct(shapes, n - 1);
        let before = first_occurrences(shapes, n - 1);
        let now = first_occurrences(shapes, n);
        assert forall|a: int| 0 <= a < now.len() implies exists|j: int|
            0 <= j < n && #[trigger] shapes[j] == #[trigger] now[a] by {
            if a < before.len() {
                assert(now[a] == before[a]);
                let j = choose|j: int| 0 <= j < n - 1 && #[trigger] shapes[j] == before[a];
                assert(shapes[j] == now[a]);
            } else {
                assert(shapes[n - 1] == now[a]);
            }
        }
        assert forall|a: int, b: int| 0 <= a < b < now.len() implies dbu_ring((#[trigger] now[a]).exterior) != dbu_ring(
            (#[trigger] now[b]).exterior,
        ) by {
            assert(now[a] == before[a]);
            if b < before.len() {
                assert(now[b] == before[b]);
                assert(dbu_ring(before[a].exterior) != dbu_ring(before[b].exterior));
            } else {
                let j = choose|j: int| 0 <= j < n - 1 && #[trigger] shapes[j] == before[a];
                assert(!is_repeated(shapes, n - 1));
            }
        }
    }
}

/// A shape that repeats none before it is kept.
pub proof fn first_is_kept(shapes: Seq<Shape>, n: int, j: int)
    requires
        0 <= j < n <= shapes.len(),
        !is_repeated(shapes, j),
    ensures
        first_occurrences(shapes, n).contains(shapes[j]),
    decreases n,
{
    let now = first_occurrences(shapes, n);
    let before = first_occurrences(shapes, n - 1);
    if j == n - 1 {
        assert(now[before.len() as int] == shapes[j]);
    } else {
        first_is_kept(shapes, n - 1, j);
        let p = choose|p: int| 0 <= p < before.len() && before[p] == shapes[j];
        assert(now[p] == shapes[j]);
    }
}

/// Coordinates that are equal in whole database units differ by at most half
/// of one.
pub proof fn same_dbu_is_near(a: int, b: int)
    requires
        dbu_of(a) == dbu_of(b),
    ensures
        -1 <= a - b <= 1,
{
}

} // verus!
