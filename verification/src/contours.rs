//! Rings: their areas, and the contours that stand for polygons.

use crate::geom::abs_of;
use crate::geom::area2;
use crate::geom::closed_ring;
use crate::geom::cross;
use crate::geom::edge_sum;
use crate::geom::holes_area2;
use crate::geom::ring_area2;
use crate::geom::Point;
use crate::geom::Shape;
use crate::overlay::all_contours;
use crate::overlay::contours_of;
use crate::overlay::contours_with;
use crate::overlay::open_ring;
use crate::overlay::oriented_contours;
use crate::overlay::oriented_exterior;
use crate::overlay::region_shape;
use crate::overlay::region_shapes;
use vstd::prelude::*;

verus! {

/// Each point of `b` is the one of `a`, moved.
pub open spec fn is_moved(a: Seq<Point>, b: Seq<Point>, dx: int, dy: int) -> bool {
    a.len() == b.len() && forall|i: int|
        0 <= i < a.len() ==> (#[trigger] b[i]).x == a[i].x + dx && b[i].y == a[i].y + dy
}

proof fn moved_edges(a: Seq<Point>, b: Seq<Point>, dx: int, dy: int, n: int)
    requires
        is_moved(a, b, dx, dy),
        0 <= n < a.len(),
    ensures
        edge_sum(b, n) == edge_sum(a, n) + dx * (a[n].y - a[0].y) - dy * (a[n].x - a[0].x),
    decreases n,
{
    if n > 0 {
        moved_edges(a, b, dx, dy, n - 1);
        let (p, q) = (a[n - 1], a[n]);
        assert(b[n - 1].x == p.x + dx && b[n].x == q.x + dx);
        let (px, py, qx, qy) = (p.x as int, p.y as int, q.x as int, q.y as int);
        assert((px + dx) * (qy + dy) - (qx + dx) * (py + dy) == px * qy - qx * py + dx * (qy - py) - dy * (qx - px))
            by (nonlinear_arith);
        let (ox, oy) = (a[0].x as int, a[0].y as int);
        assert(dx * (py - oy) + dx * (qy - py) == dx * (qy - oy)) by (nonlinear_arith);
        assert(dy * (px - ox) + dy * (qx - px) == dy * (qx - ox)) by (nonlinear_arith);
    } else {
        assert(dx * 0 == 0 && dy * 0 == 0) by (nonlinear_arith);
    }
}

/// The area of a ring does not depend on where it lies.
pub proof fn moving_keeps_the_area(a: Seq<Point>, b: Seq<Point>, dx: int, dy: int)
    requires
        is_moved(a, b, dx, dy),
    ensures
        ring_area2(b) == ring_area2(a),
{
    if a.len() > 0 {
        let n = a.len() - 1;
        moved_edges(a, b, dx, dy, n);
        assert(b[0].x == a[0].x + dx && b[n].x == a[n].x + dx);
        if a[0] == a[n] {
            assert(dx * 0 == 0 && dy * 0 == 0) by (nonlinear_arith);
            assert(b[0] == b[n]);
        } else {
            assert(b[0] != b[n]);
        }
    }
}

proof fn reversed_edges(a: Seq<Point>, n: int)
    requires
        0 <= n < a.len(),
    ensures
        edge_sum(a.reverse(), n) == edge_sum(a, a.len() - 1 - n) - edge_sum(a, a.len() - 1),
    decreases n,
{
    if n > 0 {
        reversed_edges(a, n - 1);
        let back = a.reverse();
        let k = a.len() - n;
        assert(back[n - 1] == a[k] && back[n] == a[k - 1]);
        assert(cross(a[k], a[k - 1]) == -cross(a[k - 1], a[k]));
        assert(edge_sum(a, k) == edge_sum(a, k - 1) + cross(a[k - 1], a[k]));
    }
}

/// A ring run the other way has the same area with the other sign.
pub proof fn reversing_turns_the_sign(a: Seq<Point>)
    ensures
        ring_area2(a.reverse()) == -ring_area2(a),
{
    if a.len() > 0 {
        reversed_edges(a, a.len() - 1);
        assert(a.reverse()[0] == a.last() && a.reverse().last() == a[0]);
    }
}

proof fn edges_of_prefix(a: Seq<Point>, b: Seq<Point>, n: int)
    requires
        0 <= n < a.len(),
        n < b.len(),
        forall|i: int| 0 <= i <= n ==> a[i] == b[i],
    ensures
        edge_sum(a, n) == edge_sum(b, n),
    decreases n,
{
    if n > 0 {
        edges_of_prefix(a, b, n - 1);
    }
}

proof fn edges_of_rest(a: Seq<Point>, b: Seq<Point>, k: int, n: int)
    requires
        0 <= k,
        k + n < a.len(),
        1 + n < b.len(),
        0 <= n,
        forall|i: int| 0 <= i <= n ==> #[trigger] b[i + 1] == a[k + i],
    ensures
        edge_sum(b, n + 1) == cross(b[0], b[1]) + edge_sum(a, k + n) - edge_sum(a, k),
    decreases n,
{
    reveal_with_fuel(edge_sum, 2);
    if n > 0 {
        edges_of_rest(a, b, k, n - 1);
        assert(b[(n - 1) + 1] == a[k + n - 1]);
        assert(b[n + 1] == a[k + n]);
    } else {
        assert(b[n + 1] == a[k + n]);
    }
}

/// Cut along a line from its first point to another one, a ring falls into two
/// whose areas add up to its own.
pub proof fn cutting_keeps_the_area(a: Seq<Point>, k: int)
    requires
        a.len() >= 2,
        a[0] == a.last(),
        0 < k < a.len() - 1,
    ensures
        ring_area2(a) == ring_area2(a.take(k + 1).push(a[0])) + ring_area2(seq![a[0]] + a.skip(k)),
{
    let (p, q) = (a.take(k + 1).push(a[0]), seq![a[0]] + a.skip(k));
    let n = a.len() - 1;
    edges_of_prefix(p, a, k);
    assert(edge_sum(p, k + 1) == edge_sum(p, k) + cross(p[k], p[k + 1]));
    assert(p[k] == a[k] && p[k + 1] == a[0] && p.len() == k + 2);
    assert forall|i: int| 0 <= i <= n - k implies #[trigger] q[i + 1] == a[k + i] by {}
    edges_of_rest(a, q, k, n - k);
    assert(q[0int + 1] == a[k + 0int] && q[0] == a[0]);
    assert(q.len() == n - k + 2);
    assert(q.last() == a[n]);
    assert(cross(a[k], a[0]) == -cross(a[0], a[k]));
}

/// A hole takes its own area from a polygon that has room for it.
pub proof fn hole_takes_its_area(s: Shape, hole: Seq<Point>)
    requires
        abs_of(ring_area2(s.exterior)) >= holes_area2(s.holes, s.holes.len() as int) + abs_of(ring_area2(hole)),
    ensures
        area2(Shape { exterior: s.exterior, holes: s.holes.push(hole) }) == area2(s) - abs_of(ring_area2(hole)),
{
    let more = s.holes.push(hole);
    holes_of_prefix(s.holes, more, s.holes.len() as int);
    assert(more[s.holes.len() as int] == hole);
}

proof fn holes_of_prefix(a: Seq<Seq<Point>>, b: Seq<Seq<Point>>, n: int)
    requires
        0 <= n <= a.len(),
        n <= b.len(),
        forall|i: int| 0 <= i < n ==> a[i] == b[i],
    ensures
        holes_area2(a, n) == holes_area2(b, n),
    decreases n,
{
    if n > 0 {
        holes_of_prefix(a, b, n - 1);
    }
}

/// A polygon without holes has the area of its exterior, whichever way that runs.
pub proof fn solid_has_the_area_of_its_exterior(ring: Seq<Point>)
    ensures
        area2(Shape { exterior: ring, holes: Seq::empty() }) == abs_of(ring_area2(ring)),
        area2(Shape { exterior: ring.reverse(), holes: Seq::empty() }) == abs_of(ring_area2(ring)),
{
    reversing_turns_the_sign(ring);
}

/// The ring is closed, and its last point before that is another than its first.
pub open spec fn is_closed_once(ring: Seq<Point>) -> bool {
    ring.len() >= 3 && ring[0] == ring.last() && ring[ring.len() - 2] != ring[0]
}

/// The contours of a polygon make up that polygon.
pub proof fn contours_are_read_back(s: Shape)
    requires
        is_closed_once(s.exterior),
        forall|i: int| 0 <= i < s.holes.len() ==> is_closed_once(#[trigger] s.holes[i]),
    ensures
        region_shape(contours_of(s)) == s,
{
    let cs = contours_of(s);
    let back = region_shape(cs);
    assert(cs[0] == s.exterior.drop_last());
    closing_opens(s.exterior);
    assert(back.holes.len() == s.holes.len());
    assert forall|i: int| 0 <= i < s.holes.len() implies back.holes[i] == #[trigger] s.holes[i] by {
        assert(cs.skip(1)[i] == open_ring(s.holes[i]));
        closing_opens(s.holes[i]);
    }
    assert(back.holes =~= s.holes);
}

proof fn closing_opens(ring: Seq<Point>)
    requires
        is_closed_once(ring),
    ensures
        closed_ring(open_ring(ring)) == ring,
{
    let open = open_ring(ring);
    assert(open.last() == ring[ring.len() - 2]);
    assert(open.push(open[0]) =~= ring);
}

/// Every ring of every polygon is among the contours.
pub proof fn every_ring_is_a_contour(shapes: Seq<Shape>, n: int, k: int, h: int)
    requires
        0 <= k < n <= shapes.len(),
    ensures
        all_contours(shapes, n).contains(open_ring(shapes[k].exterior)),
        oriented_contours(shapes, n).contains(oriented_exterior(shapes[k])),
        0 <= h < shapes[k].holes.len() ==> all_contours(shapes, n).contains(open_ring(shapes[k].holes[h]))
            && oriented_contours(shapes, n).contains(open_ring(shapes[k].holes[h])),
    decreases n,
{
    let (a, b) = (all_contours(shapes, n), oriented_contours(shapes, n));
    let (c, d) = (all_contours(shapes, n - 1), oriented_contours(shapes, n - 1));
    if k == n - 1 {
        let (e, f) = (contours_of(shapes[k]), contours_with(oriented_exterior(shapes[k]), shapes[k].holes));
        assert(a[c.len() as int] == e[0] && b[d.len() as int] == f[0]);
        if 0 <= h < shapes[k].holes.len() {
            assert(e[1 + h] == open_ring(shapes[k].holes[h]) && f[1 + h] == open_ring(shapes[k].holes[h]));
            assert(a[c.len() + 1 + h] == e[1 + h] && b[d.len() + 1 + h] == f[1 + h]);
        }
    } else {
        every_ring_is_a_contour(shapes, n - 1, k, h);
        let i = choose|i: int| 0 <= i < c.len() && c[i] == open_ring(shapes[k].exterior);
        assert(a[i] == c[i]);
        let j = choose|j: int| 0 <= j < d.len() && d[j] == oriented_exterior(shapes[k]);
        assert(b[j] == d[j]);
        if 0 <= h < shapes[k].holes.len() {
            let i = choose|i: int| 0 <= i < c.len() && c[i] == open_ring(shapes[k].holes[h]);
            assert(a[i] == c[i]);
            let j = choose|j: int| 0 <= j < d.len() && d[j] == open_ring(shapes[k].holes[h]);
            assert(b[j] == d[j]);
        }
    }
}

/// Every region with a contour becomes a polygon.
pub proof fn every_region_is_a_polygon(regions: Seq<Seq<Seq<Point>>>, n: int, k: int)
    requires
        0 <= k < n <= regions.len(),
        regions[k].len() > 0,
    ensures
        region_shapes(regions, n).contains(region_shape(regions[k])),
    decreases n,
{
    let (before, now) = (region_shapes(regions, n - 1), region_shapes(regions, n));
    if k == n - 1 {
        assert(now[before.len() as int] == region_shape(regions[k]));
    } else {
        every_region_is_a_polygon(regions, n - 1, k);
        let i = choose|i: int| 0 <= i < before.len() && before[i] == region_shape(regions[k]);
        assert(now[i] == before[i]);
    }
}

} // verus!
