//! Polygons grown outward.

use crate::geom::bounds;
use crate::geom::box_bounds;
use crate::geom::copy_polygons;
use crate::geom::cross;
use crate::geom::edge_sum;
use crate::geom::holes_area2;
use crate::geom::in_range_is_in_reach;
use crate::geom::is_box;
use crate::geom::is_box_ring;
use crate::geom::ring_area2;
use crate::geom::ring_in_range;
use crate::geom::shapes_in_range;
use crate::geom::shapes_in_reach;
use crate::geom::shapes_of;
use crate::geom::signed_area2;
use crate::geom::Point;
use crate::geom::Polygon;
use crate::geom::Shape;
use crate::num::floor_div_wide;
use crate::num::isqrt;
use crate::num::isqrt_brackets;
use crate::num::scale_component;
use crate::num::scaled;
use crate::num::scaled_bounds;
use vstd::arithmetic::div_mod::lemma_fundamental_div_mod;
use vstd::arithmetic::div_mod::lemma_fundamental_div_mod_converse;
use vstd::prelude::*;

verus! {

/// Length of a unit normal.
pub const UNIT: i64 = 0x4000_0000;

/// Largest amount to grow by, in layout units.
pub const OFFSET_LIMIT: i64 = 0x4000_0000;

/// The outward normal of the edge from `a` to `b`, of length [`UNIT`], for a
/// ring that runs counter-clockwise.
pub open spec fn edge_normal(a: Point, b: Point) -> (int, int) {
    let (ex, ey) = (b.x - a.x, b.y - a.y);
    let m = ex * ex + ey * ey;
    (scaled(ey, UNIT as int, m), -scaled(ex, UNIT as int, m))
}

/// `n / d`, rounded to the nearest integer.
pub open spec fn nearest(n: int, d: int) -> int {
    (2 * n + d) / (2 * d)
}

/// One component of the step of a vertex along the bisector `b` of its edge
/// normals, of squared length `bb`: far enough to move both edges by `amount`,
/// but at most four times that.  Opposite normals cancel; then the step is
/// along the first one, `n1`.
pub open spec fn step_along(b: int, bb: int, n1: int, amount: int) -> int {
    if bb == 0 {
        nearest(n1 * amount, UNIT as int)
    } else if 4 * bb >= UNIT * UNIT {
        nearest(2 * amount * b * UNIT, bb)
    } else {
        scaled(b, 4 * amount, bb)
    }
}

/// A normal component that points outward, given that of a counter-clockwise
/// ring.
pub open spec fn outward(n: int, clockwise: bool) -> int {
    if clockwise {
        -n
    } else {
        n
    }
}

/// How far the edges at a vertex turn: positive to the left, zero on one line.
pub open spec fn turn_at(prev: Point, curr: Point, next: Point) -> int {
    (curr.x - prev.x) * (next.y - curr.y) - (next.x - curr.x) * (curr.y - prev.y)
}

/// The step of a vertex at a needle so thin that the normals `n` of its two edges
/// cancel: four times the amount along the needle, out of its tip or, where the
/// ring turns inward, out of the notch.
pub open spec fn needle_step(n: (int, int), is_tip: bool, amount: int) -> (int, int) {
    if is_tip {
        (nearest(4 * amount * (-n.1), UNIT as int), nearest(4 * amount * n.0, UNIT as int))
    } else {
        (nearest(4 * amount * n.1, UNIT as int), nearest(4 * amount * (-n.0), UNIT as int))
    }
}

/// Where a vertex goes: outward along the bisector of the normals of its
/// edges.  A vertex at an edge of no length stays.
pub open spec fn moved_vertex(prev: Point, curr: Point, next: Point, clockwise: bool, amount: int) -> (int, int) {
    if prev == curr || curr == next {
        (curr.x as int, curr.y as int)
    } else {
        let (p, q) = (edge_normal(prev, curr), edge_normal(curr, next));
        let (bx, by) = (outward(p.0 + q.0, clockwise), outward(p.1 + q.1, clockwise));
        let bb = bx * bx + by * by;
        let turn = turn_at(prev, curr, next);
        if bb == 0 && turn != 0 {
            let step = needle_step(p, (turn < 0) == clockwise, amount);
            (curr.x + step.0, curr.y + step.1)
        } else {
            (
                curr.x + step_along(bx, bb, outward(p.0, clockwise), amount),
                curr.y + step_along(by, bb, outward(p.1, clockwise), amount),
            )
        }
    }
}

/// The point at integer coordinates.
pub open spec fn point_at(c: (int, int)) -> Point {
    Point { x: c.0 as i64, y: c.1 as i64 }
}

/// Vertex `i` of a closed ring with `m` vertices, moved outward.
pub open spec fn moved(ring: Seq<Point>, i: int, clockwise: bool, amount: int) -> Point {
    let m = ring.len() - 1;
    point_at(moved_vertex(ring[(i + m - 1) % m], ring[i], ring[(i + 1) % m], clockwise, amount))
}

/// A closed ring with every vertex moved outward.
pub open spec fn moved_ring(ring: Seq<Point>, clockwise: bool, amount: int) -> Seq<Point> {
    let m = ring.len() - 1;
    Seq::new(ring.len(), |i: int| moved(ring, if i == m { 0 } else { i }, clockwise, amount))
}

/// A shape grown by `amount`: its exterior with every vertex moved outward.
/// A ring with fewer than three vertices stays as it is.
pub open spec fn grown_shape(s: Shape, amount: int) -> Shape {
    if s.exterior.len() < 4 {
        s
    } else {
        Shape { exterior: moved_ring(s.exterior, signed_area2(s) < 0, amount), holes: Seq::empty() }
    }
}

/// The squared length of an edge.
pub proof fn edge_length(a: Point, b: Point)
    requires
        a.in_range(),
        b.in_range(),
        a != b,
    ensures
        ({
            let (ex, ey) = (b.x - a.x, b.y - a.y);
            let m = ex * ex + ey * ey;
            &&& 0 < m <= 0x2_0000_0000_0000_0000
            &&& ex * ex <= m
            &&& ey * ey <= m
            &&& -0x1_0000_0000 <= ex <= 0x1_0000_0000
            &&& -0x1_0000_0000 <= ey <= 0x1_0000_0000
        }),
{
    let (ex, ey) = (b.x - a.x, b.y - a.y);
    let m = ex * ex + ey * ey;
    assert(0 <= ex * ex <= 0x1_0000_0000_0000_0000) by (nonlinear_arith)
        requires
            -0x1_0000_0000 <= ex <= 0x1_0000_0000,
    ;
    assert(0 <= ey * ey <= 0x1_0000_0000_0000_0000) by (nonlinear_arith)
        requires
            -0x1_0000_0000 <= ey <= 0x1_0000_0000,
    ;
    if ex != 0 {
        assert(ex * ex > 0) by (nonlinear_arith)
            requires
                ex != 0,
        ;
    } else {
        assert(ey * ey > 0) by (nonlinear_arith)
            requires
                ey != 0,
        ;
    }
}

/// The outward normal of an edge.
fn normal_of(a: &Point, b: &Point) -> (n: (i64, i64))
    requires
        a.in_range(),
        b.in_range(),
        *a != *b,
    ensures
        n.0 == edge_normal(*a, *b).0,
        n.1 == edge_normal(*a, *b).1,
        -UNIT <= n.0 <= UNIT,
        -UNIT <= n.1 <= UNIT,
{
    let ex = b.x - a.x;
    let ey = b.y - a.y;
    proof {
        edge_length(*a, *b);
    }
    let m: i128 = ex as i128 * ex as i128 + ey as i128 * ey as i128;
    (scale_component(ey, UNIT, m), -scale_component(ex, UNIT, m))
}

/// `n / d`, rounded to the nearest integer.
fn nearest_of(n: i128, d: i128) -> (q: i128)
    requires
        0 < d <= 0x1_0000_0000_0000_0000_0000_0000,
        -0x1_0000_0000_0000_0000_0000_0000 <= n <= 0x1_0000_0000_0000_0000_0000_0000,
    ensures
        q == nearest(n as int, d as int),
{
    floor_div_wide(2 * n + d, 2 * d)
}

/// A quotient is at most its bound.
proof fn nearest_bounds(n: int, d: int, limit: int)
    requires
        d > 0,
        limit >= 0,
        -limit * d <= n <= limit * d,
    ensures
        -limit <= nearest(n, d) <= limit,
{
    lemma_fundamental_div_mod(2 * n + d, 2 * d);
    let q = nearest(n, d);
    let r = (2 * n + d) % (2 * d);
    assert(-limit <= q <= limit) by (nonlinear_arith)
        requires
            2 * n + d == (2 * d) * q + r,
            0 <= r < 2 * d,
            -limit * d <= n <= limit * d,
            d > 0,
            limit >= 0,
    ;
}

/// A bisector that is at least half as long as a normal: the step is at most
/// four times the amount.
proof fn step_bounds(b: int, bb: int, amount: int)
    requires
        0 <= amount <= OFFSET_LIMIT,
        b * b <= bb,
        4 * bb >= UNIT * UNIT,
        -2 * UNIT <= b <= 2 * UNIT,
    ensures
        -4 * amount <= nearest(2 * amount * b * UNIT, bb) <= 4 * amount,
        -0x1_0000_0000_0000_0000_0000_0000 <= 2 * amount * b * UNIT <= 0x1_0000_0000_0000_0000_0000_0000,
{
    let u = UNIT as int;
    let ab = if b < 0 {
        -b
    } else {
        b
    };
    assert(ab * ab == b * b) by (nonlinear_arith)
        requires
            ab == b || ab == -b,
    ;
    assert(ab * u <= 2 * bb) by (nonlinear_arith)
        requires
            ab * ab <= bb,
            4 * bb >= u * u,
            ab >= 0,
            u > 0,
    ;
    let x = ab * u;
    assert(2 * amount * x <= 4 * amount * bb) by (nonlinear_arith)
        requires
            x <= 2 * bb,
            amount >= 0,
    ;
    assert(2 * amount * b * u == if b < 0 {
        -(2 * amount * x)
    } else {
        2 * amount * x
    }) by (nonlinear_arith)
        requires
            x == ab * u,
            ab == if b < 0 {
                -b
            } else {
                b
            },
    ;
    assert(2 * amount * x >= 0) by (nonlinear_arith)
        requires
            amount >= 0,
            x >= 0,
    ;
    assert(0 <= x <= 0x2000_0000_0000_0000) by (nonlinear_arith)
        requires
            x == ab * u,
            0 <= ab <= 0x8000_0000,
            u == 0x4000_0000,
    ;
    assert(2 * amount * x <= 0x1_0000_0000_0000_0000_0000_0000) by (nonlinear_arith)
        requires
            0 <= x <= 0x2000_0000_0000_0000,
            0 <= amount <= 0x4000_0000,
    ;
    assert(bb > 0) by (nonlinear_arith)
        requires
            4 * bb >= u * u,
            u == 0x4000_0000,
    ;
    assert((4 * amount) * bb == 4 * amount * bb) by (nonlinear_arith);
    assert(-(4 * amount) * bb == -(4 * amount * bb)) by (nonlinear_arith);
    nearest_bounds(2 * amount * b * u, bb, 4 * amount);
}

/// One component of the step of a vertex.
fn step_of(b: i64, bb: i128, n1: i64, amount: i64) -> (d: i64)
    requires
        0 <= amount <= OFFSET_LIMIT,
        -2 * UNIT <= b <= 2 * UNIT,
        -UNIT <= n1 <= UNIT,
        0 <= bb <= 0x1_0000_0000_0000_0000,
        b * b <= bb,
    ensures
        d == step_along(b as int, bb as int, n1 as int, amount as int),
        -4 * amount <= d <= 4 * amount,
{
    if bb == 0 {
        proof {
            let (n, a) = (n1 as int, amount as int);
            assert(-a * 0x4000_0000 <= n * a <= a * 0x4000_0000) by (nonlinear_arith)
                requires
                    -0x4000_0000 <= n <= 0x4000_0000,
                    0 <= a,
            ;
            nearest_bounds(n * a, UNIT as int, a);
        }
        return nearest_of(n1 as i128 * amount as i128, UNIT as i128) as i64;
    }
    if 4 * bb >= UNIT as i128 * UNIT as i128 {
        proof {
            step_bounds(b as int, bb as int, amount as int);
            let (a, c) = (amount as int, b as int);
            assert(-0x4000_0000_0000_0000 <= 2 * a * c <= 0x4000_0000_0000_0000) by (nonlinear_arith)
                requires
                    0 <= a <= 0x4000_0000,
                    -0x8000_0000 <= c <= 0x8000_0000,
            ;
        }
        return nearest_of(2 * amount as i128 * b as i128 * UNIT as i128, bb) as i64;
    }
    proof {
        let c = b as int;
        assert(-0x2000_0000 <= c <= 0x2000_0000) by (nonlinear_arith)
            requires
                c * c <= bb,
                4 * bb < 0x4000_0000 * 0x4000_0000,
        ;
        let a = 4 * amount;
        assert(-0x8000_0000_0000_0000 <= 2 * a * c <= 0x8000_0000_0000_0000) by (nonlinear_arith)
            requires
                0 <= a <= 0x1_0000_0000,
                -0x2000_0000 <= c <= 0x2000_0000,
        ;
    }
    scale_component(b, 4 * amount, bb)
}

/// How far the edges at a vertex turn.
fn turn_of(prev: &Point, curr: &Point, next: &Point) -> (t: i128)
    requires
        prev.in_range(),
        curr.in_range(),
        next.in_range(),
    ensures
        t == turn_at(*prev, *curr, *next),
{
    let (ax, ay) = (curr.x - prev.x, curr.y - prev.y);
    let (bx, by) = (next.x - curr.x, next.y - curr.y);
    proof {
        assert(-0x1_0000_0000_0000_0000 <= ax * by <= 0x1_0000_0000_0000_0000) by (nonlinear_arith)
            requires
                -0x1_0000_0000 <= ax <= 0x1_0000_0000,
                -0x1_0000_0000 <= by <= 0x1_0000_0000,
        ;
        assert(-0x1_0000_0000_0000_0000 <= bx * ay <= 0x1_0000_0000_0000_0000) by (nonlinear_arith)
            requires
                -0x1_0000_0000 <= bx <= 0x1_0000_0000,
                -0x1_0000_0000 <= ay <= 0x1_0000_0000,
        ;
    }
    ax as i128 * by as i128 - bx as i128 * ay as i128
}

/// One component of the step along a needle.
fn needle_of(n: i64, amount: i64) -> (d: i64)
    requires
        0 <= amount <= OFFSET_LIMIT,
        -UNIT <= n <= UNIT,
    ensures
        d == nearest(4 * amount * n, UNIT as int),
        -4 * amount <= d <= 4 * amount,
{
    proof {
        let (c, a) = (n as int, 4 * amount as int);
        assert(-a * 0x4000_0000 <= a * c <= a * 0x4000_0000) by (nonlinear_arith)
            requires
                -0x4000_0000 <= c <= 0x4000_0000,
                0 <= a,
        ;
        nearest_bounds(a * c, UNIT as int, a);
    }
    nearest_of(4 * amount as i128 * n as i128, UNIT as i128) as i64
}

/// Move a vertex outward.
fn move_vertex(prev: &Point, curr: &Point, next: &Point, clockwise: bool, amount: i64) -> (p: Point)
    requires
        prev.in_range(),
        curr.in_range(),
        next.in_range(),
        0 <= amount <= OFFSET_LIMIT,
    ensures
        p == point_at(moved_vertex(*prev, *curr, *next, clockwise, amount as int)),
        p.in_reach(),
        p.x == moved_vertex(*prev, *curr, *next, clockwise, amount as int).0,
        p.y == moved_vertex(*prev, *curr, *next, clockwise, amount as int).1,
{
    if *prev == *curr || *curr == *next {
        return *curr;
    }
    let n1 = normal_of(prev, curr);
    let n2 = normal_of(curr, next);
    let (n1x, n1y, bx, by) = if clockwise {
        (-n1.0, -n1.1, -(n1.0 + n2.0), -(n1.1 + n2.1))
    } else {
        (n1.0, n1.1, n1.0 + n2.0, n1.1 + n2.1)
    };
    proof {
        assert(0 <= bx * bx <= 0x4000_0000_0000_0000) by (nonlinear_arith)
            requires
                -0x8000_0000 <= bx <= 0x8000_0000,
        ;
        assert(0 <= by * by <= 0x4000_0000_0000_0000) by (nonlinear_arith)
            requires
                -0x8000_0000 <= by <= 0x8000_0000,
        ;
    }
    let bb: i128 = bx as i128 * bx as i128 + by as i128 * by as i128;
    if bb == 0 {
        let turn = turn_of(prev, curr, next);
        if turn != 0 {
            let is_tip = (turn < 0) == clockwise;
            let (dx, dy) = if is_tip {
                (needle_of(-n1.1, amount), needle_of(n1.0, amount))
            } else {
                (needle_of(n1.1, amount), needle_of(-n1.0, amount))
            };
            return Point { x: curr.x + dx, y: curr.y + dy };
        }
    }
    let dx = step_of(bx, bb, n1x, amount);
    let dy = step_of(by, bb, n1y, amount);
    Point { x: curr.x + dx, y: curr.y + dy }
}

/// Grow a polygon outward by `amount`, vertex by vertex along the bisectors of
/// its edge normals.
pub fn offset_polygon(poly: &Polygon, amount: i64) -> (out: Polygon)
    requires
        poly@.in_range(),
        0 <= amount <= OFFSET_LIMIT,
    ensures
        out@ == grown_shape(poly@, amount as int),
        out@.in_reach(),
{
    let n = poly.exterior.len();
    if n < 4 {
        proof {
            in_range_is_in_reach(poly@);
        }
        return poly.duplicate();
    }
    let clockwise = poly.has_negative_area();
    let m = n - 1;
    let ghost ring = poly.exterior@;
    let mut pts: Vec<Point> = Vec::new();
    let mut i: usize = 0;
    while i < m
        invariant
            n == poly.exterior@.len(),
            m == n - 1,
            n >= 4,
            ring == poly.exterior@,
            ring_in_range(ring),
            0 <= amount <= OFFSET_LIMIT,
            i <= m,
            pts@.len() == i,
            forall|j: int|
                0 <= j < i ==> (#[trigger] pts@[j]) == moved(ring, j, clockwise, amount as int) && pts@[j].in_reach(),
        decreases m - i,
    {
        let before: usize = if i == 0 {
            m - 1
        } else {
            i - 1
        };
        let after: usize = if i + 1 == m {
            0
        } else {
            i + 1
        };
        proof {
            if i == 0 {
                lemma_fundamental_div_mod_converse(i + m - 1, m as int, 0, m - 1);
            } else {
                lemma_fundamental_div_mod_converse(i + m - 1, m as int, 1, i - 1);
            }
            if i + 1 == m {
                lemma_fundamental_div_mod_converse(i + 1, m as int, 1, 0);
            } else {
                lemma_fundamental_div_mod_converse(i + 1, m as int, 0, i + 1);
            }
            assert(ring[before as int].in_range() && ring[i as int].in_range() && ring[after as int].in_range());
        }
        pts.push(move_vertex(&poly.exterior[before], &poly.exterior[i], &poly.exterior[after], clockwise, amount));
        i = i + 1;
    }
    let first = pts[0];
    pts.push(first);
    let out = Polygon { exterior: pts, holes: Vec::new() };
    proof {
        assert(out@.exterior =~= moved_ring(ring, clockwise, amount as int));
        assert(out@.holes =~= Seq::empty());
    }
    out
}

/// The shapes, each grown by `amount`.
pub open spec fn grown_shapes(shapes: Seq<Shape>, amount: int) -> Seq<Shape> {
    if amount == 0 {
        shapes
    } else {
        shapes.map_values(|s: Shape| grown_shape(s, amount))
    }
}

/// Grow each polygon by `amount`; by nothing, they are returned as they are.
pub fn offset_polygons(polys: &[Polygon], amount: i64) -> (out: Vec<Polygon>)
    requires
        shapes_in_range(shapes_of(polys@)),
        0 <= amount <= OFFSET_LIMIT,
    ensures
        shapes_of(out@) == grown_shapes(shapes_of(polys@), amount as int),
        shapes_in_reach(shapes_of(out@)),
{
    let ghost shapes = shapes_of(polys@);
    if amount == 0 {
        proof {
            assert forall|i: int| 0 <= i < shapes.len() implies (#[trigger] shapes[i]).in_reach() by {
                assert(shapes[i].in_range());
                in_range_is_in_reach(shapes[i]);
            }
        }
        return copy_polygons(polys);
    }
    let mut out: Vec<Polygon> = Vec::new();
    let mut i: usize = 0;
    while i < polys.len()
        invariant
            i <= polys@.len(),
            shapes == shapes_of(polys@),
            shapes_in_range(shapes),
            0 < amount <= OFFSET_LIMIT,
            out@.len() == i,
            forall|j: int|
                0 <= j < i ==> (#[trigger] out@[j])@ == grown_shape(shapes[j], amount as int) && out@[j]@.in_reach(),
        decreases polys@.len() - i,
    {
        assert(shapes[i as int] == polys@[i as int]@);
        assert(shapes[i as int].in_range());
        out.push(offset_polygon(&polys[i], amount));
        i = i + 1;
    }
    assert(shapes_of(out@) =~= grown_shapes(shapes, amount as int));
    out
}

/// The outward normal of an edge along an axis is exact.
proof fn axis_normal(a: Point, b: Point)
    requires
        a != b,
        a.x == b.x || a.y == b.y,
    ensures
        a.x == b.x && b.y > a.y ==> edge_normal(a, b) == (UNIT as int, 0int),
        a.x == b.x && b.y < a.y ==> edge_normal(a, b) == (-UNIT as int, 0int),
        a.y == b.y && b.x > a.x ==> edge_normal(a, b) == (0int, -UNIT as int),
        a.y == b.y && b.x < a.x ==> edge_normal(a, b) == (0int, UNIT as int),
{
    let (ex, ey) = (b.x - a.x, b.y - a.y);
    let m = ex * ex + ey * ey;
    if ex == 0 {
        assert(ex * ex == 0 && ey * ey > 0) by (nonlinear_arith)
            requires
                ex == 0,
                ey != 0,
        ;
    } else {
        assert(ey * ey == 0 && ex * ex > 0) by (nonlinear_arith)
            requires
                ey == 0,
                ex != 0,
        ;
    }
    scaled_bounds(ex, UNIT as int, m);
    scaled_bounds(ey, UNIT as int, m);
}

/// At a right angle the step along each axis is the amount.
proof fn corner_step(b: int, amount: int)
    requires
        b == UNIT || b == -UNIT,
        0 <= amount <= OFFSET_LIMIT,
    ensures
        step_along(b, 2 * (UNIT * UNIT), b, amount) == if b > 0 {
            amount
        } else {
            -amount
        },
{
    let u = UNIT as int;
    let bb = 2 * (u * u);
    assert(u * u == 0x1000_0000_0000_0000) by (nonlinear_arith)
        requires
            u == 0x4000_0000,
    ;
    if b > 0 {
        assert(2 * amount * b * u == amount * bb) by (nonlinear_arith)
            requires
                b == u,
                bb == 2 * (u * u),
        ;
        assert(2 * (amount * bb) + bb == (2 * bb) * amount + bb) by (nonlinear_arith);
        lemma_fundamental_div_mod_converse(2 * (amount * bb) + bb, 2 * bb, amount, bb);
    } else {
        assert(2 * amount * b * u == -amount * bb) by (nonlinear_arith)
            requires
                b == -u,
                bb == 2 * (u * u),
        ;
        assert(2 * (-amount * bb) + bb == (2 * bb) * (-amount) + bb) by (nonlinear_arith);
        lemma_fundamental_div_mod_converse(2 * (-amount * bb) + bb, 2 * bb, -amount, bb);
    }
}

/// A corner between two edges along different axes moves by the amount along
/// both normals.
proof fn corner_moves(prev: Point, curr: Point, next: Point, clockwise: bool, amount: int, sx: int, sy: int)
    requires
        0 <= amount <= OFFSET_LIMIT,
        sx == 1 || sx == -1,
        sy == 1 || sy == -1,
        prev != curr,
        curr != next,
        ({
            let (p, q) = (edge_normal(prev, curr), edge_normal(curr, next));
            outward(p.0 + q.0, clockwise) == sx * UNIT && outward(p.1 + q.1, clockwise) == sy * UNIT
        }),
    ensures
        moved_vertex(prev, curr, next, clockwise, amount) == (curr.x + sx * amount, curr.y + sy * amount),
{
    let (p, q) = (edge_normal(prev, curr), edge_normal(curr, next));
    let u = UNIT as int;
    let (bx, by) = (outward(p.0 + q.0, clockwise), outward(p.1 + q.1, clockwise));
    assert(bx * bx == u * u && by * by == u * u) by (nonlinear_arith)
        requires
            bx == u || bx == -u,
            by == u || by == -u,
    ;
    corner_step(bx, amount);
    corner_step(by, amount);
    assert(u * u > 0) by (nonlinear_arith)
        requires
            u == 0x4000_0000,
    ;
}

/// The sign of the area of a box ring tells its direction.
proof fn box_area(r: Seq<Point>)
    requires
        is_box_ring(r),
    ensures
        ({
            let area = (r[2].x - r[0].x) * (r[2].y - r[0].y);
            &&& area != 0
            &&& ring_area2(r) == if r[1].y == r[0].y {
                2 * area
            } else {
                -2 * area
            }
            &&& area > 0 <==> (r[2].x > r[0].x <==> r[2].y > r[0].y)
        }),
{
    reveal_with_fuel(edge_sum, 6);
    let (a, b, c, d) = (r[0].x as int, r[0].y as int, r[2].x as int, r[2].y as int);
    let area = (c - a) * (d - b);
    assert(area != 0 && (area > 0 <==> (c > a <==> d > b))) by (nonlinear_arith)
        requires
            area == (c - a) * (d - b),
            a != c,
            b != d,
    ;
    if r[1].y == r[0].y {
        assert((a * b - c * b) + (c * d - c * b) + (c * d - a * d) + (a * b - a * d) == 2 * area) by (nonlinear_arith)
            requires
                area == (c - a) * (d - b),
        ;
    } else {
        assert((a * d - a * b) + (a * d - c * d) + (c * b - c * d) + (c * b - a * b) == -2 * area) by (nonlinear_arith)
            requires
                area == (c - a) * (d - b),
        ;
    }
    assert(ring_area2(r) == cross(r[0], r[1]) + cross(r[1], r[2]) + cross(r[2], r[3]) + cross(r[3], r[4]));
}

/// A rectangle grown by `amount` is the rectangle that is larger by `amount`
/// on all four sides, whatever corner its ring starts at and whichever way it
/// runs.
pub proof fn box_grows_on_all_sides(s: Shape, amount: int)
    requires
        s.in_range(),
        is_box(s),
        0 <= amount <= OFFSET_LIMIT,
    ensures
        is_box(grown_shape(s, amount)),
        bounds(grown_shape(s, amount).exterior) == bounds(s.exterior).spec_grown(amount),
{
    let g = s.exterior;
    box_area(g);
    box_bounds(g);
    let clockwise = signed_area2(s) < 0;
    assert(clockwise == (ring_area2(g) < 0));
    assert(g[0].in_range() && g[2].in_range());
    axis_normal(g[3], g[0]);
    axis_normal(g[0], g[1]);
    axis_normal(g[1], g[2]);
    axis_normal(g[2], g[3]);
    let sx = if g[0].x < g[2].x {
        -1int
    } else {
        1int
    };
    let sy = if g[0].y < g[2].y {
        -1int
    } else {
        1int
    };
    let (tx, ty) = if g[1].y == g[0].y {
        (-sx, sy)
    } else {
        (sx, -sy)
    };
    corner_moves(g[3], g[0], g[1], clockwise, amount, sx, sy);
    corner_moves(g[0], g[1], g[2], clockwise, amount, tx, ty);
    corner_moves(g[1], g[2], g[3], clockwise, amount, -sx, -sy);
    corner_moves(g[2], g[3], g[0], clockwise, amount, -tx, -ty);
    let out = moved_ring(g, clockwise, amount);
    assert(g.len() - 1 == 4);
    assert(3int % 4 == 3 && 4int % 4 == 0 && 5int % 4 == 1 && 6int % 4 == 2 && 1int % 4 == 1 && 2int % 4 == 2);
    assert(out[0] == point_at(moved_vertex(g[3], g[0], g[1], clockwise, amount)));
    assert(out[1] == point_at(moved_vertex(g[0], g[1], g[2], clockwise, amount)));
    assert(out[2] == point_at(moved_vertex(g[1], g[2], g[3], clockwise, amount)));
    assert(out[3] == point_at(moved_vertex(g[2], g[3], g[0], clockwise, amount)));
    assert(out[4] == out[0]);
    assert(is_box_ring(out));
    box_bounds(out);
}

proof fn scaled_is_odd(e: int, a: int, m: int)
    requires
        m > 0,
    ensures
        scaled(-e, a, m) == -scaled(e, a, m),
{
    assert((2 * a * (-e)) * (2 * a * (-e)) == (2 * a * e) * (2 * a * e)) by (nonlinear_arith);
    if e == 0 {
        assert((2 * a * e) * (2 * a * e) == 0) by (nonlinear_arith)
            requires
                e == 0,
        ;
        assert(0int / m == 0) by (nonlinear_arith)
            requires
                m > 0,
        ;
        crate::num::isqrt_is(0, 0);
    }
}

/// An edge run the other way has the opposite normal.
proof fn normals_turn(a: Point, b: Point)
    requires
        a != b,
    ensures
        edge_normal(b, a) == (-edge_normal(a, b).0, -edge_normal(a, b).1),
{
    let (ex, ey) = (b.x - a.x, b.y - a.y);
    let m = ex * ex + ey * ey;
    assert((a.x - b.x) * (a.x - b.x) + (a.y - b.y) * (a.y - b.y) == m && m > 0) by (nonlinear_arith)
        requires
            m == (b.x - a.x) * (b.x - a.x) + (b.y - a.y) * (b.y - a.y),
            a.x != b.x || a.y != b.y,
    ;
    scaled_is_odd(ex, UNIT as int, m);
    scaled_is_odd(ey, UNIT as int, m);
}

/// The ring turns back on itself at a vertex: the second edge runs along the
/// first one.
pub open spec fn doubles_back(prev: Point, curr: Point, next: Point) -> bool {
    turn_at(prev, curr, next) == 0 && (curr.x - prev.x) * (next.x - curr.x) + (curr.y - prev.y) * (next.y - curr.y) < 0
}

/// A component that makes up half of the squared length is not scaled to nothing,
/// and none changes its sign.
proof fn scaled_is_felt(e: int, a: int, m: int)
    requires
        a > 0,
        m > 0,
    ensures
        e >= 0 ==> scaled(e, a, m) >= 0,
        e <= 0 ==> scaled(e, a, m) <= 0,
        2 * (e * e) >= m ==> scaled(e, a, m) != 0,
{
    let x = (2 * a * e) * (2 * a * e);
    assert(x >= 0) by (nonlinear_arith)
        requires
            x == (2 * a * e) * (2 * a * e),
    ;
    assert(x / m >= 0) by (nonlinear_arith)
        requires
            x >= 0,
            m > 0,
    ;
    isqrt_brackets(x / m);
    if e == 0 {
        scaled_is_odd(e, a, m);
    }
    if 2 * (e * e) >= m {
        let ee = e * e;
        assert(x >= m) by (nonlinear_arith)
            requires
                x == (2 * a * e) * (2 * a * e),
                ee == e * e,
                2 * ee >= m,
                a >= 1,
                m > 0,
        ;
        assert(x / m >= 1) by (nonlinear_arith)
            requires
                x >= m,
                m > 0,
        ;
        let r = isqrt(x / m);
        if r == 0 {
            assert((r + 1) * (r + 1) == 1) by (nonlinear_arith)
                requires
                    r == 0,
            ;
        }
    }
}

/// Edges on one line that do not double back have normals that do not cancel.
proof fn straight_normals_stay(prev: Point, curr: Point, next: Point)
    requires
        prev != curr,
        curr != next,
        turn_at(prev, curr, next) == 0,
        !doubles_back(prev, curr, next),
    ensures
        edge_normal(prev, curr).0 + edge_normal(curr, next).0 != 0 || edge_normal(prev, curr).1 + edge_normal(
            curr,
            next,
        ).1 != 0,
{
    let (ax, ay) = (curr.x - prev.x, curr.y - prev.y);
    let (bx, by) = (next.x - curr.x, next.y - curr.y);
    let (m, n) = (ax * ax + ay * ay, bx * bx + by * by);
    assert(m > 0) by (nonlinear_arith)
        requires
            m == ax * ax + ay * ay,
            ax != 0 || ay != 0,
    ;
    assert(n > 0) by (nonlinear_arith)
        requires
            n == bx * bx + by * by,
            bx != 0 || by != 0,
    ;
    assert(ax * bx >= 0 && ay * by >= 0) by (nonlinear_arith)
        requires
            ax * by - bx * ay == 0,
            ax * bx + ay * by >= 0,
    ;
    scaled_is_felt(ax, UNIT as int, m);
    scaled_is_felt(ay, UNIT as int, m);
    scaled_is_felt(bx, UNIT as int, n);
    scaled_is_felt(by, UNIT as int, n);
    if 2 * (ax * ax) >= m {
        assert(ax != 0) by (nonlinear_arith)
            requires
                2 * (ax * ax) >= m,
                m > 0,
        ;
        same_side(ax, bx);
    } else {
        assert(2 * (ay * ay) >= m);
        assert(ay != 0) by (nonlinear_arith)
            requires
                2 * (ay * ay) >= m,
                m > 0,
        ;
        same_side(ay, by);
    }
}

proof fn same_side(a: int, b: int)
    requires
        a * b >= 0,
        a != 0,
    ensures
        a > 0 ==> b >= 0,
        a < 0 ==> b <= 0,
{
    assert((a > 0 ==> b >= 0) && (a < 0 ==> b <= 0)) by (nonlinear_arith)
        requires
            a * b >= 0,
            a != 0,
    ;
}

proof fn vertex_moves_alike(prev: Point, curr: Point, next: Point, clockwise: bool, amount: int)
    requires
        !doubles_back(prev, curr, next),
    ensures
        moved_vertex(next, curr, prev, !clockwise, amount) == moved_vertex(prev, curr, next, clockwise, amount),
{
    if prev != curr && curr != next {
        normals_turn(prev, curr);
        normals_turn(curr, next);
        let (p, q) = (edge_normal(prev, curr), edge_normal(curr, next));
        let (x, y) = (p.0 + q.0, p.1 + q.1);
        let (bx, by) = (outward(x, clockwise), outward(y, clockwise));
        assert(turn_at(next, curr, prev) == -turn_at(prev, curr, next)) by (nonlinear_arith);
        if bx != 0 || by != 0 {
            assert(bx * bx + by * by != 0) by (nonlinear_arith)
                requires
                    bx != 0 || by != 0,
            ;
        } else {
            if turn_at(prev, curr, next) == 0 {
                straight_normals_stay(prev, curr, next);
            }
            assert(bx * bx + by * by == 0);
        }
    }
}

proof fn edges_turn(ring: Seq<Point>, n: int)
    requires
        0 <= n < ring.len(),
    ensures
        edge_sum(ring.reverse(), n) == edge_sum(ring, ring.len() - 1 - n) - edge_sum(ring, ring.len() - 1),
    decreases n,
{
    if n > 0 {
        edges_turn(ring, n - 1);
        let m = ring.len() - 1;
        let (a, b) = (ring[m - n], ring[m - n + 1]);
        assert(ring.reverse()[n - 1] == b && ring.reverse()[n] == a);
        assert(cross(b, a) == -cross(a, b)) by (nonlinear_arith)
            requires
                cross(b, a) == b.x * a.y - a.x * b.y,
                cross(a, b) == a.x * b.y - b.x * a.y,
        ;
    }
}

/// The ring does not double back at vertex `i`.
pub open spec fn goes_on(ring: Seq<Point>, i: int) -> bool {
    let m = ring.len() - 1;
    !doubles_back(ring[(i + m - 1) % m], ring[i], ring[(i + 1) % m])
}

proof fn neighbours(i: int, m: int)
    requires
        0 <= i < m,
    ensures
        (i + m - 1) % m == if i == 0 {
            m - 1
        } else {
            i - 1
        },
        (i + 1) % m == if i + 1 == m {
            0
        } else {
            i + 1
        },
{
    if i > 0 {
        lemma_fundamental_div_mod_converse(i + m - 1, m, 1, i - 1);
    } else {
        lemma_fundamental_div_mod_converse(m - 1, m, 0, m - 1);
    }
    if i + 1 == m {
        lemma_fundamental_div_mod_converse(m, m, 1, 0);
    } else {
        lemma_fundamental_div_mod_converse(i + 1, m, 0, i + 1);
    }
}

proof fn reversed_vertex(ring: Seq<Point>, k: int, j: int, clockwise: bool, amount: int)
    requires
        ring.len() >= 4,
        ring[0] == ring.last(),
        0 <= k < ring.len() - 1,
        j == if k == 0 {
            0
        } else {
            ring.len() - 1 - k
        },
        goes_on(ring, j),
    ensures
        moved(ring.reverse(), k, !clockwise, amount) == moved(ring, j, clockwise, amount),
{
    let m = ring.len() - 1;
    let back = ring.reverse();
    neighbours(j, m);
    neighbours(k, m);
    let (before, after) = (ring[(j + m - 1) % m], ring[(j + 1) % m]);
    assert(back[(k + m - 1) % m] == after);
    assert(back[(k + 1) % m] == before);
    assert(back[k] == ring[j]);
    vertex_moves_alike(before, ring[j], after, clockwise, amount);
}

/// Growing a ring run the other way gives the grown ring run the other way.
/// Left out are rings without area and rings that run back along an edge, which
/// no simple polygon does.
pub proof fn reversed_ring_grows_alike(ring: Seq<Point>, amount: int)
    requires
        ring.len() >= 4,
        ring[0] == ring.last(),
        ring_area2(ring) != 0,
        forall|i: int| 0 <= i < ring.len() - 1 ==> #[trigger] goes_on(ring, i),
    ensures
        grown_shape(Shape { exterior: ring.reverse(), holes: Seq::empty() }, amount).exterior == grown_shape(
            Shape { exterior: ring, holes: Seq::empty() },
            amount,
        ).exterior.reverse(),
{
    let m = ring.len() - 1;
    let back = ring.reverse();
    let (s, t) = (Shape { exterior: ring, holes: Seq::empty() }, Shape { exterior: back, holes: Seq::empty() });
    edges_turn(ring, m);
    assert(back[0] == ring[m] && back.last() == ring[0]);
    assert(ring_area2(back) == -ring_area2(ring));
    let cw = signed_area2(s) < 0;
    assert(holes_area2(Seq::empty(), 0) == 0);
    assert((signed_area2(t) < 0) == !cw);
    let (x, y) = (moved_ring(back, !cw, amount), moved_ring(ring, cw, amount).reverse());
    assert forall|i: int| 0 <= i < ring.len() implies x[i] == y[i] by {
        let k = if i == m {
            0
        } else {
            i
        };
        let j = if k == 0 {
            0
        } else {
            m - k
        };
        assert(goes_on(ring, j));
        reversed_vertex(ring, k, j, cw, amount);
    }
    assert(x =~= y);
}

/// 1, 0 or -1.
pub open spec fn sign_of(v: int) -> int {
    if v > 0 {
        1
    } else if v < 0 {
        -1
    } else {
        0
    }
}

/// The direction outward of the edge from `a` to `b`, for an edge along an axis of
/// a ring that encloses a positive or, clockwise, a negative area.
pub open spec fn out_of_edge(a: Point, b: Point, clockwise: bool) -> (int, int) {
    let (dx, dy) = (sign_of(b.x - a.x), sign_of(b.y - a.y));
    if clockwise {
        (-dy, dx)
    } else {
        (dy, -dx)
    }
}

/// The edge runs along an axis.
pub open spec fn is_axial(a: Point, b: Point) -> bool {
    a != b && (a.x == b.x || a.y == b.y)
}

/// Where a vertex of a shape stands: the points before it, at it and after it.
pub open spec fn around(s: Shape, i: int) -> (Point, Point, Point) {
    let m = s.exterior.len() - 1;
    (s.exterior[(i + m - 1) % m], s.exterior[i], s.exterior[(i + 1) % m])
}

/// At a right angle between edges along the axes, inward or outward, growing moves
/// the vertex by the amount outward of both of its edges.
pub proof fn right_angle_moves_out_of_both_edges(s: Shape, i: int, amount: int)
    requires
        s.in_range(),
        s.exterior.len() >= 4,
        0 <= i < s.exterior.len() - 1,
        0 <= amount <= OFFSET_LIMIT,
        ({
            let (prev, curr, next) = around(s, i);
            &&& is_axial(prev, curr)
            &&& is_axial(curr, next)
            &&& (prev.x == curr.x) != (curr.x == next.x)
        }),
    ensures
        ({
            let (prev, curr, next) = around(s, i);
            let clockwise = signed_area2(s) < 0;
            let (a, b) = (out_of_edge(prev, curr, clockwise), out_of_edge(curr, next, clockwise));
            let p = grown_shape(s, amount).exterior[i];
            p.x == curr.x + amount * (a.0 + b.0) && p.y == curr.y + amount * (a.1 + b.1)
        }),
{
    let (prev, curr, next) = around(s, i);
    let clockwise = signed_area2(s) < 0;
    assert(s.exterior[i].in_range());
    axis_normal(prev, curr);
    axis_normal(curr, next);
    let (a, b) = (out_of_edge(prev, curr, clockwise), out_of_edge(curr, next, clockwise));
    let (sx, sy) = (a.0 + b.0, a.1 + b.1);
    corner_moves(prev, curr, next, clockwise, amount, sx, sy);
    assert(amount * sx == sx * amount && amount * sy == sy * amount) by (nonlinear_arith);
    assert(-amount <= amount * sx <= amount && -amount <= amount * sy <= amount) by (nonlinear_arith)
        requires
            -1 <= sx <= 1,
            -1 <= sy <= 1,
            amount >= 0,
    ;
    assert(grown_shape(s, amount).exterior[i] == moved(s.exterior, i, clockwise, amount));
}

/// A vertex on a straight edge along an axis moves by the amount outward of it.
pub proof fn straight_vertex_moves_out_of_its_edge(s: Shape, i: int, amount: int)
    requires
        s.in_range(),
        s.exterior.len() >= 4,
        0 <= i < s.exterior.len() - 1,
        0 <= amount <= OFFSET_LIMIT,
        ({
            let (prev, curr, next) = around(s, i);
            &&& is_axial(prev, curr)
            &&& is_axial(curr, next)
            &&& sign_of(curr.x - prev.x) == sign_of(next.x - curr.x)
            &&& sign_of(curr.y - prev.y) == sign_of(next.y - curr.y)
        }),
    ensures
        ({
            let (prev, curr, next) = around(s, i);
            let a = out_of_edge(prev, curr, signed_area2(s) < 0);
            let p = grown_shape(s, amount).exterior[i];
            p.x == curr.x + amount * a.0 && p.y == curr.y + amount * a.1
        }),
{
    let (prev, curr, next) = around(s, i);
    let clockwise = signed_area2(s) < 0;
    assert(s.exterior[i].in_range());
    axis_normal(prev, curr);
    axis_normal(curr, next);
    let a = out_of_edge(prev, curr, clockwise);
    let (p, q) = (edge_normal(prev, curr), edge_normal(curr, next));
    let (bx, by) = (outward(p.0 + q.0, clockwise), outward(p.1 + q.1, clockwise));
    let u = UNIT as int;
    let bb = bx * bx + by * by;
    assert(u * u == 0x1000_0000_0000_0000) by (nonlinear_arith)
        requires
            u == 0x4000_0000,
    ;
    assert(bb == 4 * (u * u)) by (nonlinear_arith)
        requires
            bb == bx * bx + by * by,
            bx == 0 && (by == 2 * u || by == -2 * u) || by == 0 && (bx == 2 * u || bx == -2 * u),
    ;
    straight_step(bx, a.0, bb, outward(p.0, clockwise), amount);
    straight_step(by, a.1, bb, outward(p.1, clockwise), amount);
    assert(-amount <= amount * a.0 <= amount && -amount <= amount * a.1 <= amount) by (nonlinear_arith)
        requires
            -1 <= a.0 <= 1,
            -1 <= a.1 <= 1,
            amount >= 0,
    ;
    assert(moved_vertex(prev, curr, next, clockwise, amount) == (curr.x + amount * a.0, curr.y + amount * a.1));
    assert(grown_shape(s, amount).exterior[i] == moved(s.exterior, i, clockwise, amount));
}

proof fn straight_step(b: int, sign: int, bb: int, n: int, amount: int)
    requires
        -1 <= sign <= 1,
        b == 2 * (sign * UNIT),
        bb == 4 * (UNIT * UNIT),
        bb > 0,
    ensures
        step_along(b, bb, n, amount) == amount * sign,
{
    let u = UNIT as int;
    let k = amount * sign;
    assert(2 * amount * b * u == k * bb) by (nonlinear_arith)
        requires
            b == 2 * (sign * u),
            bb == 4 * (u * u),
            k == amount * sign,
    ;
    assert(k * (2 * bb) == 2 * (k * bb)) by (nonlinear_arith);
    lemma_fundamental_div_mod_converse(2 * (k * bb) + bb, 2 * bb, k, bb);
}

/// Growing moves each vertex and adds or removes none, and it closes every hole.
pub proof fn growing_moves_each_vertex(s: Shape, amount: int)
    requires
        s.exterior.len() >= 4,
    ensures
        grown_shape(s, amount).exterior.len() == s.exterior.len(),
        grown_shape(s, amount).exterior[0] == grown_shape(s, amount).exterior.last(),
        grown_shape(s, amount).holes.len() == 0,
{
}

proof fn nearest_is_near(n: int, d: int)
    requires
        d > 0,
    ensures
        -d <= 2 * (d * nearest(n, d) - n) <= d,
{
    let q = nearest(n, d);
    vstd::arithmetic::div_mod::lemma_fundamental_div_mod(2 * n + d, 2 * d);
    assert((2 * d) * q == 2 * (d * q)) by (nonlinear_arith);
}

/// The sum of the normals of the two edges at a vertex, outward.
pub open spec fn bisector(prev: Point, curr: Point, next: Point, clockwise: bool) -> (int, int) {
    let (p, q) = (edge_normal(prev, curr), edge_normal(curr, next));
    if clockwise {
        (-(p.0 + q.0), -(p.1 + q.1))
    } else {
        (p.0 + q.0, p.1 + q.1)
    }
}

/// Both edges at a vertex move outward by the amount, taken together: the step of the
/// vertex along the sum of their normals is twice the amount, to half a unit in each
/// direction, unless the corner is so sharp that the step is limited.
pub proof fn edges_move_by_the_amount(prev: Point, curr: Point, next: Point, clockwise: bool, amount: int)
    requires
        prev != curr,
        curr != next,
        ({
            let b = bisector(prev, curr, next, clockwise);
            4 * (b.0 * b.0 + b.1 * b.1) >= UNIT * UNIT
        }),
    ensures
        ({
            let b = bisector(prev, curr, next, clockwise);
            let to = moved_vertex(prev, curr, next, clockwise, amount);
            let along = (to.0 - curr.x) * b.0 + (to.1 - curr.y) * b.1;
            2 * crate::geom::abs_of(along - 2 * amount * UNIT) <= crate::geom::abs_of(b.0) + crate::geom::abs_of(b.1)
        }),
{
    let b = bisector(prev, curr, next, clockwise);
    let (x, y) = b;
    let bb = x * x + y * y;
    let u = UNIT as int;
    assert(u * u > 0) by (nonlinear_arith)
        requires
            u == 0x4000_0000,
    ;
    let to = moved_vertex(prev, curr, next, clockwise, amount);
    let (p, q) = (edge_normal(prev, curr), edge_normal(curr, next));
    assert(outward(p.0 + q.0, clockwise) == x && outward(p.1 + q.1, clockwise) == y);
    let (dx, dy) = (to.0 - curr.x, to.1 - curr.y);
    let (nx, ny) = (2 * amount * x * u, 2 * amount * y * u);
    assert(dx == nearest(nx, bb) && dy == nearest(ny, bb));
    nearest_is_near(nx, bb);
    nearest_is_near(ny, bb);
    let (ex, ey) = (bb * dx - nx, bb * dy - ny);
    let (ax, ay) = (crate::geom::abs_of(x), crate::geom::abs_of(y));
    assert(-(bb * ax) <= 2 * (ex * x) <= bb * ax) by (nonlinear_arith)
        requires
            -bb <= 2 * ex <= bb,
            bb > 0,
            ax == x && x >= 0 || ax == -x && x < 0,
    ;
    assert(-(bb * ay) <= 2 * (ey * y) <= bb * ay) by (nonlinear_arith)
        requires
            -bb <= 2 * ey <= bb,
            bb > 0,
            ay == y && y >= 0 || ay == -y && y < 0,
    ;
    assert(ex * x == bb * (dx * x) - 2 * amount * u * (x * x)) by (nonlinear_arith)
        requires
            ex == bb * dx - nx,
            nx == 2 * amount * x * u,
    ;
    assert(ey * y == bb * (dy * y) - 2 * amount * u * (y * y)) by (nonlinear_arith)
        requires
            ey == bb * dy - ny,
            ny == 2 * amount * y * u,
    ;
    let along = dx * x + dy * y;
    let goal = 2 * amount * u;
    assert(goal * (x * x) + goal * (y * y) == goal * bb) by (nonlinear_arith)
        requires
            bb == x * x + y * y,
    ;
    assert(bb * (dx * x) + bb * (dy * y) == bb * along) by (nonlinear_arith)
        requires
            along == dx * x + dy * y,
    ;
    assert(ex * x + ey * y == bb * (along - goal)) by (nonlinear_arith)
        requires
            ex * x + ey * y == bb * along - goal * bb,
    ;
    let off = along - goal;
    assert(-(ax + ay) <= 2 * off <= ax + ay) by (nonlinear_arith)
        requires
            bb > 0,
            -(bb * ax) - (bb * ay) <= 2 * (bb * off) <= bb * ax + bb * ay,
    ;
}

/// At a sharp corner the vertex moves by four times the amount along the sum of the
/// normals, each component to half a unit.
pub proof fn sharp_corners_move_four_times_the_amount(
    prev: Point,
    curr: Point,
    next: Point,
    clockwise: bool,
    amount: int,
)
    requires
        prev != curr,
        curr != next,
        amount >= 0,
        ({
            let b = bisector(prev, curr, next, clockwise);
            let bb = b.0 * b.0 + b.1 * b.1;
            0 < bb && 4 * bb < UNIT * UNIT
        }),
    ensures
        ({
            let b = bisector(prev, curr, next, clockwise);
            let bb = b.0 * b.0 + b.1 * b.1;
            let to = moved_vertex(prev, curr, next, clockwise, amount);
            &&& is_near_root(to.0 - curr.x, 8 * amount * b.0, bb)
            &&& is_near_root(to.1 - curr.y, 8 * amount * b.1, bb)
        }),
{
    let b = bisector(prev, curr, next, clockwise);
    let bb = b.0 * b.0 + b.1 * b.1;
    crate::bands::scaled_is_nearest(b.0, 4 * amount, bb);
    crate::bands::scaled_is_nearest(b.1, 4 * amount, bb);
    assert(2 * (4 * amount) * b.0 == 8 * amount * b.0 && 2 * (4 * amount) * b.1 == 8 * amount * b.1);
    let (p, q) = (edge_normal(prev, curr), edge_normal(curr, next));
    assert(outward(p.0 + q.0, clockwise) == b.0 && outward(p.1 + q.1, clockwise) == b.1);
}

/// `v` is the number nearest to half of `x / sqrt(m)`.
pub open spec fn is_near_root(v: int, x: int, m: int) -> bool {
    let k = if v < 0 {
        -v
    } else {
        v
    };
    &&& k > 0 ==> (2 * k - 1) * (2 * k - 1) * m <= x * x
    &&& x * x < (2 * k + 1) * (2 * k + 1) * m
}

/// At a needle so thin that the normals of its edges cancel, the vertex moves by four
/// times the amount along the needle, to half a unit: forward with the first edge out
/// of a tip, where the ring turns as it does all round, and back out of a notch.
pub proof fn needles_move_along_themselves(
    prev: Point,
    curr: Point,
    next: Point,
    clockwise: bool,
    amount: int,
)
    requires
        prev != curr,
        curr != next,
        bisector(prev, curr, next, clockwise) == (0int, 0int),
        (curr.x - prev.x) * (next.y - curr.y) != (next.x - curr.x) * (curr.y - prev.y),
    ensures
        ({
            let to = moved_vertex(prev, curr, next, clockwise, amount);
            let left = (curr.x - prev.x) * (next.y - curr.y) > (next.x - curr.x) * (curr.y - prev.y);
            let n = edge_normal(prev, curr);
            let (dx, dy) = if left != clockwise {
                (-n.1, n.0)
            } else {
                (n.1, -n.0)
            };
            &&& 2 * crate::geom::abs_of(UNIT * (to.0 - curr.x) - 4 * amount * dx) <= UNIT
            &&& 2 * crate::geom::abs_of(UNIT * (to.1 - curr.y) - 4 * amount * dy) <= UNIT
        }),
{
    let n = edge_normal(prev, curr);
    let q = edge_normal(curr, next);
    let (bx, by) = (outward(n.0 + q.0, clockwise), outward(n.1 + q.1, clockwise));
    assert(bx == 0 && by == 0);
    assert(bx * bx + by * by == 0) by (nonlinear_arith)
        requires
            bx == 0,
            by == 0,
    ;
    nearest_is_near(4 * amount * (-n.1), UNIT as int);
    nearest_is_near(4 * amount * n.0, UNIT as int);
    nearest_is_near(4 * amount * n.1, UNIT as int);
    nearest_is_near(4 * amount * (-n.0), UNIT as int);
}

} // verus!
