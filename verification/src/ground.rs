//! The unit cells that polygons with axis-parallel edges cover.

use crate::geom::bounds;
use crate::geom::box_bounds;
use crate::geom::edge_sum;
use crate::geom::is_box;
use crate::geom::is_box_ring;
use crate::geom::max_of;
use crate::geom::min_of;
use crate::geom::ring_area2;
use crate::geom::Point;
use crate::geom::Rect;
use crate::geom::Shape;
use vstd::prelude::*;

verus! {

/// The unit cell with lower-left corner `(x, y)` lies in the rectangle.
pub open spec fn has_cell(r: Rect, x: int, y: int) -> bool {
    r.x0 <= x < r.x1 && r.y0 <= y < r.y1
}

/// The edge from `a` to `b` is upright and passes left of the cell.
pub open spec fn passes(a: Point, b: Point, x: int, y: int) -> bool {
    a.x == b.x && a.x <= x && min_of(a.y as int, b.y as int) <= y < max_of(a.y as int, b.y as int)
}

/// How many of the first `n` edges of a closed ring pass left of a cell.
pub open spec fn passing(ring: Seq<Point>, x: int, y: int, n: int) -> int
    decreases n,
{
    if n <= 0 {
        0
    } else {
        passing(ring, x, y, n - 1) + if passes(ring[n - 1], ring[n], x, y) {
            1int
        } else {
            0int
        }
    }
}

/// How many edges of the first `n` rings pass left of a cell.
pub open spec fn passing_all(rings: Seq<Seq<Point>>, x: int, y: int, n: int) -> int
    decreases n,
{
    if n <= 0 {
        0
    } else {
        passing_all(rings, x, y, n - 1) + passing(rings[n - 1], x, y, rings[n - 1].len() - 1)
    }
}

/// A polygon whose edges are all axis-parallel covers a cell: an odd number of
/// its edges pass left of it.
pub open spec fn covers(s: Shape, x: int, y: int) -> bool {
    (passing(s.exterior, x, y, s.exterior.len() - 1) + passing_all(s.holes, x, y, s.holes.len() as int)) % 2 == 1
}

/// How many of the first `n` polygons cover a cell.
pub open spec fn cover_count(shapes: Seq<Shape>, x: int, y: int, n: int) -> int
    decreases n,
{
    if n <= 0 {
        0
    } else {
        cover_count(shapes, x, y, n - 1) + if covers(shapes[n - 1], x, y) {
            1int
        } else {
            0int
        }
    }
}

/// One of the rectangles has the cell.
pub open spec fn any_has_cell(rects: Seq<Shape>, x: int, y: int) -> bool {
    exists|i: int| 0 <= i < rects.len() && has_cell(bounds((#[trigger] rects[i]).exterior), x, y)
}

/// The shapes cover exactly the cells of the rectangles, each once.
pub open spec fn cover_exactly(shapes: Seq<Shape>, rects: Seq<Shape>) -> bool {
    forall|x: int, y: int| #[trigger]
        cover_count(shapes, x, y, shapes.len() as int) == if any_has_cell(rects, x, y) {
            1int
        } else {
            0int
        }
}

/// Every shape is a rectangle with an area.
pub open spec fn are_boxes(shapes: Seq<Shape>) -> bool {
    forall|i: int| 0 <= i < shapes.len() ==> is_box(#[trigger] shapes[i])
}

/// An open contour around a rectangle with an area.
pub open spec fn is_open_box(c: Seq<Point>) -> bool {
    c.len() == 4 && is_box_ring(c.push(c[0]))
}

/// The rectangle that an open contour goes round.
pub open spec fn contour_box(c: Seq<Point>) -> Rect {
    bounds(c.push(c[0]))
}

/// How often the edge from `a` to `b` winds round a cell that it passes: once to
/// the left if it runs down, once to the right if it runs up.
pub open spec fn winds(a: Point, b: Point, x: int, y: int) -> int {
    if !passes(a, b, x, y) {
        0
    } else if a.y > b.y {
        1
    } else {
        -1
    }
}

/// How often the first `n` edges of a closed ring wind round a cell.
pub open spec fn winding(ring: Seq<Point>, x: int, y: int, n: int) -> int
    decreases n,
{
    if n <= 0 {
        0
    } else {
        winding(ring, x, y, n - 1) + winds(ring[n - 1], ring[n], x, y)
    }
}

/// How often an open contour winds round a cell, counter-clockwise.
pub open spec fn rounds(c: Seq<Point>, x: int, y: int) -> int {
    winding(c.push(c[0]), x, y, c.len() as int)
}

/// How often the first `n` open contours wind round a cell.
pub open spec fn all_rounds(contours: Seq<Seq<Point>>, x: int, y: int, n: int) -> int
    decreases n,
{
    if n <= 0 {
        0
    } else {
        all_rounds(contours, x, y, n - 1) + rounds(contours[n - 1], x, y)
    }
}

/// Two points are the ends of an axis-parallel edge.
pub open spec fn is_straight(a: Point, b: Point) -> bool {
    a != b && (a.x == b.x || a.y == b.y)
}

/// All edges of the open contour are axis-parallel.
pub open spec fn is_rectilinear(c: Seq<Point>) -> bool {
    &&& c.len() >= 4
    &&& forall|i: int| 0 <= i < c.len() ==> is_straight(#[trigger] c[i], c.push(c[0])[i + 1])
}

/// All edges of the open contours are axis-parallel.
pub open spec fn are_rectilinear(contours: Seq<Seq<Point>>) -> bool {
    forall|i: int| 0 <= i < contours.len() ==> is_rectilinear(#[trigger] contours[i])
}

/// The shapes cover exactly the cells that the contours wind round, each once.
pub open spec fn fill_wound(shapes: Seq<Shape>, contours: Seq<Seq<Point>>) -> bool {
    forall|x: int, y: int| #[trigger]
        cover_count(shapes, x, y, shapes.len() as int) == if all_rounds(contours, x, y, contours.len() as int) != 0 {
            1int
        } else {
            0int
        }
}

/// One of the shapes covers the cell.
pub open spec fn any_covers(shapes: Seq<Shape>, x: int, y: int) -> bool {
    exists|i: int| 0 <= i < shapes.len() && covers(#[trigger] shapes[i], x, y)
}

/// The shapes cover exactly the cells that one of the others covers, each once.
pub open spec fn is_union_of(shapes: Seq<Shape>, parts: Seq<Shape>) -> bool {
    forall|x: int, y: int| #[trigger]
        cover_count(shapes, x, y, shapes.len() as int) == if any_covers(parts, x, y) {
            1int
        } else {
            0int
        }
}

/// An edge winds where it passes, one way or the other.
proof fn winding_is_passing(ring: Seq<Point>, x: int, y: int, n: int)
    requires
        0 <= n < ring.len() || n == 0,
    ensures
        (winding(ring, x, y, n) - passing(ring, x, y, n)) % 2 == 0,
    decreases n,
{
    if n > 0 {
        winding_is_passing(ring, x, y, n - 1);
    }
}

/// A closed ring run backwards from its last vertex but one.
pub open spec fn run_back(ring: Seq<Point>) -> Seq<Point> {
    ring.drop_last().reverse().push(ring[ring.len() - 2])
}

proof fn back_passes_alike(ring: Seq<Point>, x: int, y: int, n: int)
    requires
        ring.len() >= 2,
        0 <= n <= ring.len() - 2,
    ensures
        passing(run_back(ring), x, y, n) == passing(ring, x, y, ring.len() - 2) - passing(
            ring,
            x,
            y,
            ring.len() - 2 - n,
        ),
    decreases n,
{
    if n > 0 {
        back_passes_alike(ring, x, y, n - 1);
        let m = ring.len() - 2;
        let back = run_back(ring);
        assert(back[n - 1] == ring[m - (n - 1)] && back[n] == ring[m - n]);
    }
}

/// A ring run backwards passes the same cells.
pub proof fn back_covers_alike(ring: Seq<Point>, x: int, y: int)
    requires
        ring.len() >= 2,
        ring[0] == ring.last(),
    ensures
        passing(run_back(ring), x, y, ring.len() - 1) == passing(ring, x, y, ring.len() - 1),
{
    let m = ring.len() - 2;
    let back = run_back(ring);
    back_passes_alike(ring, x, y, m as int);
    assert(back[m] == ring[0] && back[m + 1] == ring[m]);
}

/// A contour that winds round each cell at most once goes round those that its
/// ring covers.
pub proof fn once_round_is_cover(c: Seq<Point>, x: int, y: int)
    requires
        c.len() > 0,
        0 <= rounds(c, x, y) <= 1,
    ensures
        (rounds(c, x, y) == 1) == (passing(c.push(c[0]), x, y, c.len() as int) % 2 == 1),
{
    winding_is_passing(c.push(c[0]), x, y, c.len() as int);
}

/// The contour round a rectangle winds once round the cells that it has.
pub proof fn left_box_winds_once(c: Seq<Point>, x: int, y: int)
    requires
        is_open_box(c),
        ring_area2(c.push(c[0])) > 0,
    ensures
        rounds(c, x, y) == if has_cell(contour_box(c), x, y) {
            1int
        } else {
            0int
        },
        is_rectilinear(c),
{
    let r = c.push(c[0]);
    box_bounds(r);
    reveal_with_fuel(winding, 6);
    reveal_with_fuel(edge_sum, 6);
    let (a, b, e, d) = (r[0].x as int, r[0].y as int, r[2].x as int, r[2].y as int);
    let (w, h) = (e - a, d - b);
    assert(w * h == e * d - e * b - a * d + a * b) by (nonlinear_arith)
        requires
            w == e - a,
            h == d - b,
    ;
    assert(a * b == b * a && e * d == d * e && e * b == b * e && a * d == d * a) by (nonlinear_arith);
    if r[1].x == r[0].x {
        assert(edge_sum(r, 4) == -2 * (w * h));
        assert(w > 0 ==> h < 0) by (nonlinear_arith)
            requires
                w * h < 0,
        ;
        assert(w < 0 ==> h > 0) by (nonlinear_arith)
            requires
                w * h < 0,
        ;
    } else {
        assert(edge_sum(r, 4) == 2 * (w * h));
        assert(w > 0 ==> h > 0) by (nonlinear_arith)
            requires
                w * h > 0,
        ;
        assert(w < 0 ==> h < 0) by (nonlinear_arith)
            requires
                w * h > 0,
        ;
    }
    assert forall|i: int| 0 <= i < c.len() implies is_straight(#[trigger] c[i], r[i + 1]) by {
        assert(c[i] == r[i]);
    }
}

/// What two rectangles have in common.
pub open spec fn common(a: Rect, b: Rect) -> Rect {
    Rect {
        x0: max_of(a.x0 as int, b.x0 as int) as i64,
        y0: max_of(a.y0 as int, b.y0 as int) as i64,
        x1: min_of(a.x1 as int, b.x1 as int) as i64,
        y1: min_of(a.y1 as int, b.y1 as int) as i64,
    }
}

/// The rectangle has an area.
pub open spec fn has_area(r: Rect) -> bool {
    r.x0 < r.x1 && r.y0 < r.y1
}

/// A rectangle covers the cells that it has.
pub proof fn box_covers(s: Shape, x: int, y: int)
    requires
        is_box(s),
    ensures
        covers(s, x, y) == has_cell(bounds(s.exterior), x, y),
{
    box_bounds(s.exterior);
    reveal_with_fuel(passing, 6);
    reveal_with_fuel(passing_all, 2);
}

} // verus!
