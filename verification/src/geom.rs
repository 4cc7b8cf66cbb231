//! Points, rectangles and polygons on the layout grid.
//!
//! A coordinate is an integer number of layout units.  There are
//! [`UNITS_PER_DBU`] units to a database unit, so that the centre of a shape
//! with whole-dbu edges is again a whole number of units.

use vstd::prelude::*;

verus! {

/// Layout units per database unit.
pub const UNITS_PER_DBU: i64 = 2;

/// Largest magnitude of a layout coordinate.
pub const COORD_LIMIT: i64 = 0x8000_0000;

/// Largest magnitude of a coordinate that geometry tests are asked about.
pub const REACH: i64 = 0x100_0000_0000;

/// Largest number of points in a ring.
pub const RING_LIMIT: usize = 0x7fff_ffff;

/// `c` is a layout coordinate.
pub open spec fn in_range(c: int) -> bool {
    -COORD_LIMIT <= c <= COORD_LIMIT
}

pub open spec fn min_of(a: int, b: int) -> int {
    if a <= b { a } else { b }
}

pub open spec fn max_of(a: int, b: int) -> int {
    if a >= b { a } else { b }
}

pub open spec fn abs_of(a: int) -> int {
    if a < 0 { -a } else { a }
}

pub fn min_i64(a: i64, b: i64) -> (r: i64)
    ensures
        r == min_of(a as int, b as int),
{
    if a <= b { a } else { b }
}

pub fn max_i64(a: i64, b: i64) -> (r: i64)
    ensures
        r == max_of(a as int, b as int),
{
    if a >= b { a } else { b }
}

/// A coordinate in whole database units, rounded to the nearest, halves away
/// from zero.
pub open spec fn dbu_of(units: int) -> int {
    if units >= 0 {
        (units + 1) / 2
    } else {
        -((-units + 1) / 2)
    }
}

/// A coordinate in whole database units.
pub fn to_dbu(units: i64) -> (d: i64)
    requires
        -0x4000_0000_0000_0000 <= units <= 0x4000_0000_0000_0000,
    ensures
        d == dbu_of(units as int),
{
    if units >= 0 {
        (units + 1) / 2
    } else {
        -((-units + 1) / 2)
    }
}

/// A point in layout units.
#[derive(Clone, Copy, Debug, PartialEq, Eq, Structural)]
pub struct Point {
    pub x: i64,
    pub y: i64,
}

impl Point {
    pub open spec fn in_range(self) -> bool {
        in_range(self.x as int) && in_range(self.y as int)
    }

    pub open spec fn in_reach(self) -> bool {
        -REACH <= self.x <= REACH && -REACH <= self.y <= REACH
    }
}

/// An axis-aligned rectangle; `x0 <= x1` and `y0 <= y1` unless stated otherwise.
#[derive(Clone, Copy, Debug, PartialEq, Eq, Structural)]
pub struct Rect {
    pub x0: i64,
    pub y0: i64,
    pub x1: i64,
    pub y1: i64,
}

impl Rect {
    /// The corners are ordered.
    pub open spec fn ordered(self) -> bool {
        self.x0 <= self.x1 && self.y0 <= self.y1
    }

    /// Every corner coordinate is in range.
    pub open spec fn in_range(self) -> bool {
        in_range(self.x0 as int) && in_range(self.y0 as int) && in_range(self.x1 as int) && in_range(self.y1 as int)
    }

    /// Every corner coordinate is within half of [`REACH`].
    pub open spec fn in_reach(self) -> bool {
        &&& -REACH <= 2 * self.x0 <= REACH
        &&& -REACH <= 2 * self.y0 <= REACH
        &&& -REACH <= 2 * self.x1 <= REACH
        &&& -REACH <= 2 * self.y1 <= REACH
    }

    /// The rectangle has no area.
    pub open spec fn is_flat(self) -> bool {
        self.x0 == self.x1 || self.y0 == self.y1
    }

    pub open spec fn width(self) -> int {
        self.x1 - self.x0
    }

    pub open spec fn height(self) -> int {
        self.y1 - self.y0
    }

    pub open spec fn spec_area(self) -> int {
        self.width() * self.height()
    }

    /// The closed rectangles share a point.
    pub open spec fn meets(self, other: Rect) -> bool {
        self.x0 <= other.x1 && other.x0 <= self.x1 && self.y0 <= other.y1 && other.y0 <= self.y1
    }

    /// `other` lies inside this rectangle, edges included.
    pub open spec fn spec_encloses(self, other: Rect) -> bool {
        self.x0 <= other.x0 && other.x1 <= self.x1 && self.y0 <= other.y0 && other.y1 <= self.y1
    }

    /// This rectangle grown by `amount` on all four sides.
    pub open spec fn spec_grown(self, amount: int) -> Rect {
        Rect {
            x0: (self.x0 - amount) as i64,
            y0: (self.y0 - amount) as i64,
            x1: (self.x1 + amount) as i64,
            y1: (self.y1 + amount) as i64,
        }
    }

    /// The corner ring of the rectangle, closed, counter-clockwise from the
    /// lower right.
    pub open spec fn ring(self) -> Seq<Point> {
        seq![
            Point { x: self.x1, y: self.y0 },
            Point { x: self.x1, y: self.y1 },
            Point { x: self.x0, y: self.y1 },
            Point { x: self.x0, y: self.y0 },
            Point { x: self.x1, y: self.y0 },
        ]
    }

    /// The rectangle spanned by two opposite corners, in any order.
    pub fn new(ax: i64, ay: i64, bx: i64, by: i64) -> (r: Rect)
        ensures
            r.ordered(),
            r.x0 == min_of(ax as int, bx as int),
            r.y0 == min_of(ay as int, by as int),
            r.x1 == max_of(ax as int, bx as int),
            r.y1 == max_of(ay as int, by as int),
    {
        Rect { x0: min_i64(ax, bx), y0: min_i64(ay, by), x1: max_i64(ax, bx), y1: max_i64(ay, by) }
    }

    /// Width times height.
    pub fn area(&self) -> (a: i128)
        requires
            self.in_range(),
        ensures
            a == self.spec_area(),
            self.ordered() ==> a >= 0,
            -0x1_0000_0000_0000_0000 <= a <= 0x1_0000_0000_0000_0000,
    {
        let w: i128 = self.x1 as i128 - self.x0 as i128;
        let h: i128 = self.y1 as i128 - self.y0 as i128;
        proof {
            assert(-0x1_0000_0000_0000_0000 <= w * h <= 0x1_0000_0000_0000_0000) by (nonlinear_arith)
                requires
                    -0x1_0000_0000 <= w <= 0x1_0000_0000,
                    -0x1_0000_0000 <= h <= 0x1_0000_0000,
            ;
            if self.ordered() {
                assert(w * h >= 0) by (nonlinear_arith)
                    requires
                        w >= 0,
                        h >= 0,
                ;
            }
        }
        w * h
    }

    /// Do the closed rectangles share a point?
    pub fn intersects(&self, other: &Rect) -> (b: bool)
        ensures
            b == self.meets(*other),
    {
        self.x0 <= other.x1 && other.x0 <= self.x1 && self.y0 <= other.y1 && other.y0 <= self.y1
    }

    /// Does `other` lie inside this rectangle, edges included?
    pub fn encloses(&self, other: &Rect) -> (b: bool)
        ensures
            b == self.spec_encloses(*other),
    {
        self.x0 <= other.x0 && other.x1 <= self.x1 && self.y0 <= other.y0 && other.y1 <= self.y1
    }

    /// Grow by `amount` on all four sides.
    pub fn grown(&self, amount: i64) -> (r: Rect)
        requires
            self.in_range(),
            in_range(amount as int),
        ensures
            r == self.spec_grown(amount as int),
            r.x0 == self.x0 - amount,
            r.y0 == self.y0 - amount,
            r.x1 == self.x1 + amount,
            r.y1 == self.y1 + amount,
    {
        Rect { x0: self.x0 - amount, y0: self.y0 - amount, x1: self.x1 + amount, y1: self.y1 + amount }
    }

    /// Are all coordinates in range?
    pub fn check(&self) -> (b: bool)
        ensures
            b == self.in_range(),
    {
        let limit = COORD_LIMIT;
        -limit <= self.x0 && self.x0 <= limit && -limit <= self.y0 && self.y0 <= limit && -limit <= self.x1 && self.x1
            <= limit && -limit <= self.y1 && self.y1 <= limit
    }

    /// The rectangle as a polygon without holes.
    pub fn to_polygon(&self) -> (p: Polygon)
        ensures
            p@ == (Shape { exterior: self.ring(), holes: Seq::empty() }),
    {
        let mut exterior: Vec<Point> = Vec::new();
        exterior.push(Point { x: self.x1, y: self.y0 });
        exterior.push(Point { x: self.x1, y: self.y1 });
        exterior.push(Point { x: self.x0, y: self.y1 });
        exterior.push(Point { x: self.x0, y: self.y0 });
        exterior.push(Point { x: self.x1, y: self.y0 });
        let p = Polygon { exterior, holes: Vec::new() };
        proof {
            assert(p@.exterior =~= self.ring());
            assert(p@.holes =~= Seq::empty());
        }
        p
    }
}

/// A polygon: an exterior ring and hole rings.
#[derive(Debug)]
pub struct Polygon {
    pub exterior: Vec<Point>,
    pub holes: Vec<Vec<Point>>,
}

/// The rings of a polygon as sequences.
#[verifier::ext_equal]
pub struct Shape {
    pub exterior: Seq<Point>,
    pub holes: Seq<Seq<Point>>,
}

impl View for Polygon {
    type V = Shape;

    open spec fn view(&self) -> Shape {
        Shape { exterior: self.exterior@, holes: self.holes@.map_values(|h: Vec<Point>| h@) }
    }
}

/// The shapes of a list of polygons.
pub open spec fn shapes_of(polys: Seq<Polygon>) -> Seq<Shape> {
    polys.map_values(|p: Polygon| p@)
}

/// The ring has at most [`RING_LIMIT`] points, all in range.
pub open spec fn ring_in_range(ring: Seq<Point>) -> bool {
    &&& ring.len() <= RING_LIMIT
    &&& forall|i: int| 0 <= i < ring.len() ==> (#[trigger] ring[i]).in_range()
}

/// The ring has at most [`RING_LIMIT`] points, all in reach.
pub open spec fn ring_in_reach(ring: Seq<Point>) -> bool {
    &&& ring.len() <= RING_LIMIT
    &&& forall|i: int| 0 <= i < ring.len() ==> (#[trigger] ring[i]).in_reach()
}

impl Shape {
    /// Every ring is in reach.
    pub open spec fn in_reach(self) -> bool {
        &&& ring_in_reach(self.exterior)
        &&& forall|i: int| 0 <= i < self.holes.len() ==> ring_in_reach(#[trigger] self.holes[i])
    }

    /// Every point of every ring is in range.
    pub open spec fn in_range(self) -> bool {
        &&& ring_in_range(self.exterior)
        &&& forall|i: int| 0 <= i < self.holes.len() ==> ring_in_range(#[trigger] self.holes[i])
    }
}

/// Every shape is in range.
pub open spec fn shapes_in_range(shapes: Seq<Shape>) -> bool {
    forall|i: int| 0 <= i < shapes.len() ==> (#[trigger] shapes[i]).in_range()
}

/// Every shape is in reach.
pub open spec fn shapes_in_reach(shapes: Seq<Shape>) -> bool {
    forall|i: int| 0 <= i < shapes.len() ==> (#[trigger] shapes[i]).in_reach()
}

/// Layout shapes are in reach.
pub proof fn in_range_is_in_reach(s: Shape)
    requires
        s.in_range(),
    ensures
        s.in_reach(),
{
    assert forall|i: int| 0 <= i < s.exterior.len() implies (#[trigger] s.exterior[i]).in_reach() by {
        assert(s.exterior[i].in_range());
    }
    assert forall|i: int| 0 <= i < s.holes.len() implies ring_in_reach(#[trigger] s.holes[i]) by {
        assert(ring_in_range(s.holes[i]));
        assert forall|j: int| 0 <= j < s.holes[i].len() implies (#[trigger] s.holes[i][j]).in_reach() by {
            assert(s.holes[i][j].in_range());
        }
    }
}

/// A ring with its first point repeated at the end.
pub open spec fn closed_ring(ring: Seq<Point>) -> Seq<Point> {
    if ring.len() == 0 || ring[0] == ring.last() {
        ring
    } else {
        ring.push(ring[0])
    }
}

/// Repeat the first point of an open ring at its end.
pub fn close_ring(ring: Vec<Point>) -> (out: Vec<Point>)
    ensures
        out@ == closed_ring(ring@),
{
    let mut out = ring;
    let n = out.len();
    if n > 0 && out[0] != out[n - 1] {
        let first = out[0];
        out.push(first);
    }
    out
}

/// A copy of a ring.
pub fn copy_ring(ring: &Vec<Point>) -> (out: Vec<Point>)
    ensures
        out@ == ring@,
{
    let mut out: Vec<Point> = Vec::new();
    let mut i: usize = 0;
    while i < ring.len()
        invariant
            i <= ring@.len(),
            out@ == ring@.take(i as int),
        decreases ring@.len() - i,
    {
        out.push(ring[i]);
        proof {
            assert(out@ =~= ring@.take(i + 1));
        }
        i = i + 1;
    }
    assert(ring@.take(i as int) =~= ring@);
    out
}

/// The smallest rectangle around the first `n` points.
pub open spec fn bounds_upto(points: Seq<Point>, n: int) -> Rect
    decreases n,
{
    if n <= 1 {
        Rect { x0: points[0].x, y0: points[0].y, x1: points[0].x, y1: points[0].y }
    } else {
        let r = bounds_upto(points, n - 1);
        let p = points[n - 1];
        Rect {
            x0: min_of(r.x0 as int, p.x as int) as i64,
            y0: min_of(r.y0 as int, p.y as int) as i64,
            x1: max_of(r.x1 as int, p.x as int) as i64,
            y1: max_of(r.y1 as int, p.y as int) as i64,
        }
    }
}

/// The smallest rectangle around all points.
pub open spec fn bounds(points: Seq<Point>) -> Rect {
    bounds_upto(points, points.len() as int)
}

/// `bounds` holds every point, and a point lies on each of its sides.
pub proof fn bounds_are_tight(points: Seq<Point>, n: int)
    requires
        0 < n <= points.len(),
    ensures
        bounds_upto(points, n).ordered(),
        forall|i: int|
            0 <= i < n ==> bounds_upto(points, n).x0 <= (#[trigger] points[i]).x <= bounds_upto(points, n).x1
                && bounds_upto(points, n).y0 <= points[i].y <= bounds_upto(points, n).y1,
        exists|i: int| 0 <= i < n && (#[trigger] points[i]).x == bounds_upto(points, n).x0,
        exists|i: int| 0 <= i < n && (#[trigger] points[i]).y == bounds_upto(points, n).y0,
        exists|i: int| 0 <= i < n && (#[trigger] points[i]).x == bounds_upto(points, n).x1,
        exists|i: int| 0 <= i < n && (#[trigger] points[i]).y == bounds_upto(points, n).y1,
    decreases n,
{
    if n > 1 {
        bounds_are_tight(points, n - 1);
        let r = bounds_upto(points, n - 1);
        let s = bounds_upto(points, n);
        let a = choose|i: int| 0 <= i < n - 1 && (#[trigger] points[i]).x == r.x0;
        let b = choose|i: int| 0 <= i < n - 1 && (#[trigger] points[i]).y == r.y0;
        let c = choose|i: int| 0 <= i < n - 1 && (#[trigger] points[i]).x == r.x1;
        let d = choose|i: int| 0 <= i < n - 1 && (#[trigger] points[i]).y == r.y1;
        assert(points[n - 1].x == s.x0 || points[a].x == s.x0);
        assert(points[n - 1].y == s.y0 || points[b].y == s.y0);
        assert(points[n - 1].x == s.x1 || points[c].x == s.x1);
        assert(points[n - 1].y == s.y1 || points[d].y == s.y1);
    } else {
        assert(points[0].x == bounds_upto(points, n).x0);
    }
}

/// The bounds of in-range points are in range.
pub proof fn bounds_in_range(points: Seq<Point>)
    requires
        points.len() > 0,
        ring_in_range(points),
    ensures
        bounds(points).in_range(),
        bounds(points).ordered(),
{
    bounds_are_tight(points, points.len() as int);
}

/// The bounds of points in reach are in reach.
pub proof fn bounds_in_reach(points: Seq<Point>)
    requires
        points.len() > 0,
        ring_in_reach(points),
    ensures
        -REACH <= bounds(points).x0 <= bounds(points).x1 <= REACH,
        -REACH <= bounds(points).y0 <= bounds(points).y1 <= REACH,
{
    bounds_are_tight(points, points.len() as int);
}

/// The bounding rectangle of a ring, `None` if it has no point.
pub fn ring_bounds(ring: &Vec<Point>) -> (r: Option<Rect>)
    ensures
        r is None <==> ring@.len() == 0,
        r matches Some(b) ==> b == bounds(ring@),
{
    if ring.len() == 0 {
        return None;
    }
    let p = ring[0];
    let mut b = Rect { x0: p.x, y0: p.y, x1: p.x, y1: p.y };
    let mut i: usize = 1;
    while i < ring.len()
        invariant
            1 <= i <= ring@.len(),
            b == bounds_upto(ring@, i as int),
        decreases ring@.len() - i,
    {
        let q = ring[i];
        b = Rect { x0: min_i64(b.x0, q.x), y0: min_i64(b.y0, q.y), x1: max_i64(b.x1, q.x), y1: max_i64(b.y1, q.y) };
        i = i + 1;
    }
    Some(b)
}

/// Twice the signed area of the triangle from the origin to `a` to `b`.
pub open spec fn cross(a: Point, b: Point) -> int {
    a.x * b.y - b.x * a.y
}

/// The cross products of the first `n` edges of a ring.
pub open spec fn edge_sum(ring: Seq<Point>, n: int) -> int
    decreases n,
{
    if n <= 0 {
        0
    } else {
        edge_sum(ring, n - 1) + cross(ring[n - 1], ring[n])
    }
}

/// Twice the signed area of a closed ring; 0 for one that is not closed.
pub open spec fn ring_area2(ring: Seq<Point>) -> int {
    if ring.len() > 0 && ring[0] == ring.last() {
        edge_sum(ring, ring.len() - 1)
    } else {
        0
    }
}

/// The unsigned ring areas of the first `n` holes, doubled.
pub open spec fn holes_area2(holes: Seq<Seq<Point>>, n: int) -> int
    decreases n,
{
    if n <= 0 {
        0
    } else {
        holes_area2(holes, n - 1) + abs_of(ring_area2(holes[n - 1]))
    }
}

/// Twice the area of a polygon: its exterior less its holes.
pub open spec fn area2(shape: Shape) -> int {
    abs_of(abs_of(ring_area2(shape.exterior)) - holes_area2(shape.holes, shape.holes.len() as int))
}

/// Has the ring at most [`RING_LIMIT`] points, all in range?
pub fn check_ring(ring: &Vec<Point>) -> (b: bool)
    ensures
        b == ring_in_range(ring@),
{
    if ring.len() > RING_LIMIT {
        return false;
    }
    let mut i: usize = 0;
    while i < ring.len()
        invariant
            i <= ring@.len() <= RING_LIMIT,
            forall|j: int| 0 <= j < i ==> (#[trigger] ring@[j]).in_range(),
        decreases ring@.len() - i,
    {
        let p = ring[i];
        if !(-COORD_LIMIT <= p.x && p.x <= COORD_LIMIT && -COORD_LIMIT <= p.y && p.y <= COORD_LIMIT) {
            assert(!ring@[i as int].in_range());
            return false;
        }
        i = i + 1;
    }
    true
}

/// Twice the signed area of a polygon: that of its exterior, shrunk by its holes.
pub open spec fn signed_area2(shape: Shape) -> int {
    let total = abs_of(ring_area2(shape.exterior)) - holes_area2(shape.holes, shape.holes.len() as int);
    if ring_area2(shape.exterior) < 0 {
        -total
    } else {
        total
    }
}

/// Bound on twice the area of an in-range ring.
pub open spec fn ring_area_limit() -> int {
    0x7fff_ffff_ffff_ffff_8000_0000_0000_0000
}

/// Twice the signed area of an in-range ring.
pub fn signed_ring_area2(ring: &Vec<Point>) -> (a: i128)
    requires
        ring_in_range(ring@),
    ensures
        a == ring_area2(ring@),
        -ring_area_limit() <= a <= ring_area_limit(),
{
    let n = ring.len();
    if n == 0 || ring[0] != ring[n - 1] {
        return 0;
    }
    let mut a: i128 = 0;
    let mut i: usize = 0;
    while i < n - 1
        invariant
            n == ring@.len(),
            n > 0,
            i <= n - 1,
            ring_in_range(ring@),
            a == edge_sum(ring@, i as int),
            -(i * 0x8000_0000_0000_0000) <= a <= i * 0x8000_0000_0000_0000,
        decreases n - i,
    {
        let p = ring[i];
        let q = ring[i + 1];
        assert(ring@[i as int].in_range() && ring@[i + 1].in_range());
        proof {
            assert(-0x4000_0000_0000_0000 <= p.x * q.y <= 0x4000_0000_0000_0000) by (nonlinear_arith)
                requires
                    -0x8000_0000 <= p.x <= 0x8000_0000,
                    -0x8000_0000 <= q.y <= 0x8000_0000,
            ;
            assert(-0x4000_0000_0000_0000 <= q.x * p.y <= 0x4000_0000_0000_0000) by (nonlinear_arith)
                requires
                    -0x8000_0000 <= q.x <= 0x8000_0000,
                    -0x8000_0000 <= p.y <= 0x8000_0000,
            ;
        }
        let t: i128 = p.x as i128 * q.y as i128 - q.x as i128 * p.y as i128;
        a = a + t;
        i = i + 1;
    }
    a
}

impl Polygon {
    /// A polygon from its rings; each ring is closed.
    pub fn new(exterior: Vec<Point>, holes: Vec<Vec<Point>>) -> (p: Polygon)
        ensures
            p@.exterior == closed_ring(exterior@),
            p@.holes.len() == holes@.len(),
            forall|i: int| 0 <= i < holes@.len() ==> (#[trigger] p@.holes[i]) == closed_ring(holes@[i]@),
    {
        let mut closed: Vec<Vec<Point>> = Vec::new();
        let mut i: usize = 0;
        while i < holes.len()
            invariant
                i <= holes@.len(),
                closed@.len() == i,
                forall|j: int| 0 <= j < i ==> (#[trigger] closed@[j])@ == closed_ring(holes@[j]@),
            decreases holes@.len() - i,
        {
            closed.push(close_ring(copy_ring(&holes[i])));
            i = i + 1;
        }
        Polygon { exterior: close_ring(exterior), holes: closed }
    }

    /// A copy of the polygon.
    pub fn duplicate(&self) -> (p: Polygon)
        ensures
            p@ == self@,
    {
        let mut holes: Vec<Vec<Point>> = Vec::new();
        let mut i: usize = 0;
        while i < self.holes.len()
            invariant
                i <= self.holes@.len(),
                holes@.len() == i,
                forall|j: int| 0 <= j < i ==> (#[trigger] holes@[j])@ == self.holes@[j]@,
            decreases self.holes@.len() - i,
        {
            holes.push(copy_ring(&self.holes[i]));
            i = i + 1;
        }
        let p = Polygon { exterior: copy_ring(&self.exterior), holes };
        assert(p@.holes =~= self@.holes);
        p
    }

    /// Is every point in range?
    pub fn check(&self) -> (b: bool)
        ensures
            b == self@.in_range(),
    {
        if !check_ring(&self.exterior) {
            return false;
        }
        let mut i: usize = 0;
        while i < self.holes.len()
            invariant
                i <= self.holes@.len(),
                ring_in_range(self.exterior@),
                forall|j: int| 0 <= j < i ==> ring_in_range(#[trigger] self@.holes[j]),
            decreases self.holes@.len() - i,
        {
            if !check_ring(&self.holes[i]) {
                assert(!ring_in_range(self@.holes[i as int]));
                return false;
            }
            i = i + 1;
        }
        true
    }

    /// The bounding rectangle of the exterior, `None` if it has no point.
    pub fn bounding_rect(&self) -> (r: Option<Rect>)
        ensures
            r is None <==> self@.exterior.len() == 0,
            r matches Some(b) ==> b == bounds(self@.exterior),
    {
        ring_bounds(&self.exterior)
    }

    /// Twice the area of the polygon: its exterior less its holes.  `None` if
    /// the value does not fit.
    pub fn unsigned_area2(&self) -> (a: Option<i128>)
        requires
            self@.in_range(),
        ensures
            a is Some <==> holes_area2(self@.holes, self@.holes.len() as int) - abs_of(ring_area2(self@.exterior))
                <= i128::MAX,
            a matches Some(v) ==> v == area2(self@),
    {
        let ext = signed_ring_area2(&self.exterior);
        let mut total: i128 = if ext < 0 {
            -ext
        } else {
            ext
        };
        let mut i: usize = 0;
        while i < self.holes.len()
            invariant
                i <= self.holes@.len(),
                self@.in_range(),
                total == abs_of(ring_area2(self@.exterior)) - holes_area2(self@.holes, i as int),
                -i128::MAX <= total <= ring_area_limit(),
            decreases self.holes@.len() - i,
        {
            assert(self@.holes[i as int] == self.holes@[i as int]@);
            let h = signed_ring_area2(&self.holes[i]);
            let hole: i128 = if h < 0 {
                -h
            } else {
                h
            };
            if total < -i128::MAX + hole {
                proof {
                    holes_area2_grows(self@.holes, i + 1, self@.holes.len() as int);
                }
                return None;
            }
            total = total - hole;
            i = i + 1;
        }
        if total < 0 {
            Some(-total)
        } else {
            Some(total)
        }
    }
}

impl Polygon {
    /// Is the signed area negative, as that of a clockwise exterior is?
    pub fn has_negative_area(&self) -> (b: bool)
        requires
            self@.in_range(),
        ensures
            b == (signed_area2(self@) < 0),
    {
        let ext = signed_ring_area2(&self.exterior);
        let mut total: i128 = if ext < 0 {
            -ext
        } else {
            ext
        };
        let mut i: usize = 0;
        while i < self.holes.len()
            invariant
                i <= self.holes@.len(),
                self@.in_range(),
                ext == ring_area2(self@.exterior),
                total == abs_of(ring_area2(self@.exterior)) - holes_area2(self@.holes, i as int),
                total >= 0,
            decreases self.holes@.len() - i,
        {
            assert(self@.holes[i as int] == self.holes@[i as int]@);
            let h = signed_ring_area2(&self.holes[i]);
            let hole: i128 = if h < 0 {
                -h
            } else {
                h
            };
            if hole > total {
                proof {
                    holes_area2_grows(self@.holes, i + 1, self@.holes.len() as int);
                }
                return ext >= 0;
            }
            total = total - hole;
            i = i + 1;
        }
        ext < 0 && total > 0
    }
}

proof fn holes_area2_grows(holes: Seq<Seq<Point>>, m: int, n: int)
    requires
        0 <= m <= n,
    ensures
        holes_area2(holes, m) <= holes_area2(holes, n),
    decreases n - m,
{
    if m < n {
        holes_area2_grows(holes, m, n - 1);
    }
}

/// Twice the area of a rectangle's ring is twice width times height.
pub proof fn rect_ring_area(r: Rect)
    ensures
        ring_area2(r.ring()) == 2 * r.spec_area(),
        area2(Shape { exterior: r.ring(), holes: Seq::empty() }) == 2 * abs_of(r.spec_area()),
{
    reveal_with_fuel(edge_sum, 6);
    let (x0, y0, x1, y1) = (r.x0 as int, r.y0 as int, r.x1 as int, r.y1 as int);
    assert((x1 * y1 - x1 * y0) + (x1 * y1 - x0 * y1) + (x0 * y0 - x0 * y1) + (x0 * y0 - x1 * y0) == 2 * ((x1 - x0) * (
    y1 - y0))) by (nonlinear_arith);
    assert(ring_area2(r.ring()) == 2 * r.spec_area());
}

/// Copies of polygons.
pub fn copy_polygons(polys: &[Polygon]) -> (out: Vec<Polygon>)
    ensures
        shapes_of(out@) == shapes_of(polys@),
{
    let mut out: Vec<Polygon> = Vec::new();
    let mut i: usize = 0;
    while i < polys.len()
        invariant
            i <= polys@.len(),
            out@.len() == i,
            forall|j: int| 0 <= j < i ==> (#[trigger] out@[j])@ == polys@[j]@,
        decreases polys@.len() - i,
    {
        out.push(polys[i].duplicate());
        i = i + 1;
    }
    assert(shapes_of(out@) =~= shapes_of(polys@));
    out
}

/// Shapes in range are in reach.
pub proof fn all_in_reach(shapes: Seq<Shape>)
    requires
        shapes_in_range(shapes),
    ensures
        shapes_in_reach(shapes),
{
    assert forall|i: int| 0 <= i < shapes.len() implies (#[trigger] shapes[i]).in_reach() by {
        assert(shapes[i].in_range());
        in_range_is_in_reach(shapes[i]);
    }
}

/// A closed ring along the four sides of a rectangle with an area, from any
/// corner and in either direction.
pub open spec fn is_box_ring(r: Seq<Point>) -> bool {
    &&& r.len() == 5
    &&& r[0] == r[4]
    &&& r[0].x != r[2].x
    &&& r[0].y != r[2].y
    &&& (r[1] == Point { x: r[0].x, y: r[2].y } && r[3] == Point { x: r[2].x, y: r[0].y }) || (r[1] == Point {
        x: r[2].x,
        y: r[0].y,
    } && r[3] == Point { x: r[0].x, y: r[2].y })
}

/// The shape is a rectangle with an area.
pub open spec fn is_box(s: Shape) -> bool {
    is_box_ring(s.exterior) && s.holes.len() == 0
}

/// The bounding box of a box ring has two opposite corners of the ring.
pub proof fn box_bounds(r: Seq<Point>)
    requires
        is_box_ring(r),
    ensures
        bounds(r).x0 == min_of(r[0].x as int, r[2].x as int),
        bounds(r).x1 == max_of(r[0].x as int, r[2].x as int),
        bounds(r).y0 == min_of(r[0].y as int, r[2].y as int),
        bounds(r).y1 == max_of(r[0].y as int, r[2].y as int),
{
    reveal_with_fuel(bounds_upto, 6);
}

/// The ring of a rectangle with an area is a box ring with its bounds.
pub proof fn rect_is_box(r: Rect)
    requires
        r.x0 < r.x1,
        r.y0 < r.y1,
    ensures
        is_box_ring(r.ring()),
        bounds(r.ring()) == r,
{
    box_bounds(r.ring());
}

} // verus!
