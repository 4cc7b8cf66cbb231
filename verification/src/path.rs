//! Paths as polygons: one rectangle per segment.
//!
//! The rectangles of a path are held finer than the layout grid, in units of
//! [`FINE`] to a database unit, so that a segment at any angle keeps its width
//! and length.  Drawing a path rounds its corners to the layout grid.

use crate::area::check_polygons;
use crate::geom::abs_of;
use crate::geom::shapes_in_range;
use crate::geom::shapes_of;
use crate::geom::Point;
use crate::geom::Polygon;
use crate::geom::Shape;
use crate::layout::PathElement;
use crate::num::floor_div_wide;
use crate::num::isqrt;
use crate::num::isqrt_brackets;
use crate::num::isqrt_is;
use crate::num::isqrt_of;
use crate::transform::Affine;
use crate::transform::AffineTransform;
use vstd::arithmetic::div_mod::lemma_fundamental_div_mod;
use vstd::arithmetic::div_mod::lemma_fundamental_div_mod_converse;
use vstd::prelude::*;

verus! {

/// Fine units per database unit.
pub const FINE: i64 = 0x100_0000;

/// Largest magnitude of a coordinate of a path, in fine units.
pub const FINE_LIMIT: i64 = 0x100_0000_0000_0000;

/// Lengths of segments are known to this fraction of a fine unit.
pub const SLICES: i128 = 32;

/// Points taken through a transform, in layout units.
pub open spec fn placed_points(xy: Seq<(i32, i32)>, t: Affine) -> Seq<Point> {
    xy.map_values(|p: (i32, i32)| Point { x: t.point(p.0 as int, p.1 as int).0 as i64, y: t.point(p.0 as int, p.1 as int).1 as i64 })
}

/// Take points through a transform.
pub fn place_points(xy: &Vec<(i32, i32)>, t: &AffineTransform) -> (out: Vec<Point>)
    requires
        t@.valid(),
    ensures
        out@ == placed_points(xy@, t@),
{
    let mut out: Vec<Point> = Vec::new();
    let mut i: usize = 0;
    while i < xy.len()
        invariant
            t@.valid(),
            i <= xy@.len(),
            out@.len() == i,
            forall|j: int| 0 <= j < i ==> out@[j] == #[trigger] placed_points(xy@, t@)[j],
        decreases xy@.len() - i,
    {
        let (x, y) = xy[i];
        out.push(t.apply(x, y));
        i = i + 1;
    }
    assert(out@ =~= placed_points(xy@, t@));
    out
}

/// A point in fine units.
#[derive(Clone, Copy, Debug, PartialEq, Eq, Structural)]
pub struct FinePoint {
    pub x: i64,
    pub y: i64,
}

/// A polygon with corners in fine units: a closed ring.
#[derive(Debug)]
pub struct FinePolygon {
    pub exterior: Vec<FinePoint>,
}

impl View for FinePolygon {
    type V = Seq<FinePoint>;

    open spec fn view(&self) -> Seq<FinePoint> {
        self.exterior@
    }
}

/// The rings of a list of polygons.
pub open spec fn fine_rings_of(polys: Seq<FinePolygon>) -> Seq<Seq<FinePoint>> {
    polys.map_values(|p: FinePolygon| p@)
}

/// A number in units of 2^-32 database units in fine units, rounded to the
/// nearest.
pub open spec fn fine_of(v: int) -> int {
    (v + 0x80) / 0x100
}

/// Where a point goes under a transform, in fine units.
pub open spec fn fine_place(p: (i32, i32), t: Affine) -> (int, int) {
    let q = t.fixed(p.0 as int, p.1 as int);
    (fine_of(q.0), fine_of(q.1))
}

/// The coordinates are within the limit.
pub open spec fn is_near(p: (int, int)) -> bool {
    -FINE_LIMIT <= p.0 <= FINE_LIMIT && -FINE_LIMIT <= p.1 <= FINE_LIMIT
}

/// Points taken through a transform, in fine units.
pub open spec fn fine_points(xy: Seq<(i32, i32)>, t: Affine) -> Seq<FinePoint> {
    xy.map_values(|p: (i32, i32)| FinePoint { x: fine_place(p, t).0 as i64, y: fine_place(p, t).1 as i64 })
}

/// The end extensions of segment `i` out of `n`, in fine units: none at a join;
/// at the ends of the path by its type.
pub open spec fn extensions(path: PathElement, i: int, n: int) -> (int, int) {
    let kind = match path.path_type {
        Some(k) => k as int,
        None => 0,
    };
    let (begin, end) = if kind == 2 {
        match path.width {
            Some(w) => (w * (FINE / 2), w * (FINE / 2)),
            None => (0, 0),
        }
    } else if kind == 4 {
        (
            match path.begin_extn {
                Some(e) => e * FINE,
                None => 0,
            },
            match path.end_extn {
                Some(e) => e * FINE,
                None => 0,
            },
        )
    } else {
        (0, 0)
    };
    (if i == 0 {
        begin
    } else {
        0
    }, if i == n - 1 {
        end
    } else {
        0
    })
}

/// The length of a vector, in units of 1 / [`SLICES`], rounded down.
pub open spec fn sliced_length(dx: int, dy: int) -> int {
    isqrt(SLICES * SLICES * (dx * dx + dy * dy))
}

/// The component `v` of a vector of sliced length `s`, once the vector is scaled
/// to length `a`; rounded to the nearest.
pub open spec fn along(v: int, a: int, s: int) -> int {
    (2 * (a * SLICES * v) + s) / (2 * s)
}

/// The rectangle along the segment from `p` to `q`: `hw` to either side, and
/// extended at its ends.
pub open spec fn segment_corners(p: FinePoint, q: FinePoint, hw: int, ext: (int, int)) -> Seq<FinePoint> {
    let (dx, dy) = (q.x - p.x, q.y - p.y);
    let s = sliced_length(dx, dy);
    let (nx, ny) = (-along(dy, hw, s), along(dx, hw, s));
    let (bx, by) = (along(dx, ext.0, s), along(dy, ext.0, s));
    let (ex, ey) = (along(dx, ext.1, s), along(dy, ext.1, s));
    seq![
        FinePoint { x: (p.x - bx - nx) as i64, y: (p.y - by - ny) as i64 },
        FinePoint { x: (q.x + ex - nx) as i64, y: (q.y + ey - ny) as i64 },
        FinePoint { x: (q.x + ex + nx) as i64, y: (q.y + ey + ny) as i64 },
        FinePoint { x: (p.x - bx + nx) as i64, y: (p.y - by + ny) as i64 },
        FinePoint { x: (p.x - bx - nx) as i64, y: (p.y - by - ny) as i64 },
    ]
}

/// The rectangles of the first `k` segments; a segment without length has none.
pub open spec fn segment_rings(path: PathElement, pts: Seq<FinePoint>, hw: int, k: int) -> Seq<Seq<FinePoint>>
    decreases k,
{
    if k <= 0 {
        Seq::empty()
    } else if pts[k - 1] == pts[k] {
        segment_rings(path, pts, hw, k - 1)
    } else {
        segment_rings(path, pts, hw, k - 1).push(
            segment_corners(pts[k - 1], pts[k], hw, extensions(path, k - 1, pts.len() - 1)),
        )
    }
}

/// The path has a positive width and a segment.
pub open spec fn is_drawn(path: PathElement) -> bool {
    path.width is Some && path.width->0 > 0 && path.xy@.len() >= 2
}

/// The rings of a path under a transform: one rectangle per segment, none for a
/// path without a positive width or without a segment.
pub open spec fn path_rings(path: PathElement, t: Affine) -> Seq<Seq<FinePoint>> {
    let pts = fine_points(path.xy@, t);
    if is_drawn(path) {
        segment_rings(path, pts, path.width->0 * (FINE / 2), pts.len() - 1)
    } else {
        Seq::empty()
    }
}

/// The points of the path are within the limits.
pub open spec fn path_fits(path: PathElement, t: Affine) -> bool {
    is_drawn(path) ==> forall|i: int| 0 <= i < path.xy@.len() ==> is_near(#[trigger] fine_place(path.xy@[i], t))
}

/// The sliced length of a vector that is not zero brackets its components.
proof fn length_bounds(dx: int, dy: int)
    requires
        dx != 0 || dy != 0,
    ensures
        ({
            let s = sliced_length(dx, dy);
            &&& s >= SLICES
            &&& s * s <= SLICES * SLICES * (dx * dx + dy * dy) < (s + 1) * (s + 1)
            &&& -s <= SLICES * dx <= s
            &&& -s <= SLICES * dy <= s
        }),
{
    let m = dx * dx + dy * dy;
    let k = SLICES as int;
    assert(m >= 1) by (nonlinear_arith)
        requires
            m == dx * dx + dy * dy,
            dx != 0 || dy != 0,
    ;
    assert(SLICES * SLICES * m == 1024 * m);
    isqrt_brackets(1024 * m);
    let s = isqrt(1024 * m);
    assert(s >= 32) by (nonlinear_arith)
        requires
            1024 * m < (s + 1) * (s + 1),
            m >= 1,
            s >= 0,
    ;
    component_bound(dx, dy, s);
    component_bound(dy, dx, s);
}

proof fn component_bound(v: int, w: int, s: int)
    requires
        s >= 0,
        1024 * (v * v + w * w) < (s + 1) * (s + 1),
    ensures
        -s <= 32 * v <= s,
{
    assert(32 * v < s + 1) by (nonlinear_arith)
        requires
            s >= 0,
            1024 * (v * v + w * w) < (s + 1) * (s + 1),
    ;
    assert(-(32 * v) < s + 1) by (nonlinear_arith)
        requires
            s >= 0,
            1024 * (v * v + w * w) < (s + 1) * (s + 1),
    ;
}

/// What `along` returns is within half of the exact component, and not longer
/// than the vector.
proof fn along_bounds(v: int, a: int, s: int)
    requires
        s > 0,
        -s <= SLICES * v <= s,
    ensures
        -s <= 2 * (s * along(v, a, s) - a * SLICES * v) <= s,
        -abs_of(a) <= along(v, a, s) <= abs_of(a),
{
    let x = a * SLICES * v;
    lemma_fundamental_div_mod(2 * x + s, 2 * s);
    let r = along(v, a, s);
    assert(2 * s * r == 2 * (s * r)) by (nonlinear_arith);
    let c = abs_of(a);
    assert(-(c * s) <= x <= c * s) by (nonlinear_arith)
        requires
            x == a * SLICES * v,
            -s <= SLICES * v <= s,
            c == abs_of(a),
            s > 0,
    {
        let w = SLICES * v;
        assert(a * SLICES * v == a * w) by (nonlinear_arith)
            requires
                w == SLICES * v,
        ;
        if a >= 0 {
            assert(-(a * s) <= a * w <= a * s) by (nonlinear_arith)
                requires
                    a >= 0,
                    -s <= w <= s,
            ;
        } else {
            assert(-((-a) * s) <= a * w <= (-a) * s) by (nonlinear_arith)
                requires
                    a < 0,
                    -s <= w <= s,
            ;
        }
    }
    assert(r <= c) by (nonlinear_arith)
        requires
            2 * (s * r) <= 2 * x + s,
            x <= c * s,
            s > 0,
    ;
    assert(r >= -c) by (nonlinear_arith)
        requires
            2 * x + s < 2 * (s * r) + 2 * s,
            x >= -(c * s),
            s > 0,
    ;
}

/// The component of a vector scaled to length `a`.
fn find_along(v: i64, a: i64, s: i128) -> (r: i64)
    requires
        -0x80_0000_0000_0000 <= a <= 0x80_0000_0000_0000,
        -0x200_0000_0000_0000 <= v <= 0x200_0000_0000_0000,
        0 < s <= 0x8000_0000_0000_0000,
        -s <= SLICES * v <= s,
    ensures
        r == along(v as int, a as int, s as int),
        -abs_of(a as int) <= r <= abs_of(a as int),
{
    proof {
        along_bounds(v as int, a as int, s as int);
        assert(-0x1_0000_0000_0000_0000_0000_0000_0000 <= a * v <= 0x1_0000_0000_0000_0000_0000_0000_0000) by (nonlinear_arith)
            requires
                -0x80_0000_0000_0000 <= a <= 0x80_0000_0000_0000,
                -0x200_0000_0000_0000 <= v <= 0x200_0000_0000_0000,
        ;
        assert(a * SLICES * v == SLICES * (a * v)) by (nonlinear_arith);
    }
    let x: i128 = SLICES * (a as i128 * v as i128);
    let r: i128 = floor_div_wide(2 * x + s, 2 * s);
    r as i64
}

/// The coordinates of the point are within the limit.
pub open spec fn near_point(p: FinePoint) -> bool {
    is_near((p.x as int, p.y as int))
}

/// The rectangle along a segment.
fn segment_polygon(p: &FinePoint, q: &FinePoint, hw: i64, begin: i64, end: i64) -> (out: FinePolygon)
    requires
        near_point(*p),
        near_point(*q),
        *p != *q,
        0 <= hw <= 0x80_0000_0000_0000,
        -0x80_0000_0000_0000 <= begin <= 0x80_0000_0000_0000,
        -0x80_0000_0000_0000 <= end <= 0x80_0000_0000_0000,
    ensures
        out@ == segment_corners(*p, *q, hw as int, (begin as int, end as int)),
{
    let dx = q.x - p.x;
    let dy = q.y - p.y;
    proof {
        length_bounds(dx as int, dy as int);
        assert(0 <= dx * dx <= 0x4_0000_0000_0000_0000_0000_0000_0000 && 0 <= dy * dy
            <= 0x4_0000_0000_0000_0000_0000_0000_0000) by (nonlinear_arith)
            requires
                -0x200_0000_0000_0000 <= dx <= 0x200_0000_0000_0000,
                -0x200_0000_0000_0000 <= dy <= 0x200_0000_0000_0000,
        ;
    }
    let m: i128 = dx as i128 * dx as i128 + dy as i128 * dy as i128;
    let s = isqrt_of(SLICES * SLICES * m);
    let nx = -find_along(dy, hw, s);
    let ny = find_along(dx, hw, s);
    let bx = find_along(dx, begin, s);
    let by = find_along(dy, begin, s);
    let ex = find_along(dx, end, s);
    let ey = find_along(dy, end, s);
    let mut exterior: Vec<FinePoint> = Vec::new();
    exterior.push(FinePoint { x: p.x - bx - nx, y: p.y - by - ny });
    exterior.push(FinePoint { x: q.x + ex - nx, y: q.y + ey - ny });
    exterior.push(FinePoint { x: q.x + ex + nx, y: q.y + ey + ny });
    exterior.push(FinePoint { x: p.x - bx + nx, y: p.y - by + ny });
    exterior.push(FinePoint { x: p.x - bx - nx, y: p.y - by - ny });
    let out = FinePolygon { exterior };
    assert(out@ =~= segment_corners(*p, *q, hw as int, (begin as int, end as int)));
    out
}

/// The end extensions of a segment.
fn extensions_of(path: &PathElement, i: usize, n: usize) -> (r: (i64, i64))
    requires
        n > 0,
        path.width is Some,
        0 < path.width->0,
    ensures
        r.0 == extensions(*path, i as int, n as int).0,
        r.1 == extensions(*path, i as int, n as int).1,
        -0x80_0000_0000_0000 <= r.0 <= 0x80_0000_0000_0000,
        -0x80_0000_0000_0000 <= r.1 <= 0x80_0000_0000_0000,
{
    let kind: i16 = match path.path_type {
        Some(k) => k,
        None => 0,
    };
    let mut begin: i64 = 0;
    let mut end: i64 = 0;
    if kind == 2 {
        if let Some(w) = path.width {
            begin = w as i64 * (FINE / 2);
            end = w as i64 * (FINE / 2);
        }
    } else if kind == 4 {
        if let Some(e) = path.begin_extn {
            begin = e as i64 * FINE;
        }
        if let Some(e) = path.end_extn {
            end = e as i64 * FINE;
        }
    }
    (if i == 0 {
        begin
    } else {
        0
    }, if i == n - 1 {
        end
    } else {
        0
    })
}

/// Take points through a transform, `None` if one leaves the limits.
fn place_finely(xy: &Vec<(i32, i32)>, t: &AffineTransform) -> (out: Option<Vec<FinePoint>>)
    requires
        t@.valid(),
    ensures
        out is Some <==> forall|i: int| 0 <= i < xy@.len() ==> is_near(#[trigger] fine_place(xy@[i], t@)),
        out matches Some(v) ==> v@ == fine_points(xy@, t@) && forall|i: int|
            0 <= i < v@.len() ==> near_point(#[trigger] v@[i]),
{
    let mut out: Vec<FinePoint> = Vec::new();
    let mut i: usize = 0;
    while i < xy.len()
        invariant
            t@.valid(),
            i <= xy@.len(),
            out@.len() == i,
            forall|j: int| 0 <= j < i ==> is_near(#[trigger] fine_place(xy@[j], t@)),
            forall|j: int| 0 <= j < i ==> out@[j] == #[trigger] fine_points(xy@, t@)[j],
            forall|j: int| 0 <= j < i ==> near_point(#[trigger] out@[j]),
        decreases xy@.len() - i,
    {
        let (x, y) = xy[i];
        let (fx, fy) = t.apply_fixed(x, y);
        let px = floor_div_wide(fx + 0x80, 0x100);
        let py = floor_div_wide(fy + 0x80, 0x100);
        let limit = FINE_LIMIT as i128;
        assert(fine_place(xy@[i as int], t@) == (px as int, py as int));
        if px < -limit || px > limit || py < -limit || py > limit {
            return None;
        }
        out.push(FinePoint { x: px as i64, y: py as i64 });
        i = i + 1;
    }
    assert(out@ =~= fine_points(xy@, t@));
    Some(out)
}

/// Convert a path into one rectangle per segment, `None` if a point leaves the
/// limits.  At joins the rectangles overlap.
pub fn path_to_polygons(path: &PathElement, xform: &AffineTransform) -> (out: Option<Vec<FinePolygon>>)
    requires
        xform@.valid(),
    ensures
        out is Some <==> path_fits(*path, xform@),
        out matches Some(v) ==> fine_rings_of(v@) == path_rings(*path, xform@),
{
    let mut out: Vec<FinePolygon> = Vec::new();
    let width: i32 = match path.width {
        Some(w) => w,
        None => 0,
    };
    assert(fine_rings_of(out@) =~= Seq::empty());
    if width <= 0 || path.xy.len() < 2 {
        return Some(out);
    }
    let pts = match place_finely(&path.xy, xform) {
        Some(v) => v,
        None => {
            return None;
        },
    };
    let n = pts.len();
    let hw = width as i64 * (FINE / 2);
    let mut i: usize = 0;
    while i < n - 1
        invariant
            n == pts@.len(),
            n >= 2,
            i <= n - 1,
            forall|j: int| 0 <= j < n ==> near_point(#[trigger] pts@[j]),
            hw == width * (FINE / 2),
            0 <= hw <= 0x80_0000_0000_0000,
            path.width == Some(width),
            0 < width,
            fine_rings_of(out@) == segment_rings(*path, pts@, hw as int, i as int),
        decreases n - i,
    {
        assert(near_point(pts@[i as int]) && near_point(pts@[i + 1]));
        if pts[i] != pts[i + 1] {
            let (begin, end) = extensions_of(path, i, n - 1);
            let ghost before = out@;
            out.push(segment_polygon(&pts[i], &pts[i + 1], hw, begin, end));
            assert(fine_rings_of(out@) =~= fine_rings_of(before).push(out@[before.len() as int]@));
        }
        i = i + 1;
    }
    Some(out)
}

/// A fine coordinate in layout units, rounded to the nearest.
pub open spec fn layout_of(v: int) -> int {
    (v + FINE / 4) / (FINE as int / 2)
}

/// A ring in layout units.
pub open spec fn layout_ring(ring: Seq<FinePoint>) -> Seq<Point> {
    ring.map_values(|p: FinePoint| Point { x: layout_of(p.x as int) as i64, y: layout_of(p.y as int) as i64 })
}

/// The shapes of a path on the layout grid.
pub open spec fn path_shapes(path: PathElement, t: Affine) -> Seq<Shape> {
    path_rings(path, t).map_values(|r: Seq<FinePoint>| Shape { exterior: layout_ring(r), holes: Seq::empty() })
}

/// Round a polygon to the layout grid.
fn round_polygon(poly: &FinePolygon) -> (out: Polygon)
    ensures
        out@ == (Shape { exterior: layout_ring(poly@), holes: Seq::empty() }),
{
    let mut exterior: Vec<Point> = Vec::new();
    let mut i: usize = 0;
    while i < poly.exterior.len()
        invariant
            i <= poly@.len(),
            exterior@.len() == i,
            forall|j: int| 0 <= j < i ==> exterior@[j] == #[trigger] layout_ring(poly@)[j],
        decreases poly@.len() - i,
    {
        let p = poly.exterior[i];
        let x = floor_div_wide(p.x as i128 + (FINE / 4) as i128, (FINE / 2) as i128);
        let y = floor_div_wide(p.y as i128 + (FINE / 4) as i128, (FINE / 2) as i128);
        exterior.push(Point { x: x as i64, y: y as i64 });
        i = i + 1;
    }
    assert(exterior@ =~= layout_ring(poly@));
    let out = Polygon { exterior, holes: Vec::new() };
    assert(out@.holes =~= Seq::empty());
    out
}

/// Draw a path: its rectangles on the layout grid, `None` if they leave the
/// supported range.
pub fn draw_path(path: &PathElement, xform: &AffineTransform) -> (out: Option<Vec<Polygon>>)
    requires
        xform@.valid(),
    ensures
        out is Some <==> path_fits(*path, xform@) && shapes_in_range(path_shapes(*path, xform@)),
        out matches Some(v) ==> shapes_of(v@) == path_shapes(*path, xform@),
{
    let fine = match path_to_polygons(path, xform) {
        Some(v) => v,
        None => {
            return None;
        },
    };
    let mut out: Vec<Polygon> = Vec::new();
    let mut i: usize = 0;
    while i < fine.len()
        invariant
            i <= fine@.len(),
            fine_rings_of(fine@) == path_rings(*path, xform@),
            out@.len() == i,
            forall|j: int| 0 <= j < i ==> #[trigger] shapes_of(out@)[j] == path_shapes(*path, xform@)[j],
        decreases fine@.len() - i,
    {
        let ghost before = out@;
        out.push(round_polygon(&fine[i]));
        proof {
            assert(fine_rings_of(fine@)[i as int] == fine@[i as int]@);
            assert(shapes_of(out@) =~= shapes_of(before).push(out@[i as int]@));
        }
        i = i + 1;
    }
    assert(shapes_of(out@) =~= path_shapes(*path, xform@));
    if check_polygons(&out) {
        Some(out)
    } else {
        None
    }
}

/// Twice the signed area under the first `n` edges of a ring.
pub open spec fn fine_edges(ring: Seq<FinePoint>, n: int) -> int
    decreases n,
{
    if n <= 0 {
        0
    } else {
        fine_edges(ring, n - 1) + (ring[n - 1].x * ring[n].y - ring[n].x * ring[n - 1].y)
    }
}

/// Twice the signed area of a closed ring, in squared fine units.
pub open spec fn fine_area2(ring: Seq<FinePoint>) -> int {
    fine_edges(ring, ring.len() - 1)
}

proof fn product_bound(x: int, y: int, a: int, b: int)
    requires
        -a <= x <= a,
        -b <= y <= b,
    ensures
        -(a * b) <= x * y <= a * b,
{
    assert(-(a * b) <= x * y <= a * b) by (nonlinear_arith)
        requires
            -a <= x <= a,
            -b <= y <= b,
    ;
}

/// One component of the segment times the same component of its normal.
proof fn segment_term(v: int, a: int, s: int)
    requires
        s > 0,
        -s <= SLICES * v <= s,
    ensures
        ({
            let w = SLICES * v;
            -(s * s) <= 2 * (s * (w * along(v, a, s)) - a * (w * w)) <= s * s
        }),
{
    let w = SLICES * v;
    let r = along(v, a, s);
    along_bounds(v, a, s);
    let d = s * r - a * w;
    assert(a * SLICES * v == a * w) by (nonlinear_arith)
        requires
            w == SLICES * v,
    ;
    product_bound(w, 2 * d, s, s);
    assert(w * (2 * d) == 2 * (s * (w * r) - a * (w * w))) by (nonlinear_arith)
        requires
            d == s * r - a * w,
    ;
}

/// One component of an extension times the same component of the normal.
proof fn extension_term(v: int, a: int, b: int, s: int)
    requires
        s > 0,
        -s <= SLICES * v <= s,
    ensures
        ({
            let w = SLICES * v;
            let t = 4 * (s * s * (along(v, a, s) * along(v, b, s)) - a * b * (w * w));
            -(s * s * (2 * abs_of(a) + 2 * abs_of(b) + 1)) <= t <= s * s * (2 * abs_of(a) + 2 * abs_of(b) + 1)
        }),
{
    let w = SLICES * v;
    let (p, q) = (along(v, a, s), along(v, b, s));
    along_bounds(v, a, s);
    along_bounds(v, b, s);
    let (d, e) = (s * p - a * w, s * q - b * w);
    assert(a * SLICES * v == a * w && b * SLICES * v == b * w) by (nonlinear_arith)
        requires
            w == SLICES * v,
    ;
    let (m, n) = (abs_of(a), abs_of(b));
    product_bound(w, 2 * e, s, s);
    product_bound(w, 2 * d, s, s);
    product_bound(2 * d, 2 * e, s, s);
    let ss = s * s;
    product_bound(a, w * (2 * e), m, ss);
    product_bound(b, w * (2 * d), n, ss);
    let t = 4 * (s * s * (p * q) - a * b * (w * w));
    let (x, y, aw, bw) = (s * p, s * q, a * w, b * w);
    assert(s * s * (p * q) == x * y) by (nonlinear_arith)
        requires
            x == s * p,
            y == s * q,
    ;
    assert(a * b * (w * w) == aw * bw) by (nonlinear_arith)
        requires
            aw == a * w,
            bw == b * w,
    ;
    assert(x * y == aw * bw + aw * e + d * bw + d * e) by (nonlinear_arith)
        requires
            x == aw + d,
            y == bw + e,
    ;
    assert(a * (w * (2 * e)) == 2 * (aw * e) && b * (w * (2 * d)) == 2 * (d * bw)) by (nonlinear_arith)
        requires
            aw == a * w,
            bw == b * w,
    ;
    assert((2 * d) * (2 * e) == 4 * (d * e)) by (nonlinear_arith);
    assert(s * s * (2 * m + 2 * n + 1) == 2 * (m * ss) + 2 * (n * ss) + ss) by (nonlinear_arith)
        requires
            ss == s * s,
    ;
}

/// The normal of a segment spans with it the half width times its length.
proof fn segment_span(dx: int, dy: int, hw: int)
    requires
        dx != 0 || dy != 0,
        hw >= 0,
    ensures
        ({
            let s = sliced_length(dx, dy);
            let c = dx * along(dx, hw, s) + dy * along(dy, hw, s);
            -s <= SLICES * c - hw * s <= s + 2 * hw
        }),
{
    length_bounds(dx, dy);
    let s = sliced_length(dx, dy);
    segment_term(dx, hw, s);
    segment_term(dy, hw, s);
    let (u, v) = (SLICES * dx, SLICES * dy);
    let (p, q) = (along(dx, hw, s), along(dy, hw, s));
    let c = dx * p + dy * q;
    let k = SLICES * c;
    assert(s * (u * p) + s * (v * q) == s * k) by (nonlinear_arith)
        requires
            u == SLICES * dx,
            v == SLICES * dy,
            k == SLICES * (dx * p + dy * q),
    ;
    let mm = SLICES * SLICES * (dx * dx + dy * dy);
    assert(hw * (u * u) + hw * (v * v) == hw * mm) by (nonlinear_arith)
        requires
            u == SLICES * dx,
            v == SLICES * dy,
            mm == SLICES * SLICES * (dx * dx + dy * dy),
    ;
    assert(hw * (s * s) <= hw * mm <= hw * (s * s) + 2 * (hw * s)) by (nonlinear_arith)
        requires
            hw >= 0,
            s * s <= mm < (s + 1) * (s + 1),
    ;
    assert(-s <= k - hw * s <= s + 2 * hw) by (nonlinear_arith)
        requires
            s > 0,
            -(s * s) <= s * k - hw * mm <= s * s,
            hw * (s * s) <= hw * mm <= hw * (s * s) + 2 * (hw * s),
    ;
}

/// The normal of a segment spans with an extension the half width times its
/// length.
proof fn extension_span(dx: int, dy: int, a: int, hw: int)
    requires
        dx != 0 || dy != 0,
        hw >= 0,
    ensures
        ({
            let s = sliced_length(dx, dy);
            let c = along(dx, a, s) * along(dx, hw, s) + along(dy, a, s) * along(dy, hw, s);
            let slack = s * (abs_of(a) + hw + 1) + 2 * (abs_of(a) * hw);
            -slack <= s * (c - a * hw) <= slack
        }),
{
    length_bounds(dx, dy);
    let s = sliced_length(dx, dy);
    extension_term(dx, a, hw, s);
    extension_term(dy, a, hw, s);
    let (u, v) = (SLICES * dx, SLICES * dy);
    let (p, q) = (along(dx, a, s) * along(dx, hw, s), along(dy, a, s) * along(dy, hw, s));
    let c = p + q;
    let mm = SLICES * SLICES * (dx * dx + dy * dy);
    let ah = a * hw;
    let ss = s * s;
    assert(a * hw * (u * u) + a * hw * (v * v) == ah * mm) by (nonlinear_arith)
        requires
            u == SLICES * dx,
            v == SLICES * dy,
            ah == a * hw,
            mm == SLICES * SLICES * (dx * dx + dy * dy),
    ;
    assert(s * s * p + s * s * q == ss * c) by (nonlinear_arith)
        requires
            ss == s * s,
            c == p + q,
    ;
    let t = abs_of(a) + hw;
    assert(s * s * (2 * abs_of(a) + 2 * abs_of(hw) + 1) == 2 * (ss * t) + ss) by (nonlinear_arith)
        requires
            ss == s * s,
            t == abs_of(a) + hw,
            hw >= 0,
    ;
    assert(-(2 * (ss * t) + ss) <= 2 * (ss * c - ah * mm) <= 2 * (ss * t) + ss);
    let g = abs_of(a) * hw;
    assert((s + 1) * (s + 1) == ss + 2 * s + 1) by (nonlinear_arith)
        requires
            ss == s * s,
    ;
    assert(-g <= ah <= g) by (nonlinear_arith)
        requires
            ah == a * hw,
            g == abs_of(a) * hw,
            hw >= 0,
    ;
    product_bound(ah, mm - ss, g, 2 * s);
    assert(ah * (mm - ss) == ah * mm - ah * ss) by (nonlinear_arith);
    assert(ss * (c - ah) == ss * c - ah * ss) by (nonlinear_arith);
    assert(g * (2 * s) == 2 * (g * s)) by (nonlinear_arith);
    let slack = s * (t + 1) + 2 * g;
    assert(s * (s * (t + 1) + 2 * g) == ss * t + ss + 2 * (g * s)) by (nonlinear_arith)
        requires
            ss == s * s,
    ;
    let d = s * (c - ah);
    assert(s * d == ss * (c - ah)) by (nonlinear_arith)
        requires
            ss == s * s,
            d == s * (c - ah),
    ;
    assert(ss > 0) by (nonlinear_arith)
        requires
            ss == s * s,
            s > 0,
    ;
    assert(-(s * slack) <= s * d <= s * slack);
    assert(-slack <= d <= slack) by (nonlinear_arith)
        requires
            s > 0,
            -(s * slack) <= s * d <= s * slack,
    ;
}

/// How far the area of a segment may be from width times length, times twice
/// the sliced length and [`SLICES`]: a few fine units along its outline.
pub open spec fn area_slack(s: int, hw: int, ext: (int, int)) -> int {
    let reach = abs_of(ext.0) + abs_of(ext.1);
    4 * (s * (s + 2 * hw) + SLICES * (s * (reach + 2 * hw + 2) + 2 * (reach * hw)))
}

/// The rectangle of a segment has the area width times length, its extensions
/// counted in, up to a slack of a few fine units along its outline.
pub proof fn segment_has_its_area(p: FinePoint, q: FinePoint, hw: int, ext: (int, int))
    requires
        near_point(p),
        near_point(q),
        p != q,
        0 <= hw <= FINE_LIMIT,
        -FINE_LIMIT <= ext.0 <= FINE_LIMIT,
        -FINE_LIMIT <= ext.1 <= FINE_LIMIT,
    ensures
        ({
            let s = sliced_length(q.x - p.x, q.y - p.y);
            let length = s + SLICES * (ext.0 + ext.1);
            let width = 2 * hw;
            let area2 = fine_area2(segment_corners(p, q, hw, ext));
            &&& -area_slack(s, hw, ext) <= SLICES * s * area2 - 2 * (width * s * length) <= area_slack(s, hw, ext)
            &&& ext == (0int, 0int) ==> -(4 * s) <= SLICES * area2 - 2 * (width * s) <= 4 * (s + width)
        }),
{
    let (dx, dy) = (q.x - p.x, q.y - p.y);
    length_bounds(dx, dy);
    let s = sliced_length(dx, dy);
    along_bounds(dx, hw, s);
    along_bounds(dy, hw, s);
    along_bounds(dx, ext.0, s);
    along_bounds(dy, ext.0, s);
    along_bounds(dx, ext.1, s);
    along_bounds(dy, ext.1, s);
    let (nx, ny) = (-along(dy, hw, s), along(dx, hw, s));
    let (bx, by) = (along(dx, ext.0, s), along(dy, ext.0, s));
    let (ex, ey) = (along(dx, ext.1, s), along(dy, ext.1, s));
    let ring = segment_corners(p, q, hw, ext);
    let area2 = fine_area2(ring);
    let (c, b, e) = (dx * ny - dy * nx, bx * ny - by * nx, ex * ny - ey * nx);
    assert(area2 == 4 * (c + b + e)) by {
        reveal_with_fuel(fine_edges, 6);
        let (ax, ay) = (p.x - bx - nx, p.y - by - ny);
        let (fx, fy) = (q.x + ex - nx, q.y + ey - ny);
        assert(ring[0] == FinePoint { x: ax as i64, y: ay as i64 } && ring[0].x == ax && ring[0].y == ay);
        assert(ring[1].x == fx && ring[1].y == fy);
        assert(ring[2].x == fx + 2 * nx && ring[2].y == fy + 2 * ny);
        assert(ring[3].x == ax + 2 * nx && ring[3].y == ay + 2 * ny);
        assert(ring[4] == ring[0]);
        let (vx, vy) = (dx + bx + ex, dy + by + ey);
        assert(fx == ax + vx && fy == ay + vy);
        let (gx, gy) = (ax + 2 * nx, ay + 2 * ny);
        assert(ax * fy - fx * ay == ax * vy - vx * ay) by (nonlinear_arith)
            requires
                fx == ax + vx,
                fy == ay + vy,
        ;
        assert(fx * (fy + 2 * ny) - (fx + 2 * nx) * fy == 2 * (ax * ny) + 2 * (vx * ny) - 2 * (nx * ay) - 2 * (nx * vy))
            by (nonlinear_arith)
            requires
                fx == ax + vx,
                fy == ay + vy,
        ;
        assert((fx + 2 * nx) * gy - gx * (fy + 2 * ny) == vx * gy - gx * vy) by (nonlinear_arith)
            requires
                fx + 2 * nx == gx + vx,
                fy + 2 * ny == gy + vy,
        ;
        assert(vx * gy - gx * vy == vx * ay + 2 * (vx * ny) - ax * vy - 2 * (nx * vy)) by (nonlinear_arith)
            requires
                gx == ax + 2 * nx,
                gy == ay + 2 * ny,
        ;
        assert(gx * ay - ax * gy == 2 * (nx * ay) - 2 * (ax * ny)) by (nonlinear_arith)
            requires
                gx == ax + 2 * nx,
                gy == ay + 2 * ny,
        ;
        assert(nx * vy == vy * nx) by (nonlinear_arith);
        assert(area2 == 4 * (vx * ny - vy * nx));
        assert(vx * ny - vy * nx == c + b + e) by (nonlinear_arith)
            requires
                vx == dx + bx + ex,
                vy == dy + by + ey,
                c == dx * ny - dy * nx,
                b == bx * ny - by * nx,
                e == ex * ny - ey * nx,
        ;
    }
    segment_span(dx, dy, hw);
    extension_span(dx, dy, ext.0, hw);
    extension_span(dx, dy, ext.1, hw);
    let (x, y) = (along(dx, hw, s), along(dy, hw, s));
    assert(c == dx * x + dy * y && b == bx * x + by * y && e == ex * x + ey * y) by (nonlinear_arith)
        requires
            nx == -y,
            ny == x,
            c == dx * ny - dy * nx,
            b == bx * ny - by * nx,
            e == ex * ny - ey * nx,
    ;
    let (m, n) = (abs_of(ext.0), abs_of(ext.1));
    let k = SLICES * c - hw * s;
    assert(-(s * (s + 2 * hw)) <= s * k <= s * (s + 2 * hw)) by (nonlinear_arith)
        requires
            -s <= k <= s + 2 * hw,
            s > 0,
            hw >= 0,
    ;
    let (bs, es) = (s * (b - ext.0 * hw), s * (e - ext.1 * hw));
    let both = s * (m + hw + 1) + 2 * (m * hw) + s * (n + hw + 1) + 2 * (n * hw);
    assert(-both <= bs + es <= both);
    assert(both == s * (m + n + 2 * hw + 2) + 2 * ((m + n) * hw)) by (nonlinear_arith)
        requires
            both == s * (m + hw + 1) + 2 * (m * hw) + s * (n + hw + 1) + 2 * (n * hw),
    ;
    let length = s + SLICES * (ext.0 + ext.1);
    let (sc, sb, se, h) = (s * c, s * b, s * e, hw * s);
    let (h0, h1) = (h * ext.0, h * ext.1);
    assert(s * area2 == 4 * (sc + sb + se)) by (nonlinear_arith)
        requires
            area2 == 4 * (c + b + e),
            sc == s * c,
            sb == s * b,
            se == s * e,
    ;
    assert(SLICES * s * area2 == SLICES * (s * area2)) by (nonlinear_arith);
    assert(s * k == SLICES * sc - s * h) by (nonlinear_arith)
        requires
            k == SLICES * c - h,
            sc == s * c,
    ;
    assert(bs == sb - h0 && es == se - h1) by (nonlinear_arith)
        requires
            bs == s * (b - ext.0 * hw),
            es == s * (e - ext.1 * hw),
            sb == s * b,
            se == s * e,
            h == hw * s,
            h0 == h * ext.0,
            h1 == h * ext.1,
    ;
    assert(2 * hw * s * length == 2 * (s * h) + 2 * (SLICES * (h0 + h1))) by (nonlinear_arith)
        requires
            h == hw * s,
            h0 == h * ext.0,
            h1 == h * ext.1,
            length == s + SLICES * (ext.0 + ext.1),
    ;
    if ext == (0int, 0int) {
        along_of_zero(dx, s);
        along_of_zero(dy, s);
        assert(b == 0 && e == 0) by (nonlinear_arith)
            requires
                bx == 0,
                by == 0,
                ex == 0,
                ey == 0,
                b == bx * x + by * y,
                e == ex * x + ey * y,
        ;
        assert(2 * hw * s == 2 * (hw * s)) by (nonlinear_arith);
    }
}

proof fn along_of_zero(v: int, s: int)
    requires
        s > 0,
    ensures
        along(v, 0, s) == 0,
{
    assert(0 * SLICES * v == 0) by (nonlinear_arith);
    lemma_fundamental_div_mod_converse(s, 2 * s, 0, s);
}

/// A segment along the x axis becomes exactly the rectangle that reaches half
/// the width to either side and the extensions beyond its ends.
pub proof fn straight_segment_is_exact(p: FinePoint, q: FinePoint, hw: int, ext: (int, int))
    requires
        near_point(p),
        near_point(q),
        p.y == q.y,
        p.x < q.x,
        0 <= hw <= FINE_LIMIT,
        -FINE_LIMIT <= ext.0 <= FINE_LIMIT,
        -FINE_LIMIT <= ext.1 <= FINE_LIMIT,
    ensures
        segment_corners(p, q, hw, ext) == seq![
            FinePoint { x: (p.x - ext.0) as i64, y: (p.y - hw) as i64 },
            FinePoint { x: (q.x + ext.1) as i64, y: (p.y - hw) as i64 },
            FinePoint { x: (q.x + ext.1) as i64, y: (p.y + hw) as i64 },
            FinePoint { x: (p.x - ext.0) as i64, y: (p.y + hw) as i64 },
            FinePoint { x: (p.x - ext.0) as i64, y: (p.y - hw) as i64 },
        ],
{
    let dx = q.x - p.x;
    let s = SLICES * dx;
    assert(SLICES * SLICES * (dx * dx + 0 * 0) == s * s && s * s < (s + 1) * (s + 1)) by (nonlinear_arith)
        requires
            s == SLICES * dx,
            dx > 0,
    ;
    isqrt_is(SLICES * SLICES * (dx * dx + 0 * 0), s);
    exact_along(dx, hw);
    exact_along(dx, ext.0);
    exact_along(dx, ext.1);
    assert(forall|a: int| #[trigger] (a * SLICES * 0) == 0) by (nonlinear_arith);
    lemma_fundamental_div_mod_converse(s, 2 * s, 0, s);
}

proof fn exact_along(dx: int, a: int)
    requires
        dx > 0,
    ensures
        along(dx, a, SLICES * dx) == a,
{
    let s = SLICES * dx;
    assert(2 * (a * SLICES * dx) + s == a * (2 * s) + s) by (nonlinear_arith)
        requires
            s == SLICES * dx,
    ;
    lemma_fundamental_div_mod_converse(2 * (a * SLICES * dx) + s, 2 * s, a, s);
}

} // verus!
