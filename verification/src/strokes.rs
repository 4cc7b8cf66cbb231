//! What a path draws.

use crate::geom::Point;
use crate::layout::PathElement;
use crate::path::fine_of;
use crate::path::fine_place;
use crate::path::fine_points;
use crate::path::layout_of;
use crate::path::path_rings;
use crate::path::path_shapes;
use crate::path::segment_corners;
use crate::path::segment_rings;
use crate::path::straight_segment_is_exact;
use crate::path::FinePoint;
use crate::transform::Affine;
use vstd::arithmetic::div_mod::lemma_fundamental_div_mod;
use vstd::arithmetic::div_mod::lemma_fundamental_div_mod_converse;
use vstd::prelude::*;

verus! {

/// How far a path of this width reaches beyond its first and its last point, in
/// half database units: by half its width for type 2, by its extensions for type
/// 4, and not at all for the others.
pub open spec fn stroke_ends(path: PathElement, width: int) -> (int, int) {
    if path.path_type == Some(2i16) {
        (width, width)
    } else if path.path_type == Some(4i16) {
        (
            match path.begin_extn {
                Some(e) => 2 * e,
                None => 0,
            },
            match path.end_extn {
                Some(e) => 2 * e,
                None => 0,
            },
        )
    } else {
        (0, 0)
    }
}

/// The ends of segment `i` of `n`, in fine units: those of the path at its own ends,
/// and flush at a join.
pub open spec fn segment_ends(path: PathElement, width: int, i: int, n: int) -> (int, int) {
    let (begin, end) = stroke_ends(path, width);
    (if i == 0 {
        0x80_0000 * begin
    } else {
        0
    }, if i == n - 1 {
        0x80_0000 * end
    } else {
        0
    })
}

proof fn segment_is_listed(path: PathElement, pts: Seq<FinePoint>, width: int, hw: int, k: int, i: int)
    requires
        path.width is Some && path.width->0 == width,
        0 <= i < k < pts.len(),
        pts[i] != pts[i + 1],
    ensures
        segment_rings(path, pts, hw, k).contains(
            segment_corners(pts[i], pts[i + 1], hw, segment_ends(path, width, i, pts.len() - 1)),
        ),
    decreases k,
{
    let ring = segment_corners(pts[i], pts[i + 1], hw, segment_ends(path, width, i, pts.len() - 1));
    let now = segment_rings(path, pts, hw, k);
    let before = segment_rings(path, pts, hw, k - 1);
    if i == k - 1 {
        assert(segment_ends(path, width, i, pts.len() - 1) == crate::path::extensions(path, i, pts.len() - 1));
        assert(now[before.len() as int] == ring);
    } else {
        segment_is_listed(path, pts, width, hw, k - 1, i);
        let b = choose|b: int| 0 <= b < before.len() && before[b] == ring;
        assert(now[b] == ring);
    }
}

/// Every segment of a path that has a length is drawn, half the width to either
/// side; only the first and the last reach beyond their ends.
pub proof fn every_segment_is_drawn(path: PathElement, t: Affine, width: int, i: int)
    requires
        path.width is Some && path.width->0 == width,
        width > 0,
        0 <= i,
        i + 1 < path.xy@.len(),
        fine_points(path.xy@, t)[i] != fine_points(path.xy@, t)[i + 1],
    ensures
        ({
            let pts = fine_points(path.xy@, t);
            path_rings(path, t).contains(
                segment_corners(
                    pts[i],
                    pts[i + 1],
                    0x80_0000 * width,
                    segment_ends(path, width, i, path.xy@.len() - 1),
                ),
            )
        }),
{
    let pts = fine_points(path.xy@, t);
    segment_is_listed(path, pts, width, 0x80_0000 * width, pts.len() - 1, i);
}

/// A path without a positive width, or with less than two points, draws nothing.
pub proof fn thin_path_draws_nothing(path: PathElement, t: Affine)
    requires
        path.width is None || path.width->0 <= 0 || path.xy@.len() < 2,
    ensures
        path_shapes(path, t).len() == 0,
{
}

proof fn fine_is_exact(x: int)
    ensures
        fine_of(0x1_0000_0000 * x) == 0x100_0000 * x,
{
}

proof fn layout_is_exact(u: int)
    ensures
        layout_of(0x80_0000 * u) == u,
{
    lemma_fundamental_div_mod_converse(0x80_0000 * u + 0x40_0000, 0x80_0000, u, 0x40_0000);
}

/// A path from left to right along the x axis is one rectangle: half the width to
/// either side, and beyond its ends as its type says.
pub proof fn level_path_is_a_rectangle(path: PathElement, width: int)
    requires
        path.width is Some && path.width->0 == width,
        width > 0,
        path.xy@.len() == 2,
        path.xy@[0].1 == path.xy@[1].1,
        path.xy@[0].0 < path.xy@[1].0,
    ensures
        ({
            let shapes = path_shapes(path, Affine::identity());
            let (x0, x1, y) = (path.xy@[0].0, path.xy@[1].0, path.xy@[0].1);
            let (begin, end) = stroke_ends(path, width);
            let (l, r) = ((2 * x0 - begin) as i64, (2 * x1 + end) as i64);
            let (b, t) = ((2 * y - width) as i64, (2 * y + width) as i64);
            &&& shapes.len() == 1
            &&& shapes[0].holes.len() == 0
            &&& shapes[0].exterior == seq![
                Point { x: l, y: b },
                Point { x: r, y: b },
                Point { x: r, y: t },
                Point { x: l, y: t },
                Point { x: l, y: b },
            ]
        }),
{
    let t = Affine::identity();
    let (x0, x1, y) = (path.xy@[0].0 as int, path.xy@[1].0 as int, path.xy@[0].1 as int);
    let pts = fine_points(path.xy@, t);
    let (begin, end) = stroke_ends(path, width);
    assert(t.a * x0 == 0x1_0000_0000 * x0 && t.a * x1 == 0x1_0000_0000 * x1 && t.d * y == 0x1_0000_0000 * y && t.b * y == 0
        && t.c * x0 == 0 && t.c * x1 == 0) by (nonlinear_arith)
        requires
            t.a == 0x1_0000_0000,
            t.d == 0x1_0000_0000,
            t.b == 0,
            t.c == 0,
    ;
    fine_is_exact(x0);
    fine_is_exact(x1);
    fine_is_exact(y);
    let (p, q) = (pts[0], pts[1]);
    assert(p.x == 0x100_0000 * x0 && p.y == 0x100_0000 * y && q.x == 0x100_0000 * x1 && q.y == 0x100_0000 * y);
    let hw = 0x80_0000 * width;
    let ext = (0x80_0000 * begin, 0x80_0000 * end);
    assert(ext == crate::path::extensions(path, 0, 1));
    straight_segment_is_exact(p, q, hw, ext);
    reveal_with_fuel(segment_rings, 2);
    let rings = path_rings(path, t);
    assert(rings =~= seq![segment_corners(p, q, hw, ext)]);
    layout_is_exact(2 * x0 - begin);
    layout_is_exact(2 * x1 + end);
    layout_is_exact(2 * y - width);
    layout_is_exact(2 * y + width);
    let shapes = path_shapes(path, t);
    assert(shapes[0].exterior =~= seq![
        Point { x: (2 * x0 - begin) as i64, y: (2 * y - width) as i64 },
        Point { x: (2 * x1 + end) as i64, y: (2 * y - width) as i64 },
        Point { x: (2 * x1 + end) as i64, y: (2 * y + width) as i64 },
        Point { x: (2 * x0 - begin) as i64, y: (2 * y + width) as i64 },
        Point { x: (2 * x0 - begin) as i64, y: (2 * y - width) as i64 },
    ]);
}

/// The points of a path are put on the nearest fine unit, of which 2^24 make a
/// database unit, and its corners on the nearest layout unit.
pub proof fn path_points_are_nearest(p: (i32, i32), t: Affine, v: int)
    ensures
        ({
            let (to, fine) = (t.fixed(p.0 as int, p.1 as int), fine_place(p, t));
            &&& -0x100 <= 2 * (0x100 * fine.0 - to.0) <= 0x100
            &&& -0x100 <= 2 * (0x100 * fine.1 - to.1) <= 0x100
        }),
        -0x80_0000 <= 2 * (0x80_0000 * layout_of(v) - v) <= 0x80_0000,
{
    let to = t.fixed(p.0 as int, p.1 as int);
    lemma_fundamental_div_mod(to.0 + 0x80, 0x100);
    lemma_fundamental_div_mod(to.1 + 0x80, 0x100);
    lemma_fundamental_div_mod(v + 0x40_0000, 0x80_0000);
}

} // verus!
