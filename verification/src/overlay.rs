//! Boolean operations on polygons.

use crate::geom::bounds;
use crate::geom::box_bounds;
use crate::geom::closed_ring;
use crate::geom::copy_polygons;
use crate::geom::edge_sum;
use crate::geom::is_box;
use crate::geom::ring_area2;
use crate::geom::ring_in_range;
use crate::geom::shapes_in_range;
use crate::geom::shapes_of;
use crate::geom::signed_area2;
use crate::geom::Point;
use crate::geom::Polygon;
use crate::geom::Rect;
use crate::geom::Shape;
use crate::ground::all_rounds;
use crate::ground::any_covers;
use crate::ground::any_has_cell;
use crate::ground::are_boxes;
use crate::ground::are_rectilinear;
use crate::ground::back_covers_alike;
use crate::ground::box_covers;
use crate::ground::common;
use crate::ground::contour_box;
use crate::ground::cover_count;
use crate::ground::cover_exactly;
use crate::ground::covers;
use crate::ground::fill_wound;
use crate::ground::has_area;
use crate::ground::has_cell;
use crate::ground::is_open_box;
use crate::ground::is_rectilinear;
use crate::ground::is_union_of;
use crate::ground::left_box_winds_once;
use crate::ground::once_round_is_cover;
use crate::ground::passing_all;
use crate::ground::rounds;
use crate::ground::run_back;
use i_overlay::i_float::int::point::IntPoint;
use vstd::prelude::*;

verus! {

/// The points of a list of rings.
pub open spec fn rings_of(rings: Seq<Vec<Point>>) -> Seq<Seq<Point>> {
    rings.map_values(|r: Vec<Point>| r@)
}

/// The points of a list of ring lists.
pub open spec fn ring_lists_of(lists: Seq<Vec<Vec<Point>>>) -> Seq<Seq<Seq<Point>>> {
    lists.map_values(|l: Vec<Vec<Point>>| rings_of(l@))
}

/// Every ring is in range.
pub open spec fn rings_in_range(rings: Seq<Seq<Point>>) -> bool {
    forall|i: int| 0 <= i < rings.len() ==> ring_in_range(#[trigger] rings[i])
}

/// The parts are what two rectangles have in common, if that has an area.
pub open spec fn crosses(parts: Seq<Shape>, a: Rect, b: Rect) -> bool {
    if has_area(common(a, b)) {
        parts.len() == 1 && is_box(parts[0]) && bounds(parts[0].exterior) == common(a, b)
    } else {
        parts.len() == 0
    }
}

/// The regions that `Simplify::simplify` of `i_overlay` makes of open contours
/// under the non-zero fill rule, with its default options.
pub uninterp spec fn simplified(contours: Seq<Seq<Point>>) -> Seq<Seq<Seq<Point>>>;

/// Calls `Simplify::simplify` of `i_overlay` on its `i64` engine.  Claimed: the
/// result is a function of the contours, and of contours with axis-parallel
/// edges it fills, in regions that do not overlap, what their winding numbers do
/// not cancel on: that is the non-zero rule, and where all edges are axis-parallel
/// no crossing is rounded.  Nothing of the kind is claimed of slanted edges, whose
/// crossings the engine rounds to integers.  Coordinates stay far inside the
/// engine's documented limit.
#[verifier::external_body]
fn simplify(contours: &Vec<Vec<Point>>) -> (out: Vec<Vec<Vec<Point>>>)
    requires
        rings_in_range(rings_of(contours@)),
    ensures
        ring_lists_of(out@) == simplified(rings_of(contours@)),
        are_rectilinear(rings_of(contours@)) ==> fill_wound(
            region_shapes(ring_lists_of(out@), out@.len() as int),
            rings_of(contours@),
        ),
{
    let subject: Vec<Vec<IntPoint<i64>>> = contours.iter().map(|c| c.iter().map(|p| IntPoint::new(p.x, p.y)).collect()).collect();
    let shapes = i_overlay::core::simplify::Simplify::simplify(&subject, i_overlay::core::fill_rule::FillRule::NonZero, Default::default());
    shapes.into_iter().map(|s| s.into_iter().map(|c| c.into_iter().map(|p| Point { x: p.x, y: p.y }).collect()).collect()).collect()
}

/// The regions that `Overlay::overlay` of `i_overlay` returns for the
/// intersection of two sets of open contours under the even-odd fill rule, with
/// its options for OGC-valid shapes.
pub uninterp spec fn intersected(subject: Seq<Seq<Point>>, clip: Seq<Seq<Point>>) -> Seq<Seq<Seq<Point>>>;

/// Calls `Overlay::overlay` of `i_overlay` on its `i64` engine.  Claimed: the
/// result is a function of the two contour sets, and of two rectangles it is
/// the rectangle that they have in common, if that has an area: the rule finds
/// the common area, and collinear points are not kept.  Coordinates stay far
/// inside the engine's documented limit.
#[verifier::external_body]
fn intersect(subject: &Vec<Vec<Point>>, clip: &Vec<Vec<Point>>) -> (out: Vec<Vec<Vec<Point>>>)
    requires
        rings_in_range(rings_of(subject@)),
        rings_in_range(rings_of(clip@)),
    ensures
        ring_lists_of(out@) == intersected(rings_of(subject@), rings_of(clip@)),
        subject@.len() == 1 && clip@.len() == 1 && is_open_box(subject@[0]@) && is_open_box(clip@[0]@) ==> crosses(
            region_shapes(ring_lists_of(out@), out@.len() as int),
            contour_box(subject@[0]@),
            contour_box(clip@[0]@),
        ),
{
    let convert = |v: &Vec<Vec<Point>>| Vec::from_iter(v.iter().map(|c| Vec::from_iter(c.iter().map(|p| IntPoint::new(p.x, p.y)))));
    let shapes = i_overlay::core::overlay::Overlay::from_subj_and_clip_custom(
        &convert(subject),
        &convert(clip),
        i_overlay::core::overlay::IntOverlayOptions::ogc(),
        Default::default(),
    ).overlay(i_overlay::core::overlay_rule::OverlayRule::Intersect, i_overlay::core::fill_rule::FillRule::EvenOdd);
    shapes.into_iter().map(|s| s.into_iter().map(|c| c.into_iter().map(|p| Point { x: p.x, y: p.y }).collect()).collect()).collect()
}

/// A ring without its repeated closing point.
pub open spec fn open_ring(ring: Seq<Point>) -> Seq<Point> {
    if ring.len() > 0 {
        ring.drop_last()
    } else {
        ring
    }
}

/// Copy a ring without its closing point.
fn copy_open(ring: &Vec<Point>) -> (out: Vec<Point>)
    ensures
        out@ == open_ring(ring@),
{
    let mut out: Vec<Point> = Vec::new();
    let n = ring.len();
    let mut i: usize = 0;
    while i + 1 < n
        invariant
            n == ring@.len(),
            i <= n,
            i == 0 || i < n,
            out@ == ring@.take(i as int),
        decreases n - i,
    {
        out.push(ring[i]);
        assert(out@ =~= ring@.take(i + 1));
        i = i + 1;
    }
    proof {
        if n > 0 {
            assert(ring@.take(i as int) =~= ring@.drop_last());
        } else {
            assert(out@ =~= ring@);
        }
    }
    out
}

/// Copy a ring backwards, without its closing point.
fn copy_open_reversed(ring: &Vec<Point>) -> (out: Vec<Point>)
    ensures
        out@ == open_ring(ring@).reverse(),
{
    let mut out: Vec<Point> = Vec::new();
    let n = ring.len();
    let ghost open = open_ring(ring@);
    let mut i: usize = if n > 0 {
        n - 1
    } else {
        0
    };
    while i > 0
        invariant
            n == ring@.len(),
            open == open_ring(ring@),
            i <= open.len(),
            out@.len() == open.len() - i,
            forall|j: int| 0 <= j < out@.len() ==> #[trigger] out@[j] == open[open.len() - 1 - j],
        decreases i,
    {
        i = i - 1;
        out.push(ring[i]);
    }
    assert(out@ =~= open.reverse());
    out
}

/// The exterior as an open contour, counter-clockwise.
pub open spec fn oriented_exterior(shape: Shape) -> Seq<Point> {
    if signed_area2(shape) < 0 {
        open_ring(shape.exterior).reverse()
    } else {
        open_ring(shape.exterior)
    }
}

/// The open contours of a shape whose exterior contour is `exterior`.
pub open spec fn contours_with(exterior: Seq<Point>, holes: Seq<Seq<Point>>) -> Seq<Seq<Point>> {
    seq![exterior] + holes.map_values(|h: Seq<Point>| open_ring(h))
}

/// The open contours of a shape, as drawn.
pub open spec fn contours_of(shape: Shape) -> Seq<Seq<Point>> {
    contours_with(open_ring(shape.exterior), shape.holes)
}

/// The open contours of the first `n` shapes, exteriors counter-clockwise.
pub open spec fn oriented_contours(shapes: Seq<Shape>, n: int) -> Seq<Seq<Point>>
    decreases n,
{
    if n <= 0 {
        Seq::empty()
    } else {
        oriented_contours(shapes, n - 1) + contours_with(oriented_exterior(shapes[n - 1]), shapes[n - 1].holes)
    }
}

/// The shape whose contours are `contours`: the outer boundary, then holes.
pub open spec fn region_shape(contours: Seq<Seq<Point>>) -> Shape {
    Shape {
        exterior: closed_ring(contours[0]),
        holes: contours.skip(1).map_values(|h: Seq<Point>| closed_ring(h)),
    }
}

/// The shapes of the first `n` regions; a region without contours is none.
pub open spec fn region_shapes(regions: Seq<Seq<Seq<Point>>>, n: int) -> Seq<Shape>
    decreases n,
{
    if n <= 0 {
        Seq::empty()
    } else if regions[n - 1].len() == 0 {
        region_shapes(regions, n - 1)
    } else {
        region_shapes(regions, n - 1).push(region_shape(regions[n - 1]))
    }
}

/// Add the open copies of `holes` to `out`.
fn push_open_holes(out: &mut Vec<Vec<Point>>, holes: &Vec<Vec<Point>>)
    ensures
        rings_of(final(out)@) == rings_of(old(out)@) + rings_of(holes@).map_values(|h: Seq<Point>| open_ring(h)),
{
    let mut i: usize = 0;
    while i < holes.len()
        invariant
            i <= holes@.len(),
            rings_of(out@) == rings_of(old(out)@) + rings_of(holes@).take(i as int).map_values(
                |h: Seq<Point>| open_ring(h),
            ),
        decreases holes@.len() - i,
    {
        let ghost prev = out@;
        let ring = copy_open(&holes[i]);
        out.push(ring);
        proof {
            assert(rings_of(out@) =~= rings_of(prev).push(ring@));
            assert(rings_of(holes@).take(i + 1).map_values(|h: Seq<Point>| open_ring(h)) =~= rings_of(holes@).take(
                i as int,
            ).map_values(|h: Seq<Point>| open_ring(h)).push(open_ring(holes@[i as int]@)));
            assert(rings_of(out@) =~= rings_of(old(out)@) + rings_of(holes@).take(i + 1).map_values(
                |h: Seq<Point>| open_ring(h),
            ));
        }
        i = i + 1;
    }
    assert(rings_of(holes@).take(i as int) =~= rings_of(holes@));
}

/// The open contours of in-range shapes are in range.
proof fn contours_stay_in_range(exterior: Seq<Point>, shape: Shape)
    requires
        shape.in_range(),
        exterior == open_ring(shape.exterior) || exterior == open_ring(shape.exterior).reverse(),
    ensures
        rings_in_range(contours_with(exterior, shape.holes)),
{
    let cs = contours_with(exterior, shape.holes);
    assert forall|i: int| 0 <= i < cs.len() implies ring_in_range(#[trigger] cs[i]) by {
        if i > 0 {
            assert(cs[i] == open_ring(shape.holes[i - 1]));
            assert(ring_in_range(shape.holes[i - 1]));
        }
    }
}

/// The polygons of the regions that a Boolean operation returned.  A region
/// without contours is skipped.
pub fn polygons_of_regions(regions: &Vec<Vec<Vec<Point>>>) -> (out: Vec<Polygon>)
    ensures
        shapes_of(out@) == region_shapes(ring_lists_of(regions@), regions@.len() as int),
{
    let mut out: Vec<Polygon> = Vec::new();
    let mut i: usize = 0;
    while i < regions.len()
        invariant
            i <= regions@.len(),
            shapes_of(out@) == region_shapes(ring_lists_of(regions@), i as int),
        decreases regions@.len() - i,
    {
        let n = regions[i].len();
        let ghost contours = rings_of(regions@[i as int]@);
        assert(ring_lists_of(regions@)[i as int] == contours);
        if n > 0 {
            let mut holes: Vec<Vec<Point>> = Vec::new();
            let mut k: usize = 1;
            while k < n
                invariant
                    i < regions@.len(),
                    n == regions@[i as int]@.len(),
                    contours == rings_of(regions@[i as int]@),
                    1 <= k <= n,
                    holes@.len() == k - 1,
                    forall|j: int| 0 <= j < holes@.len() ==> (#[trigger] holes@[j])@ == contours[j + 1],
                decreases n - k,
            {
                holes.push(crate::geom::copy_ring(&regions[i][k]));
                k = k + 1;
            }
            let ghost prev = out@;
            let poly = Polygon::new(crate::geom::copy_ring(&regions[i][0]), holes);
            proof {
                assert(poly@.exterior == closed_ring(contours[0]));
                assert(poly@.holes =~= region_shape(contours).holes);
                assert(poly@ =~= region_shape(contours));
            }
            out.push(poly);
            assert(shapes_of(out@) =~= shapes_of(prev).push(region_shape(contours)));
        }
        i = i + 1;
    }
    out
}

/// The shapes of the union of `shapes`.
pub open spec fn merged_shapes(shapes: Seq<Shape>) -> Seq<Shape> {
    if shapes.len() <= 1 {
        shapes
    } else {
        let regions = simplified(oriented_contours(shapes, shapes.len() as int));
        region_shapes(regions, regions.len() as int)
    }
}

/// The contour that goes round a rectangle counter-clockwise.
proof fn box_contour(s: Shape)
    requires
        is_box(s),
    ensures
        is_open_box(oriented_exterior(s)),
        contour_box(oriented_exterior(s)) == bounds(s.exterior),
        ring_area2(oriented_exterior(s).push(oriented_exterior(s)[0])) > 0,
        is_open_box(open_ring(s.exterior)),
        contour_box(open_ring(s.exterior)) == bounds(s.exterior),
{
    let r = s.exterior;
    let open = open_ring(r);
    assert(open.push(open[0]) =~= r);
    let back = open.reverse();
    let ring = back.push(back[0]);
    assert(ring[0] == r[3] && ring[1] == r[2] && ring[2] == r[1] && ring[3] == r[0] && ring[4] == r[3]);
    box_bounds(r);
    box_bounds(ring);
    reveal_with_fuel(edge_sum, 6);
    reveal_with_fuel(crate::geom::holes_area2, 2);
    let (a, b, c, d) = (r[0].x as int, r[0].y as int, r[2].x as int, r[2].y as int);
    let (ac, bd) = (c - a, d - b);
    assert(ac * bd != 0) by (nonlinear_arith)
        requires
            ac != 0,
            bd != 0,
    ;
    assert(ac * bd == c * d - c * b - a * d + a * b) by (nonlinear_arith)
        requires
            ac == c - a,
            bd == d - b,
    ;
    assert(a * b == b * a && c * d == d * c && c * b == b * c && a * d == d * a) by (nonlinear_arith);
    assert(edge_sum(ring, 4) == -edge_sum(r, 4));
    assert(edge_sum(r, 4) == 2 * (ac * bd) || edge_sum(r, 4) == -2 * (ac * bd));
}

/// A simple polygon with axis-parallel edges and without holes: run
/// counter-clockwise, its exterior winds round each cell once or not at all.
pub open spec fn is_block(s: Shape) -> bool {
    &&& s.holes.len() == 0
    &&& s.exterior.len() >= 5
    &&& s.exterior[0] == s.exterior.last()
    &&& is_rectilinear(oriented_exterior(s))
    &&& forall|x: int, y: int| 0 <= #[trigger] rounds(oriented_exterior(s), x, y) <= 1
}

/// All shapes are simple polygons with axis-parallel edges, without holes.
pub open spec fn are_blocks(shapes: Seq<Shape>) -> bool {
    forall|i: int| 0 <= i < shapes.len() ==> is_block(#[trigger] shapes[i])
}

/// Rectangles are simple polygons with axis-parallel edges.
proof fn box_is_block(s: Shape)
    requires
        is_box(s),
    ensures
        is_block(s),
{
    box_contour(s);
    assert forall|x: int, y: int| 0 <= #[trigger] rounds(oriented_exterior(s), x, y) <= 1 by {
        left_box_winds_once(oriented_exterior(s), x, y);
    }
    left_box_winds_once(oriented_exterior(s), 0, 0);
}

/// The contour of such a polygon winds round the cells that it covers.
proof fn block_covers(s: Shape, x: int, y: int)
    requires
        is_block(s),
    ensures
        rounds(oriented_exterior(s), x, y) == if covers(s, x, y) {
            1int
        } else {
            0int
        },
{
    let r = s.exterior;
    let c = oriented_exterior(s);
    let open = open_ring(r);
    once_round_is_cover(c, x, y);
    if signed_area2(s) < 0 {
        assert(c.push(c[0]) =~= run_back(r));
        back_covers_alike(r, x, y);
    } else {
        assert(c.push(c[0]) =~= r);
    }
    assert(passing_all(s.holes, x, y, s.holes.len() as int) == 0);
}

proof fn block_contours(blocks: Seq<Shape>, n: int)
    requires
        are_blocks(blocks),
        0 <= n <= blocks.len(),
    ensures
        oriented_contours(blocks, n).len() == n,
        forall|i: int| 0 <= i < n ==> #[trigger] oriented_contours(blocks, n)[i] == oriented_exterior(blocks[i]),
    decreases n,
{
    if n > 0 {
        block_contours(blocks, n - 1);
        assert(is_block(blocks[n - 1]));
        let last = contours_with(oriented_exterior(blocks[n - 1]), blocks[n - 1].holes);
        assert(last =~= seq![oriented_exterior(blocks[n - 1])]);
    }
}

/// The contours wind round a cell where a polygon covers it.
proof fn blocks_wind(blocks: Seq<Shape>, contours: Seq<Seq<Point>>, x: int, y: int, n: int)
    requires
        are_blocks(blocks),
        contours.len() == blocks.len(),
        forall|i: int| 0 <= i < blocks.len() ==> #[trigger] contours[i] == oriented_exterior(blocks[i]),
        0 <= n <= blocks.len(),
    ensures
        all_rounds(contours, x, y, n) >= 0,
        all_rounds(contours, x, y, n) != 0 <==> exists|i: int| 0 <= i < n && covers(#[trigger] blocks[i], x, y),
    decreases n,
{
    if n > 0 {
        blocks_wind(blocks, contours, x, y, n - 1);
        assert(is_block(blocks[n - 1]));
        assert(contours[n - 1] == oriented_exterior(blocks[n - 1]));
        block_covers(blocks[n - 1], x, y);
        if all_rounds(contours, x, y, n - 1) != 0 {
            let i = choose|i: int| 0 <= i < n - 1 && covers(#[trigger] blocks[i], x, y);
            assert(covers(blocks[i], x, y));
        }
    }
}

proof fn union_of_blocks(shapes: Seq<Shape>, blocks: Seq<Shape>)
    requires
        are_blocks(blocks),
        are_rectilinear(oriented_contours(blocks, blocks.len() as int)) ==> fill_wound(
            shapes,
            oriented_contours(blocks, blocks.len() as int),
        ),
    ensures
        is_union_of(shapes, blocks),
{
    let n = blocks.len() as int;
    let contours = oriented_contours(blocks, n);
    block_contours(blocks, n);
    assert forall|i: int| 0 <= i < contours.len() implies is_rectilinear(#[trigger] contours[i]) by {
        assert(is_block(blocks[i]));
    }
    assert forall|x: int, y: int| #[trigger]
        cover_count(shapes, x, y, shapes.len() as int) == if any_covers(blocks, x, y) {
            1int
        } else {
            0int
        } by {
        blocks_wind(blocks, contours, x, y, n);
        assert(all_rounds(contours, x, y, n) != 0 <==> any_covers(blocks, x, y));
    }
}

/// At most one polygon is its own union.
proof fn few_are_their_union(shapes: Seq<Shape>)
    requires
        shapes.len() <= 1,
    ensures
        is_union_of(shapes, shapes),
{
    assert forall|x: int, y: int| #[trigger]
        cover_count(shapes, x, y, shapes.len() as int) == if any_covers(shapes, x, y) {
            1int
        } else {
            0int
        } by {
        reveal_with_fuel(cover_count, 3);
        if shapes.len() == 1 && covers(shapes[0], x, y) {
            assert(any_covers(shapes, x, y));
        }
    }
}

/// The union of rectangles covers the cells that one of them has.
proof fn union_of_boxes(shapes: Seq<Shape>, rects: Seq<Shape>)
    requires
        are_boxes(rects),
        is_union_of(shapes, rects),
    ensures
        cover_exactly(shapes, rects),
{
    assert forall|x: int, y: int| #[trigger]
        cover_count(shapes, x, y, shapes.len() as int) == if any_has_cell(rects, x, y) {
            1int
        } else {
            0int
        } by {
        if any_has_cell(rects, x, y) {
            let i = choose|i: int| 0 <= i < rects.len() && has_cell(bounds((#[trigger] rects[i]).exterior), x, y);
            assert(is_box(rects[i]));
            box_covers(rects[i], x, y);
            assert(any_covers(rects, x, y));
        }
        if any_covers(rects, x, y) {
            let i = choose|i: int| 0 <= i < rects.len() && covers(#[trigger] rects[i], x, y);
            assert(is_box(rects[i]));
            box_covers(rects[i], x, y);
            assert(has_cell(bounds(rects[i].exterior), x, y));
        }
    }
}

/// The union does not depend on the order of the polygons, nor on the way that
/// any of them runs.
pub proof fn union_ignores_order(shapes: Seq<Shape>, parts: Seq<Shape>, others: Seq<Shape>)
    requires
        is_union_of(shapes, parts),
        forall|i: int| 0 <= i < parts.len() ==> has_alike(others, #[trigger] parts[i]),
        forall|j: int| 0 <= j < others.len() ==> has_alike(parts, #[trigger] others[j]),
    ensures
        is_union_of(shapes, others),
{
    assert forall|x: int, y: int| #[trigger]
        cover_count(shapes, x, y, shapes.len() as int) == if any_covers(others, x, y) {
            1int
        } else {
            0int
        } by {
        if any_covers(parts, x, y) {
            let i = choose|i: int| 0 <= i < parts.len() && covers(#[trigger] parts[i], x, y);
            assert(has_alike(others, parts[i]));
            let j = choose|j: int| 0 <= j < others.len() && runs_alike(parts[i], #[trigger] others[j]);
            alike_covers(parts[i], others[j], x, y);
            assert(covers(others[j], x, y));
        }
        if any_covers(others, x, y) {
            let j = choose|j: int| 0 <= j < others.len() && covers(#[trigger] others[j], x, y);
            assert(has_alike(parts, others[j]));
            let i = choose|i: int| 0 <= i < parts.len() && runs_alike(others[j], #[trigger] parts[i]);
            alike_covers(others[j], parts[i], x, y);
            assert(covers(parts[i], x, y));
        }
    }
}

/// The shapes are the same, or the same run the other way.
pub open spec fn runs_alike(s: Shape, t: Shape) -> bool {
    s == t || (s.exterior.len() >= 2 && s.exterior[0] == s.exterior.last() && t.exterior == run_back(s.exterior)
        && s.holes == t.holes)
}

/// One of the shapes is this one, or this one run the other way.
pub open spec fn has_alike(list: Seq<Shape>, s: Shape) -> bool {
    exists|j: int| 0 <= j < list.len() && runs_alike(s, #[trigger] list[j])
}

proof fn alike_covers(s: Shape, t: Shape, x: int, y: int)
    requires
        runs_alike(s, t),
    ensures
        covers(s, x, y) == covers(t, x, y),
{
    if s != t {
        back_covers_alike(s.exterior, x, y);
    }
}

/// Union all polygons into a non-overlapping set, so that shared area counts
/// once.  One polygon or none is returned as it is.  The union of simple polygons
/// with axis-parallel edges covers exactly the cells that one of them covers, each
/// once; the union of rectangles those that one of them has.
pub fn merge_polygons(polys: &[Polygon]) -> (out: Vec<Polygon>)
    requires
        shapes_in_range(shapes_of(polys@)),
    ensures
        shapes_of(out@) == merged_shapes(shapes_of(polys@)),
        polys@.len() <= 1 ==> shapes_of(out@) == shapes_of(polys@),
        are_blocks(shapes_of(polys@)) ==> is_union_of(shapes_of(out@), shapes_of(polys@)),
        are_boxes(shapes_of(polys@)) ==> cover_exactly(shapes_of(out@), shapes_of(polys@)),
{
    let n = polys.len();
    let ghost shapes = shapes_of(polys@);
    proof {
        if are_boxes(shapes) {
            assert forall|i: int| 0 <= i < shapes.len() implies is_block(#[trigger] shapes[i]) by {
                assert(is_box(shapes[i]));
                box_is_block(shapes[i]);
            }
        }
    }
    if n <= 1 {
        proof {
            few_are_their_union(shapes);
            if are_boxes(shapes) {
                union_of_boxes(shapes, shapes);
            }
        }
        return copy_polygons(polys);
    }
    let mut contours: Vec<Vec<Point>> = Vec::new();
    let mut i: usize = 0;
    while i < n
        invariant
            n == polys@.len(),
            i <= n,
            shapes == shapes_of(polys@),
            shapes_in_range(shapes),
            rings_of(contours@) == oriented_contours(shapes, i as int),
            rings_in_range(rings_of(contours@)),
        decreases n - i,
    {
        let ghost prev = contours@;
        assert(shapes[i as int] == polys@[i as int]@);
        let exterior = if polys[i].has_negative_area() {
            copy_open_reversed(&polys[i].exterior)
        } else {
            copy_open(&polys[i].exterior)
        };
        let ghost ext = exterior@;
        contours.push(exterior);
        let ghost mid = contours@;
        push_open_holes(&mut contours, &polys[i].holes);
        proof {
            let shape = shapes[i as int];
            assert(shape.in_range());
            contours_stay_in_range(ext, shape);
            assert(rings_of(mid) =~= rings_of(prev).push(ext));
            assert(rings_of(polys@[i as int].holes@) =~= shape.holes);
            assert(rings_of(contours@) =~= rings_of(prev) + contours_with(ext, shape.holes));
            assert forall|k: int| 0 <= k < rings_of(contours@).len() implies ring_in_range(
                #[trigger] rings_of(contours@)[k],
            ) by {
                if k < prev.len() {
                    assert(rings_of(contours@)[k] == rings_of(prev)[k]);
                } else {
                    assert(rings_of(contours@)[k] == contours_with(ext, shape.holes)[k - prev.len()]);
                }
            }
        }
        i = i + 1;
    }
    let regions = simplify(&contours);
    proof {
        let united = region_shapes(ring_lists_of(regions@), regions@.len() as int);
        if are_blocks(shapes) {
            union_of_blocks(united, shapes);
        }
        if are_boxes(shapes) {
            union_of_boxes(united, shapes);
        }
    }
    polygons_of_regions(&regions)
}

/// The shapes of the intersection of two shapes.
pub open spec fn intersection_shapes(a: Shape, b: Shape) -> Seq<Shape> {
    let regions = intersected(contours_of(a), contours_of(b));
    region_shapes(regions, regions.len() as int)
}

/// The open contours of a polygon.
fn contours(poly: &Polygon) -> (out: Vec<Vec<Point>>)
    requires
        poly@.in_range(),
    ensures
        rings_of(out@) == contours_of(poly@),
        rings_in_range(rings_of(out@)),
{
    let mut out: Vec<Vec<Point>> = Vec::new();
    let exterior = copy_open(&poly.exterior);
    let ghost ext = exterior@;
    out.push(exterior);
    assert(rings_of(out@) =~= seq![ext]);
    push_open_holes(&mut out, &poly.holes);
    proof {
        contours_stay_in_range(ext, poly@);
        assert(rings_of(poly.holes@) =~= poly@.holes);
    }
    out
}

/// The regions that two polygons share.
pub fn intersection(a: &Polygon, b: &Polygon) -> (out: Vec<Polygon>)
    requires
        a@.in_range(),
        b@.in_range(),
    ensures
        shapes_of(out@) == intersection_shapes(a@, b@),
        is_box(a@) && is_box(b@) ==> crosses(shapes_of(out@), bounds(a@.exterior), bounds(b@.exterior)),
{
    let (first, second) = (contours(a), contours(b));
    let regions = intersect(&first, &second);
    proof {
        if is_box(a@) && is_box(b@) {
            box_contour(a@);
            box_contour(b@);
            assert(contours_of(a@) =~= seq![open_ring(a@.exterior)]);
            assert(contours_of(b@) =~= seq![open_ring(b@.exterior)]);
            assert(rings_of(first@)[0] == first@[0]@ && rings_of(second@)[0] == second@[0]@);
        }
    }
    polygons_of_regions(&regions)
}

/// The open contours of the first `n` shapes, as drawn.
pub open spec fn all_contours(shapes: Seq<Shape>, n: int) -> Seq<Seq<Point>>
    decreases n,
{
    if n <= 0 {
        Seq::empty()
    } else {
        all_contours(shapes, n - 1) + contours_of(shapes[n - 1])
    }
}

/// The shapes that two sets of shapes share, each set under the even-odd rule.
pub open spec fn shared_shapes(a: Seq<Shape>, b: Seq<Shape>) -> Seq<Shape> {
    let regions = intersected(all_contours(a, a.len() as int), all_contours(b, b.len() as int));
    region_shapes(regions, regions.len() as int)
}

/// What is left of the disjoint shapes `a` without `b`: under the even-odd
/// rule, `a` together with what the two share.
pub open spec fn remaining_shapes(a: Seq<Shape>, b: Seq<Shape>) -> Seq<Shape> {
    shared_shapes(a + shared_shapes(a, b), a)
}

/// Add the open contours of polygons to `out`.
fn push_contours(out: &mut Vec<Vec<Point>>, polys: &[Polygon])
    requires
        shapes_in_range(shapes_of(polys@)),
        rings_in_range(rings_of(old(out)@)),
    ensures
        rings_of(final(out)@) == rings_of(old(out)@) + all_contours(shapes_of(polys@), polys@.len() as int),
        rings_in_range(rings_of(final(out)@)),
{
    let ghost shapes = shapes_of(polys@);
    let ghost start = rings_of(out@);
    let mut i: usize = 0;
    assert(start + all_contours(shapes, 0) =~= start);
    while i < polys.len()
        invariant
            i <= polys@.len(),
            shapes == shapes_of(polys@),
            shapes_in_range(shapes),
            rings_of(out@) == start + all_contours(shapes, i as int),
            rings_in_range(rings_of(out@)),
        decreases polys@.len() - i,
    {
        assert(shapes[i as int] == polys@[i as int]@);
        assert(shapes[i as int].in_range());
        let ghost before = rings_of(out@);
        let mut own = contours(&polys[i]);
        let ghost added = own@;
        out.append(&mut own);
        proof {
            assert(rings_of(out@) =~= before + rings_of(added));
            assert(start + all_contours(shapes, i + 1) =~= before + contours_of(shapes[i as int]));
            assert forall|k: int| 0 <= k < rings_of(out@).len() implies ring_in_range(#[trigger] rings_of(out@)[k]) by {
                if k < before.len() {
                    assert(rings_of(out@)[k] == before[k]);
                } else {
                    assert(rings_of(out@)[k] == rings_of(added)[k - before.len()]);
                }
            }
        }
        i = i + 1;
    }
}

/// The regions that two sets of disjoint polygons share.
pub fn share(a: &[Polygon], b: &[Polygon]) -> (out: Vec<Polygon>)
    requires
        shapes_in_range(shapes_of(a@)),
        shapes_in_range(shapes_of(b@)),
    ensures
        shapes_of(out@) == shared_shapes(shapes_of(a@), shapes_of(b@)),
{
    let mut left: Vec<Vec<Point>> = Vec::new();
    let mut right: Vec<Vec<Point>> = Vec::new();
    proof {
        assert(rings_of(left@) =~= Seq::empty());
        assert(rings_of(right@) =~= Seq::empty());
    }
    push_contours(&mut left, a);
    push_contours(&mut right, b);
    proof {
        assert(rings_of(left@) =~= all_contours(shapes_of(a@), a@.len() as int));
        assert(rings_of(right@) =~= all_contours(shapes_of(b@), b@.len() as int));
    }
    let regions = intersect(&left, &right);
    polygons_of_regions(&regions)
}

/// What is left of the disjoint polygons `a` without `b`, also disjoint.
/// `None` if what they share leaves the coordinate range.
pub fn subtract(a: &[Polygon], b: &[Polygon]) -> (out: Option<Vec<Polygon>>)
    requires
        shapes_in_range(shapes_of(a@)),
        shapes_in_range(shapes_of(b@)),
    ensures
        out is Some <==> shapes_in_range(shared_shapes(shapes_of(a@), shapes_of(b@))),
        out matches Some(v) ==> shapes_of(v@) == remaining_shapes(shapes_of(a@), shapes_of(b@)),
{
    let mut common = share(a, b);
    if !crate::area::check_polygons(&common) {
        return None;
    }
    let ghost (x, y) = (shapes_of(a@), shapes_of(common@));
    let mut both = copy_polygons(a);
    both.append(&mut common);
    proof {
        assert(shapes_of(both@) =~= x + y);
        assert forall|i: int| 0 <= i < shapes_of(both@).len() implies (#[trigger] shapes_of(both@)[i]).in_range() by {
            if i < x.len() {
                assert(x[i].in_range());
            } else {
                assert(y[i - x.len()].in_range());
            }
        }
    }
    Some(share(&both, a))
}

} // verus!
