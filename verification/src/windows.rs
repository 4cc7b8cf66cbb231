//! Areas of rectangles, window by window.

use crate::area::clip_facts;
use crate::area::other_area2;
use crate::area::rect_boxes;
use crate::area::row_area2;
use crate::area::rows_area2;
use crate::area::window_area2;
use crate::area::window_count;
use crate::area::window_parts;
use crate::area::window_rect;
use crate::area::window_shapes;
use crate::contain::is_rect_shape;
use crate::coverage::cell_covered;
use crate::coverage::covered_cells;
use crate::coverage::strip;
use crate::coverage::strip_len;
use crate::geom::area2;
use crate::geom::bounds;
use crate::geom::bounds_are_tight;
use crate::geom::box_bounds;
use crate::geom::edge_sum;
use crate::geom::holes_area2;
use crate::geom::is_box;
use crate::geom::min_of;
use crate::geom::ring_in_range;
use crate::geom::shapes_in_range;
use crate::geom::Rect;
use crate::geom::Shape;
use crate::ground::any_has_cell;
use crate::ground::common;
use crate::ground::has_area;
use crate::ground::has_cell;
use crate::overlay::crosses;
use vstd::arithmetic::div_mod::lemma_fundamental_div_mod;
use vstd::prelude::*;
use vstd::set_lib::lemma_int_range;
use vstd::set_lib::lemma_len_subset;
use vstd::set_lib::lemma_set_disjoint_lens;
use vstd::set_lib::set_int_range;

verus! {

/// Every listed shape is a rectangle with an area.
pub open spec fn listed_boxes(shapes: Seq<Shape>, indices: Seq<usize>) -> bool {
    forall|i: int| 0 <= i < indices.len() ==> is_box(shapes[#[trigger] indices[i] as int])
}

/// One of the first `n` listed rectangles has the cell.
pub open spec fn listed_has_cell(shapes: Seq<Shape>, indices: Seq<usize>, n: int, x: int, y: int) -> bool {
    exists|i: int| 0 <= i < n && has_cell(bounds(shapes[#[trigger] indices[i] as int].exterior), x, y)
}

/// The cells of `r` that one of the listed rectangles has.
pub open spec fn ground_in(shapes: Seq<Shape>, indices: Seq<usize>, r: Rect) -> Set<(int, int)> {
    Set::new(
        |c: (int, int)| has_cell(r, c.0, c.1) && listed_has_cell(shapes, indices, indices.len() as int, c.0, c.1),
    )
}

/// Twice the area of a rectangle is that of its ring.
pub proof fn box_area(s: Shape)
    requires
        is_box(s),
    ensures
        area2(s) == 2 * bounds(s.exterior).spec_area(),
        bounds(s.exterior).spec_area() > 0,
        has_area(bounds(s.exterior)),
        is_rect_shape(s),
{
    let r = s.exterior;
    box_bounds(r);
    reveal_with_fuel(edge_sum, 6);
    reveal_with_fuel(holes_area2, 2);
    let (a, b, c, d) = (r[0].x as int, r[0].y as int, r[2].x as int, r[2].y as int);
    let (p, q) = (c - a, d - b);
    assert(p * q == c * d - c * b - a * d + a * b) by (nonlinear_arith)
        requires
            p == c - a,
            q == d - b,
    ;
    assert(a * b == b * a && c * d == d * c && c * b == b * c && a * d == d * a) by (nonlinear_arith);
    assert(edge_sum(r, 4) == 2 * (p * q) || edge_sum(r, 4) == -2 * (p * q));
    let x = bounds(r);
    let (w, h) = (x.x1 - x.x0, x.y1 - x.y0);
    assert(w * h > 0) by (nonlinear_arith)
        requires
            w > 0,
            h > 0,
    ;
    assert(p * q == w * h || p * q == -(w * h)) by (nonlinear_arith)
        requires
            p == w || p == -w,
            q == h || q == -h,
    ;
}

/// The cells of a rectangle.
pub proof fn rect_cells(r: Rect)
    requires
        r.ordered(),
    ensures
        strip(set_int_range(r.x0 as int, r.x1 as int), r.y0 as int, r.y1 as int).finite(),
        strip(set_int_range(r.x0 as int, r.x1 as int), r.y0 as int, r.y1 as int).len() == r.spec_area(),
{
    lemma_int_range(r.x0 as int, r.x1 as int);
    strip_len(set_int_range(r.x0 as int, r.x1 as int), r.y0 as int, r.y1 as int);
    let (w, h) = (r.x1 - r.x0, r.y1 - r.y0);
    assert(h * w == w * h) by (nonlinear_arith);
}

/// The ground in a rectangle is no more than the rectangle.
pub proof fn ground_is_bounded(shapes: Seq<Shape>, indices: Seq<usize>, r: Rect)
    requires
        r.ordered(),
    ensures
        ground_in(shapes, indices, r).finite(),
        ground_in(shapes, indices, r).len() <= r.spec_area(),
{
    rect_cells(r);
    let all = strip(set_int_range(r.x0 as int, r.x1 as int), r.y0 as int, r.y1 as int);
    assert(ground_in(shapes, indices, r).subset_of(all));
    lemma_len_subset(ground_in(shapes, indices, r), all);
}

/// What the first `n` rectangles leave in a window.
proof fn window_holds(shapes: Seq<Shape>, indices: Seq<usize>, win: Rect, n: int)
    requires
        listed_boxes(shapes, indices),
        clip_facts(shapes, indices, win, indices.len() as int),
        has_area(win),
        win.in_range(),
        0 <= n <= indices.len(),
    ensures
        ({
            let parts = window_shapes(shapes, indices, win, n);
            &&& forall|k: int|
                0 <= k < parts.len() ==> is_box(#[trigger] parts[k]) && win.spec_encloses(bounds(parts[k].exterior))
            &&& forall|x: int, y: int| #[trigger]
                any_has_cell(parts, x, y) <==> has_cell(win, x, y) && listed_has_cell(shapes, indices, n, x, y)
        }),
    decreases n,
{
    let parts = window_shapes(shapes, indices, win, n);
    if n > 0 {
        window_holds(shapes, indices, win, n - 1);
        let before = window_shapes(shapes, indices, win, n - 1);
        let s = shapes[indices[n - 1] as int];
        assert(is_box(s));
        box_area(s);
        let last = window_parts(s, win);
        let b = bounds(s.exterior);
        assert(crosses(last, b, win));
        assert forall|k: int| 0 <= k < parts.len() implies is_box(#[trigger] parts[k]) && win.spec_encloses(
            bounds(parts[k].exterior),
        ) by {
            if k < before.len() {
                assert(parts[k] == before[k]);
            } else {
                assert(parts[k] == last[k - before.len()]);
            }
        }
        assert forall|x: int, y: int| #[trigger]
            any_has_cell(parts, x, y) <==> has_cell(win, x, y) && listed_has_cell(shapes, indices, n, x, y) by {
            assert(has_cell(common(b, win), x, y) == (has_cell(b, x, y) && has_cell(win, x, y)));
            if any_has_cell(parts, x, y) {
                let k = choose|k: int| 0 <= k < parts.len() && has_cell(bounds((#[trigger] parts[k]).exterior), x, y);
                if k < before.len() {
                    assert(parts[k] == before[k]);
                    assert(any_has_cell(before, x, y));
                    let i = choose|i: int|
                        0 <= i < n - 1 && has_cell(bounds(shapes[#[trigger] indices[i] as int].exterior), x, y);
                    assert(has_cell(bounds(shapes[indices[i] as int].exterior), x, y));
                } else {
                    assert(parts[k] == last[k - before.len()]);
                    assert(has_cell(bounds(shapes[indices[n - 1] as int].exterior), x, y));
                }
            }
            if has_cell(win, x, y) && listed_has_cell(shapes, indices, n, x, y) {
                let i = choose|i: int|
                    0 <= i < n && has_cell(bounds(shapes[#[trigger] indices[i] as int].exterior), x, y);
                if i < n - 1 {
                    assert(has_cell(bounds(shapes[indices[i] as int].exterior), x, y));
                    assert(listed_has_cell(shapes, indices, n - 1, x, y));
                    assert(any_has_cell(before, x, y));
                    let k = choose|k: int|
                        0 <= k < before.len() && has_cell(bounds((#[trigger] before[k]).exterior), x, y);
                    assert(parts[k] == before[k]);
                } else {
                    assert(last.len() == 1);
                    assert(parts[before.len() as int] == last[0]);
                }
            }
        }
    }
}

/// Rectangles are counted as such.
proof fn boxes_of_parts(parts: Seq<Shape>, n: int)
    requires
        forall|k: int| 0 <= k < parts.len() ==> is_box(#[trigger] parts[k]),
        0 <= n <= parts.len(),
    ensures
        other_area2(parts, n) == 0,
        rect_boxes(parts, n).len() == n,
        forall|k: int|
            0 <= k < n ==> #[trigger] rect_boxes(parts, n)[k] == ({
                let b = bounds(parts[k].exterior);
                (b.x0, b.y0, b.x1, b.y1)
            }),
    decreases n,
{
    if n > 0 {
        boxes_of_parts(parts, n - 1);
        assert(is_box(parts[n - 1]));
        box_area(parts[n - 1]);
    }
}

/// The merged area of rectangles in a window is that of the ground in it.
pub proof fn window_is_ground(shapes: Seq<Shape>, indices: Seq<usize>, win: Rect)
    requires
        listed_boxes(shapes, indices),
        clip_facts(shapes, indices, win, indices.len() as int),
        has_area(win),
        win.in_range(),
    ensures
        window_area2(shapes, indices, win) == 2 * ground_in(shapes, indices, win).len(),
        shapes_in_range(window_shapes(shapes, indices, win, indices.len() as int)),
{
    let n = indices.len() as int;
    let parts = window_shapes(shapes, indices, win, n);
    let ground = ground_in(shapes, indices, win);
    window_holds(shapes, indices, win, n);
    assert forall|k: int| 0 <= k < parts.len() implies (#[trigger] parts[k]).in_range() by {
        assert(is_box(parts[k]));
        let r = parts[k].exterior;
        bounds_are_tight(r, 5);
        assert(ring_in_range(r)) by {
            assert forall|i: int| 0 <= i < r.len() implies (#[trigger] r[i]).in_range() by {
                assert(bounds(r).x0 <= r[i].x <= bounds(r).x1);
            }
        }
    }
    if parts.len() == 1 {
        assert(is_box(parts[0]));
        box_area(parts[0]);
        let b = bounds(parts[0].exterior);
        rect_cells(b);
        let all = strip(set_int_range(b.x0 as int, b.x1 as int), b.y0 as int, b.y1 as int);
        assert forall|c: (int, int)| ground.contains(c) <==> all.contains(c) by {
            assert(any_has_cell(parts, c.0, c.1) <==> ground.contains(c));
            if all.contains(c) {
                assert(has_cell(bounds(parts[0].exterior), c.0, c.1));
            }
        }
        assert(ground =~= all);
    } else {
        boxes_of_parts(parts, parts.len() as int);
        let rects = rect_boxes(parts, parts.len() as int);
        assert forall|c: (int, int)| ground.contains(c) <==> covered_cells(rects).contains(c) by {
            assert(any_has_cell(parts, c.0, c.1) <==> ground.contains(c));
            if any_has_cell(parts, c.0, c.1) {
                let k = choose|k: int|
                    0 <= k < parts.len() && has_cell(bounds((#[trigger] parts[k]).exterior), c.0, c.1);
                assert(rects[k].0 <= c.0 < rects[k].2 && rects[k].1 <= c.1 < rects[k].3);
            }
            if cell_covered(rects, c.0, c.1) {
                let k = choose|k: int|
                    0 <= k < rects.len() && (#[trigger] rects[k]).0 <= c.0 < rects[k].2 && rects[k].1 <= c.1 < rects[k].3;
                assert(has_cell(bounds(parts[k].exterior), c.0, c.1));
            }
        }
        assert(ground =~= covered_cells(rects));
    }
}

/// Ground adds up over two rectangles side by side or one above the other.
proof fn ground_adds(shapes: Seq<Shape>, indices: Seq<usize>, a: Rect, b: Rect, c: Rect)
    requires
        a.ordered(),
        b.ordered(),
        (a.y0 == b.y0 == c.y0 && a.y1 == b.y1 == c.y1 && c.x0 == a.x0 && a.x1 == b.x0 && b.x1 == c.x1) || (a.x0 == b.x0
            == c.x0 && a.x1 == b.x1 == c.x1 && c.y0 == a.y0 && a.y1 == b.y0 && b.y1 == c.y1),
    ensures
        ground_in(shapes, indices, c).len() == ground_in(shapes, indices, a).len() + ground_in(shapes, indices, b).len(),
{
    let (p, q, r) = (ground_in(shapes, indices, a), ground_in(shapes, indices, b), ground_in(shapes, indices, c));
    ground_is_bounded(shapes, indices, a);
    ground_is_bounded(shapes, indices, b);
    assert(r =~= p.union(q));
    lemma_set_disjoint_lens(p, q);
}

/// The first `n` windows of row `iy`, as one rectangle.
pub open spec fn row_rect(tile: Rect, window: int, iy: int, n: int) -> Rect {
    Rect {
        x0: tile.x0,
        y0: (tile.y0 + iy * window) as i64,
        x1: min_of(tile.x0 + n * window, tile.x1 as int) as i64,
        y1: min_of(tile.y0 + iy * window + window, tile.y1 as int) as i64,
    }
}

/// The first `n` rows of windows, as one rectangle.
pub open spec fn rows_rect(tile: Rect, window: int, n: int) -> Rect {
    Rect { x0: tile.x0, y0: tile.y0, x1: tile.x1, y1: min_of(tile.y0 + n * window, tile.y1 as int) as i64 }
}

/// In the windows of the tile up to number `n` of row `iy`, the merged area is
/// that of the ground.
pub open spec fn windows_are_ground(
    shapes: Seq<Shape>,
    indices: Seq<usize>,
    tile: Rect,
    window: int,
    iy: int,
    n: int,
) -> bool {
    forall|jx: int, jy: int|
        0 <= jx < window_count(tile.width(), window) && 0 <= jy <= iy && (jy < iy || jx < n) ==> window_area2(
            shapes,
            indices,
            #[trigger] window_rect(tile, window, jx, jy),
        ) == 2 * ground_in(shapes, indices, window_rect(tile, window, jx, jy)).len()
}

/// The last window of a side starts inside it, and ends with it.
pub proof fn last_window(length: int, window: int)
    requires
        length > 0,
        window > 0,
    ensures
        window_count(length, window) > 0,
        (window_count(length, window) - 1) * window < length <= window_count(length, window) * window,
{
    let n = window_count(length, window);
    lemma_fundamental_div_mod(length + window - 1, window);
    assert(n * window == window * n && (n - 1) * window == n * window - window) by (nonlinear_arith);
    assert(n > 0) by (nonlinear_arith)
        requires
            length <= n * window,
            length > 0,
            window > 0,
    ;
}

proof fn row_is_ground(shapes: Seq<Shape>, indices: Seq<usize>, tile: Rect, window: int, iy: int, n: int)
    requires
        tile.in_range(),
        tile.ordered(),
        has_area(tile),
        window > 0,
        0 <= iy < window_count(tile.height(), window),
        0 <= n <= window_count(tile.width(), window),
        windows_are_ground(shapes, indices, tile, window, iy, n),
    ensures
        row_area2(shapes, indices, tile, window, iy, n) == 2 * ground_in(
            shapes,
            indices,
            row_rect(tile, window, iy, n),
        ).len(),
        row_rect(tile, window, iy, n).ordered(),
        tile.spec_encloses(row_rect(tile, window, iy, n)),
    decreases n,
{
    last_window(tile.width(), window);
    last_window(tile.height(), window);
    let (cx, cy) = (window_count(tile.width(), window), window_count(tile.height(), window));
    assert(0 <= iy * window <= (cy - 1) * window) by (nonlinear_arith)
        requires
            0 <= iy <= cy - 1,
            window > 0,
    ;
    let r = row_rect(tile, window, iy, n);
    if n == 0 {
        assert(ground_in(shapes, indices, r) =~= Set::empty());
    } else {
        row_is_ground(shapes, indices, tile, window, iy, n - 1);
        assert(0 <= (n - 1) * window <= (cx - 1) * window) by (nonlinear_arith)
            requires
                0 <= n - 1 <= cx - 1,
                window > 0,
        ;
        assert(n * window == (n - 1) * window + window) by (nonlinear_arith);
        let w = window_rect(tile, window, n - 1, iy);
        ground_adds(shapes, indices, row_rect(tile, window, iy, n - 1), w, r);
        assert(window_area2(shapes, indices, w) == 2 * ground_in(shapes, indices, w).len());
    }
}

proof fn rows_are_ground(shapes: Seq<Shape>, indices: Seq<usize>, tile: Rect, window: int, n: int)
    requires
        tile.in_range(),
        tile.ordered(),
        has_area(tile),
        window > 0,
        0 <= n <= window_count(tile.height(), window),
        windows_are_ground(shapes, indices, tile, window, n, 0),
    ensures
        rows_area2(shapes, indices, tile, window, n) == 2 * ground_in(shapes, indices, rows_rect(tile, window, n)).len(),
        rows_rect(tile, window, n).ordered(),
        tile.spec_encloses(rows_rect(tile, window, n)),
    decreases n,
{
    last_window(tile.width(), window);
    last_window(tile.height(), window);
    let (cx, cy) = (window_count(tile.width(), window), window_count(tile.height(), window));
    let r = rows_rect(tile, window, n);
    if n == 0 {
        assert(ground_in(shapes, indices, r) =~= Set::empty());
    } else {
        assert forall|jx: int, jy: int|
            0 <= jx < cx && 0 <= jy <= n - 1 && (jy < n - 1 || jx < cx) implies window_area2(
            shapes,
            indices,
            #[trigger] window_rect(tile, window, jx, jy),
        ) == 2 * ground_in(shapes, indices, window_rect(tile, window, jx, jy)).len() by {}
        rows_are_ground(shapes, indices, tile, window, n - 1);
        row_is_ground(shapes, indices, tile, window, n - 1, cx);
        assert(0 <= (n - 1) * window <= (cy - 1) * window) by (nonlinear_arith)
            requires
                0 <= n - 1 <= cy - 1,
                window > 0,
        ;
        assert(n * window == (n - 1) * window + window) by (nonlinear_arith);
        ground_adds(shapes, indices, rows_rect(tile, window, n - 1), row_rect(tile, window, n - 1, cx), r);
    }
}

proof fn area_fits(r: Rect)
    requires
        r.in_range(),
        r.ordered(),
    ensures
        r.spec_area() <= 0x1_0000_0000_0000_0000,
{
    let (w, h) = (r.x1 - r.x0, r.y1 - r.y0);
    assert(w * h <= 0x1_0000_0000_0000_0000) by (nonlinear_arith)
        requires
            0 <= w <= 0x1_0000_0000,
            0 <= h <= 0x1_0000_0000,
    ;
}

/// The merged area up to a window of a tile is that of the ground, and fits.
pub proof fn merged_so_far(shapes: Seq<Shape>, indices: Seq<usize>, tile: Rect, window: int, iy: int, n: int)
    requires
        tile.in_range(),
        tile.ordered(),
        has_area(tile),
        window > 0,
        0 <= iy < window_count(tile.height(), window),
        0 <= n <= window_count(tile.width(), window),
        windows_are_ground(shapes, indices, tile, window, iy, n),
    ensures
        rows_area2(shapes, indices, tile, window, iy) + row_area2(shapes, indices, tile, window, iy, n)
            <= 0x4_0000_0000_0000_0000,
{
    assert(windows_are_ground(shapes, indices, tile, window, iy, 0));
    rows_are_ground(shapes, indices, tile, window, iy);
    row_is_ground(shapes, indices, tile, window, iy, n);
    let (a, b) = (rows_rect(tile, window, iy), row_rect(tile, window, iy, n));
    ground_is_bounded(shapes, indices, a);
    ground_is_bounded(shapes, indices, b);
    area_fits(a);
    area_fits(b);
}

/// The merged area of rectangles in a tile is that of the ground, whatever the
/// size of the windows.
pub proof fn merged_is_ground(shapes: Seq<Shape>, indices: Seq<usize>, tile: Rect, window: int)
    requires
        tile.in_range(),
        tile.ordered(),
        has_area(tile),
        window > 0,
        windows_are_ground(shapes, indices, tile, window, window_count(tile.height(), window), 0),
    ensures
        rows_area2(shapes, indices, tile, window, window_count(tile.height(), window)) == 2 * ground_in(
            shapes,
            indices,
            tile,
        ).len(),
{
    let n = window_count(tile.height(), window);
    last_window(tile.height(), window);
    rows_are_ground(shapes, indices, tile, window, n);
    assert(rows_rect(tile, window, n) == tile);
}

} // verus!
