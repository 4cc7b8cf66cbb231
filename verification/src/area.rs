//! Areas covered by polygons.  All areas are doubled, in square layout units.

use crate::contain::is_rect;
use crate::contain::is_rect_shape;
use crate::coverage::covered_cells;
use crate::coverage::rect_union_area;
use crate::coverage::rects_in_range;
use crate::geom::area2;
use crate::geom::bounds;
use crate::geom::bounds_in_range;
use crate::geom::box_bounds;
use crate::geom::is_box;
use crate::geom::max_of;
use crate::geom::min_of;
use crate::geom::rect_is_box;
use crate::geom::ring_in_range;
use crate::geom::shapes_in_range;
use crate::geom::shapes_of;
use crate::geom::Polygon;
use crate::geom::Rect;
use crate::geom::Shape;
use crate::ground::has_area;
use crate::overlay::crosses;
use crate::overlay::intersection;
use crate::overlay::intersection_shapes;
use crate::windows::ground_in;
use crate::windows::listed_boxes;
use crate::windows::merged_is_ground;
use crate::windows::merged_so_far;
use crate::windows::window_is_ground;
use crate::windows::windows_are_ground;
use vstd::prelude::*;

verus! {

/// The bounding boxes of the rectangles among the first `n` shapes.
pub open spec fn rect_boxes(shapes: Seq<Shape>, n: int) -> Seq<(i64, i64, i64, i64)>
    decreases n,
{
    if n <= 0 {
        Seq::empty()
    } else if is_rect_shape(shapes[n - 1]) {
        let b = bounds(shapes[n - 1].exterior);
        rect_boxes(shapes, n - 1).push((b.x0, b.y0, b.x1, b.y1))
    } else {
        rect_boxes(shapes, n - 1)
    }
}

/// The areas of the first `n` shapes that are not rectangles, summed.
pub open spec fn other_area2(shapes: Seq<Shape>, n: int) -> int
    decreases n,
{
    if n <= 0 {
        0
    } else if shapes[n - 1].exterior.len() == 0 || is_rect_shape(shapes[n - 1]) {
        other_area2(shapes, n - 1)
    } else {
        other_area2(shapes, n - 1) + area2(shapes[n - 1])
    }
}

/// The area of a list of shapes: that of a single shape; else the union of the
/// rectangles plus the other shapes one by one.
pub open spec fn union_area2(shapes: Seq<Shape>) -> int {
    if shapes.len() == 1 {
        area2(shapes[0])
    } else {
        other_area2(shapes, shapes.len() as int) + 2 * covered_cells(rect_boxes(shapes, shapes.len() as int)).len()
    }
}

proof fn other_area2_grows(shapes: Seq<Shape>, m: int, n: int)
    requires
        0 <= m <= n,
    ensures
        0 <= other_area2(shapes, m) <= other_area2(shapes, n),
    decreases n,
{
    if m < n {
        other_area2_grows(shapes, m, n - 1);
    } else if n > 0 {
        other_area2_grows(shapes, m - 1, n - 1);
    }
}

/// Area of the union of the polygons.  Rectangles are united exactly; other
/// polygons are taken not to overlap, and their areas are summed.  `None` if
/// the value does not fit.
pub fn union_area(polys: &[Polygon]) -> (area: Option<i128>)
    requires
        shapes_in_range(shapes_of(polys@)),
    ensures
        area is Some <==> union_area2(shapes_of(polys@)) <= i128::MAX,
        area matches Some(a) ==> a == union_area2(shapes_of(polys@)) && a >= 0,
{
    let ghost shapes = shapes_of(polys@);
    let n = polys.len();
    if n == 1 {
        assert(shapes[0] == polys@[0]@);
        assert(shapes[0].in_range());
        return polys[0].unsigned_area2();
    }
    let mut total: i128 = 0;
    let mut rects: Vec<(i64, i64, i64, i64)> = Vec::new();
    let mut i: usize = 0;
    while i < n
        invariant
            n == polys@.len(),
            n != 1,
            i <= n,
            shapes == shapes_of(polys@),
            shapes_in_range(shapes),
            total == other_area2(shapes, i as int),
            total >= 0,
            rects@ == rect_boxes(shapes, i as int),
            rects_in_range(rects@),
        decreases n - i,
    {
        assert(shapes[i as int] == polys@[i as int]@);
        assert(shapes[i as int].in_range());
        if let Some(b) = polys[i].bounding_rect() {
            proof {
                bounds_in_range(shapes[i as int].exterior);
            }
            if is_rect(&polys[i]) {
                rects.push((b.x0, b.y0, b.x1, b.y1));
            } else {
                let mut fits: bool = false;
                if let Some(a) = polys[i].unsigned_area2() {
                    if a <= i128::MAX - total {
                        total = total + a;
                        fits = true;
                    }
                }
                if !fits {
                    proof {
                        other_area2_grows(shapes, i + 1, n as int);
                    }
                    return None;
                }
            }
        }
        i = i + 1;
    }
    let united = rect_union_area(rects.as_slice());
    if 2 * united > i128::MAX - total {
        return None;
    }
    Some(total + 2 * united)
}

/// The areas of the first `n` shapes, summed.
pub open spec fn sum_area2(shapes: Seq<Shape>, n: int) -> int
    decreases n,
{
    if n <= 0 {
        0
    } else {
        sum_area2(shapes, n - 1) + area2(shapes[n - 1])
    }
}

proof fn sum_area2_grows(shapes: Seq<Shape>, m: int, n: int)
    requires
        0 <= m <= n,
    ensures
        0 <= sum_area2(shapes, m) <= sum_area2(shapes, n),
    decreases n,
{
    if m < n {
        sum_area2_grows(shapes, m, n - 1);
    } else if n > 0 {
        sum_area2_grows(shapes, m - 1, n - 1);
    }
}

/// Is every polygon in range?
pub fn check_polygons(polys: &[Polygon]) -> (b: bool)
    ensures
        b == shapes_in_range(shapes_of(polys@)),
{
    let mut i: usize = 0;
    while i < polys.len()
        invariant
            i <= polys@.len(),
            forall|j: int| 0 <= j < i ==> (#[trigger] shapes_of(polys@)[j]).in_range(),
        decreases polys@.len() - i,
    {
        if !polys[i].check() {
            assert(!shapes_of(polys@)[i as int].in_range());
            return false;
        }
        i = i + 1;
    }
    true
}

/// The areas of in-range polygons, summed.  `None` if the value does not fit.
pub fn total_area(polys: &[Polygon]) -> (area: Option<i128>)
    requires
        shapes_in_range(shapes_of(polys@)),
    ensures
        area is Some <==> sum_area2(shapes_of(polys@), polys@.len() as int) <= i128::MAX,
        area matches Some(a) ==> a == sum_area2(shapes_of(polys@), polys@.len() as int) && a >= 0,
{
    let ghost shapes = shapes_of(polys@);
    let n = polys.len();
    let mut total: i128 = 0;
    let mut i: usize = 0;
    while i < n
        invariant
            n == polys@.len(),
            i <= n,
            shapes == shapes_of(polys@),
            shapes_in_range(shapes),
            total == sum_area2(shapes, i as int),
            total >= 0,
        decreases n - i,
    {
        assert(shapes[i as int] == polys@[i as int]@);
        assert(shapes[i as int].in_range());
        let mut fits: bool = false;
        if let Some(a) = polys[i].unsigned_area2() {
            if a <= i128::MAX - total {
                total = total + a;
                fits = true;
            }
        }
        if !fits {
            proof {
                sum_area2_grows(shapes, i + 1, n as int);
            }
            return None;
        }
        i = i + 1;
    }
    Some(total)
}

/// The part of shape `k` inside `tile`.
pub open spec fn clipped_part2(shapes: Seq<Shape>, k: int, tile: Shape) -> int {
    let parts = intersection_shapes(shapes[k], tile);
    sum_area2(parts, parts.len() as int)
}

/// The areas inside `tile` of the shapes at the first `n` indices, summed.
pub open spec fn clipped_area2(shapes: Seq<Shape>, indices: Seq<usize>, tile: Shape, n: int) -> int
    decreases n,
{
    if n <= 0 {
        0
    } else {
        clipped_area2(shapes, indices, tile, n - 1) + clipped_part2(shapes, indices[n - 1] as int, tile)
    }
}

/// Clipping the listed shapes leaves every coordinate in range.
pub open spec fn clips_in_range(shapes: Seq<Shape>, indices: Seq<usize>, tile: Shape) -> bool {
    forall|i: int|
        0 <= i < indices.len() ==> shapes_in_range(intersection_shapes(shapes[#[trigger] indices[i] as int], tile))
}

proof fn clipped_area2_grows(shapes: Seq<Shape>, indices: Seq<usize>, tile: Shape, m: int, n: int)
    requires
        0 <= m <= n,
    ensures
        0 <= clipped_area2(shapes, indices, tile, m) <= clipped_area2(shapes, indices, tile, n),
    decreases n,
{
    if n > 0 {
        let parts = intersection_shapes(shapes[indices[n - 1] as int], tile);
        sum_area2_grows(parts, 0, parts.len() as int);
        if m < n {
            clipped_area2_grows(shapes, indices, tile, m, n - 1);
        } else {
            clipped_area2_grows(shapes, indices, tile, m - 1, n - 1);
        }
    }
}

/// Every index is one of the list.
pub open spec fn indices_valid(indices: Seq<usize>, len: nat) -> bool {
    forall|i: int| 0 <= i < indices.len() ==> (#[trigger] indices[i]) < len
}

/// Sum of the areas inside `tile` of the polygons at `indices`.  Polygons that
/// overlap are counted once each.  `None` if clipping leaves the coordinate
/// range or the value does not fit.
pub fn clipped_area(polys: &[Polygon], indices: &[usize], tile: &Polygon) -> (area: Option<i128>)
    requires
        shapes_in_range(shapes_of(polys@)),
        indices_valid(indices@, polys@.len()),
        tile@.in_range(),
    ensures
        area is Some <==> clips_in_range(shapes_of(polys@), indices@, tile@) && clipped_area2(
            shapes_of(polys@),
            indices@,
            tile@,
            indices@.len() as int,
        ) <= i128::MAX,
        area matches Some(a) ==> a == clipped_area2(shapes_of(polys@), indices@, tile@, indices@.len() as int) && a
            >= 0,
{
    let ghost shapes = shapes_of(polys@);
    let n = indices.len();
    let mut total: i128 = 0;
    let mut i: usize = 0;
    while i < n
        invariant
            n == indices@.len(),
            i <= n,
            shapes == shapes_of(polys@),
            shapes_in_range(shapes),
            indices_valid(indices@, polys@.len()),
            tile@.in_range(),
            total == clipped_area2(shapes, indices@, tile@, i as int),
            total >= 0,
            forall|j: int|
                0 <= j < i ==> shapes_in_range(intersection_shapes(shapes[#[trigger] indices@[j] as int], tile@)),
        decreases n - i,
    {
        let k = indices[i];
        assert(indices@[i as int] < polys@.len());
        assert(shapes[k as int] == polys@[k as int]@);
        assert(shapes[k as int].in_range());
        let parts = intersection(&polys[k], tile);
        if !check_polygons(&parts) {
            assert(!shapes_in_range(intersection_shapes(shapes[indices@[i as int] as int], tile@)));
            return None;
        }
        let mut fits: bool = false;
        if let Some(a) = total_area(&parts) {
            if a <= i128::MAX - total {
                total = total + a;
                fits = true;
            }
        }
        if !fits {
            proof {
                clipped_area2_grows(shapes, indices@, tile@, i + 1, n as int);
            }
            return None;
        }
        i = i + 1;
    }
    Some(total)
}

/// The closed-open boxes overlap.
pub open spec fn overlaps(a: Rect, b: Rect) -> bool {
    a.x0 < b.x1 && a.x1 > b.x0 && a.y0 < b.y1 && a.y1 > b.y0
}

/// What shape `s` leaves in the window `win`: nothing, itself, or its
/// intersection with the window.
pub open spec fn window_parts(s: Shape, win: Rect) -> Seq<Shape> {
    if s.exterior.len() == 0 || !overlaps(bounds(s.exterior), win) {
        Seq::empty()
    } else if win.spec_encloses(bounds(s.exterior)) {
        seq![s]
    } else {
        intersection_shapes(s, Shape { exterior: win.ring(), holes: Seq::empty() })
    }
}

/// What the shapes at the first `n` indices leave in the window.
pub open spec fn window_shapes(shapes: Seq<Shape>, indices: Seq<usize>, win: Rect, n: int) -> Seq<Shape>
    decreases n,
{
    if n <= 0 {
        Seq::empty()
    } else {
        window_shapes(shapes, indices, win, n - 1) + window_parts(shapes[indices[n - 1] as int], win)
    }
}

/// In the window, the first `n` listed shapes that are rectangles leave what
/// they have in common with it.
pub open spec fn clip_facts(shapes: Seq<Shape>, indices: Seq<usize>, win: Rect, n: int) -> bool {
    forall|i: int|
        0 <= i < n && is_box(shapes[indices[i] as int]) ==> crosses(
            window_parts(shapes[#[trigger] indices[i] as int], win),
            bounds(shapes[indices[i] as int].exterior),
            win,
        )
}

/// The merged area in one window.
pub open spec fn window_area2(shapes: Seq<Shape>, indices: Seq<usize>, win: Rect) -> int {
    union_area2(window_shapes(shapes, indices, win, indices.len() as int))
}

/// The number of windows of the given size along a side.
pub open spec fn window_count(length: int, window: int) -> int {
    if length <= 0 {
        0
    } else {
        (length + window - 1) / window
    }
}

/// Window `ix`, `iy` of a tile.
pub open spec fn window_rect(tile: Rect, window: int, ix: int, iy: int) -> Rect {
    Rect {
        x0: (tile.x0 + ix * window) as i64,
        y0: (tile.y0 + iy * window) as i64,
        x1: min_of(tile.x0 + ix * window + window, tile.x1 as int) as i64,
        y1: min_of(tile.y0 + iy * window + window, tile.y1 as int) as i64,
    }
}

/// The merged area in the first `n` windows of row `iy`.
pub open spec fn row_area2(shapes: Seq<Shape>, indices: Seq<usize>, tile: Rect, window: int, iy: int, n: int) -> int
    decreases n,
{
    if n <= 0 {
        0
    } else {
        row_area2(shapes, indices, tile, window, iy, n - 1) + window_area2(
            shapes,
            indices,
            window_rect(tile, window, n - 1, iy),
        )
    }
}

/// The merged area in the first `n` rows of windows.
pub open spec fn rows_area2(shapes: Seq<Shape>, indices: Seq<usize>, tile: Rect, window: int, n: int) -> int
    decreases n,
{
    if n <= 0 {
        0
    } else {
        rows_area2(shapes, indices, tile, window, n - 1) + row_area2(
            shapes,
            indices,
            tile,
            window,
            n - 1,
            window_count(tile.width(), window),
        )
    }
}

/// The size of a merge window: as given, or the longer side of the tile.
pub open spec fn window_size(tile: Rect, window: Option<i64>) -> int {
    match window {
        Some(w) => w as int,
        None => max_of(tile.width(), tile.height()),
    }
}

/// The merged area of the listed shapes within a tile.
pub open spec fn merged_area2(shapes: Seq<Shape>, indices: Seq<usize>, tile: Rect, window: Option<i64>) -> int {
    let w = window_size(tile, window);
    rows_area2(shapes, indices, tile, w, window_count(tile.height(), w))
}

/// Clipping to every window of the tile leaves every coordinate in range.
pub open spec fn windows_in_range(shapes: Seq<Shape>, indices: Seq<usize>, tile: Rect, window: Option<i64>) -> bool {
    let w = window_size(tile, window);
    forall|ix: int, iy: int|
        0 <= ix < window_count(tile.width(), w) && 0 <= iy < window_count(tile.height(), w) ==> shapes_in_range(
            window_shapes(shapes, indices, #[trigger] window_rect(tile, w, ix, iy), indices.len() as int),
        )
}

proof fn union_area2_nonneg(shapes: Seq<Shape>)
    ensures
        union_area2(shapes) >= 0,
{
    other_area2_grows(shapes, 0, shapes.len() as int);
}

proof fn row_area2_grows(shapes: Seq<Shape>, indices: Seq<usize>, tile: Rect, window: int, iy: int, m: int, n: int)
    requires
        0 <= m <= n,
    ensures
        0 <= row_area2(shapes, indices, tile, window, iy, m) <= row_area2(shapes, indices, tile, window, iy, n),
    decreases n,
{
    if n > 0 {
        union_area2_nonneg(
            window_shapes(shapes, indices, window_rect(tile, window, n - 1, iy), indices.len() as int),
        );
        if m < n {
            row_area2_grows(shapes, indices, tile, window, iy, m, n - 1);
        } else {
            row_area2_grows(shapes, indices, tile, window, iy, m - 1, n - 1);
        }
    }
}

proof fn rows_area2_grows(shapes: Seq<Shape>, indices: Seq<usize>, tile: Rect, window: int, m: int, n: int)
    requires
        0 <= m <= n,
        0 <= window_count(tile.width(), window),
    ensures
        0 <= rows_area2(shapes, indices, tile, window, m) <= rows_area2(shapes, indices, tile, window, n),
    decreases n,
{
    if n > 0 {
        row_area2_grows(shapes, indices, tile, window, n - 1, 0, window_count(tile.width(), window));
        if m < n {
            rows_area2_grows(shapes, indices, tile, window, m, n - 1);
        } else {
            rows_area2_grows(shapes, indices, tile, window, m - 1, n - 1);
        }
    }
}

/// The in-range parts of the listed polygons in one window, `None` if one of
/// them is out of range.
pub fn clip_to_window(polys: &[Polygon], indices: &[usize], win: &Rect) -> (out: Option<Vec<Polygon>>)
    requires
        shapes_in_range(shapes_of(polys@)),
        indices_valid(indices@, polys@.len()),
        win.in_range(),
    ensures
        out is Some <==> shapes_in_range(window_shapes(shapes_of(polys@), indices@, *win, indices@.len() as int)),
        out matches Some(v) ==> shapes_of(v@) == window_shapes(
            shapes_of(polys@),
            indices@,
            *win,
            indices@.len() as int,
        ),
        has_area(*win) ==> clip_facts(shapes_of(polys@), indices@, *win, indices@.len() as int),
{
    let ghost shapes = shapes_of(polys@);
    let n = indices.len();
    let win_poly = win.to_polygon();
    let mut out: Vec<Polygon> = Vec::new();
    let mut i: usize = 0;
    while i < n
        invariant
            n == indices@.len(),
            i <= n,
            shapes == shapes_of(polys@),
            shapes_in_range(shapes),
            indices_valid(indices@, polys@.len()),
            win.in_range(),
            win_poly@ == (Shape { exterior: win.ring(), holes: Seq::empty() }),
            shapes_of(out@) == window_shapes(shapes, indices@, *win, i as int),
            has_area(*win) ==> clip_facts(shapes, indices@, *win, i as int),
        decreases n - i,
    {
        let k = indices[i];
        assert(indices@[i as int] < polys@.len());
        assert(shapes[k as int] == polys@[k as int]@);
        assert(shapes[k as int].in_range());
        let ghost before = out@;
        let ghost parts = window_parts(shapes[k as int], *win);
        proof {
            if has_area(*win) {
                rect_is_box(*win);
                if is_box(shapes[k as int]) {
                    box_bounds(shapes[k as int].exterior);
                }
            }
        }
        if let Some(b) = polys[k].bounding_rect() {
            if !(b.x0 >= win.x1 || b.x1 <= win.x0 || b.y0 >= win.y1 || b.y1 <= win.y0) {
                if win.encloses(&b) {
                    out.push(polys[k].duplicate());
                    assert(shapes_of(out@) =~= shapes_of(before) + parts);
                } else {
                    assert(ring_in_range(win.ring()));
                    let mut clipped = intersection(&polys[k], &win_poly);
                    let ghost all = clipped@;
                    out.append(&mut clipped);
                    assert(shapes_of(out@) =~= shapes_of(before) + shapes_of(all));
                }
            }
        }
        assert(shapes_of(out@) =~= shapes_of(before) + parts);
        i = i + 1;
    }
    if check_polygons(&out) {
        Some(out)
    } else {
        None
    }
}

/// ceil(length / window)
fn count_windows(length: i64, window: i64) -> (n: i64)
    requires
        0 <= length <= 0x1_0000_0000,
        length > 0 ==> window > 0,
    ensures
        n == window_count(length as int, window as int),
        0 <= n <= length,
        length > 0 ==> n > 0 && (n - 1) * window < length,
{
    if length == 0 {
        return 0;
    }
    let n = (length - 1) / window + 1;
    proof {
        let (l, w) = (length as int, window as int);
        vstd::arithmetic::div_mod::lemma_div_plus_one(l - 1, w);
        assert((l + w - 1) / w == n);
        vstd::arithmetic::div_mod::lemma_fundamental_div_mod(l - 1, w);
        assert(w * ((l - 1) / w) == (n - 1) * w) by (nonlinear_arith)
            requires
                (l - 1) / w == n - 1,
        ;
        assert(n - 1 <= l - 1) by (nonlinear_arith)
            requires
                (n - 1) * w <= l - 1,
                w >= 1,
                n >= 1,
        ;
    }
    n
}

/// Merged area of the polygons at `candidates` within a tile, window by
/// window: each window clips its candidates and unites them.  Without a window
/// size the whole tile is one window.  `None` if clipping leaves the
/// coordinate range or the value does not fit.  Of rectangles it is the area of
/// the part of the tile that one of them covers, whatever the window size.
#[verifier::rlimit(60)]
pub fn tiled_merge_area(polys: &[Polygon], candidates: &[usize], tile: &Rect, window: Option<i64>) -> (area:
    Option<i128>)
    requires
        shapes_in_range(shapes_of(polys@)),
        indices_valid(candidates@, polys@.len()),
        tile.in_range(),
        tile.ordered(),
        window matches Some(w) ==> w > 0,
    ensures
        area is Some <==> windows_in_range(shapes_of(polys@), candidates@, *tile, window) && merged_area2(
            shapes_of(polys@),
            candidates@,
            *tile,
            window,
        ) <= i128::MAX,
        area matches Some(a) ==> a == merged_area2(shapes_of(polys@), candidates@, *tile, window) && a >= 0,
        listed_boxes(shapes_of(polys@), candidates@) && has_area(*tile) ==> area is Some && area->0 == 2 * ground_in(
            shapes_of(polys@),
            candidates@,
            *tile,
        ).len(),
{
    let ghost shapes = shapes_of(polys@);
    let ghost boxes = listed_boxes(shapes, candidates@) && has_area(*tile);
    let width = tile.x1 - tile.x0;
    let height = tile.y1 - tile.y0;
    let w = match window {
        Some(w) => w,
        None => crate::geom::max_i64(width, height),
    };
    let nx = count_windows(width, w);
    let ny = count_windows(height, w);
    let mut total: i128 = 0;
    let mut iy: i64 = 0;
    while iy < ny
        invariant
            shapes == shapes_of(polys@),
            shapes_in_range(shapes),
            indices_valid(candidates@, polys@.len()),
            tile.in_range(),
            tile.ordered(),
            w == window_size(*tile, window),
            width == tile.width(),
            height == tile.height(),
            nx == window_count(width as int, w as int),
            ny == window_count(height as int, w as int),
            0 <= nx <= width,
            0 <= ny <= height,
            nx > 0 ==> w > 0 && (nx - 1) * w < width,
            ny > 0 ==> w > 0 && (ny - 1) * w < height,
            0 <= iy <= ny,
            total == rows_area2(shapes, candidates@, *tile, w as int, iy as int),
            total >= 0,
            boxes == (listed_boxes(shapes, candidates@) && has_area(*tile)),
            boxes ==> windows_are_ground(shapes, candidates@, *tile, w as int, iy as int, 0),
            forall|jx: int, jy: int|
                0 <= jx < nx && 0 <= jy < iy ==> shapes_in_range(
                    window_shapes(
                        shapes,
                        candidates@,
                        #[trigger] window_rect(*tile, w as int, jx, jy),
                        candidates@.len() as int,
                    ),
                ),
        decreases ny - iy,
    {
        proof {
            assert(0 <= iy * w <= (ny - 1) * w) by (nonlinear_arith)
                requires
                    0 <= iy <= ny - 1,
                    w > 0,
            ;
        }
        let ghost row_start = total;
        let y0: i64 = tile.y0 + iy * w;
        let y1: i64 = if tile.y1 - y0 <= w {
            tile.y1
        } else {
            y0 + w
        };
        let mut ix: i64 = 0;
        while ix < nx
            invariant
                shapes == shapes_of(polys@),
                shapes_in_range(shapes),
                indices_valid(candidates@, polys@.len()),
                tile.in_range(),
                tile.ordered(),
                w == window_size(*tile, window),
                width == tile.width(),
                height == tile.height(),
                nx == window_count(width as int, w as int),
                ny == window_count(height as int, w as int),
                0 <= nx <= width,
                nx > 0 ==> w > 0 && (nx - 1) * w < width,
                0 <= ix <= nx,
                0 <= iy < ny,
                y0 == tile.y0 + iy * w,
                tile.y0 <= y0 < tile.y1,
                y1 == min_of(y0 + w, tile.y1 as int),
                row_start == rows_area2(shapes, candidates@, *tile, w as int, iy as int),
                total == row_start + row_area2(shapes, candidates@, *tile, w as int, iy as int, ix as int),
                total >= 0,
                row_start >= 0,
                w > 0,
                boxes == (listed_boxes(shapes, candidates@) && has_area(*tile)),
                boxes ==> windows_are_ground(shapes, candidates@, *tile, w as int, iy as int, ix as int),
                forall|jx: int, jy: int|
                    0 <= jx < nx && 0 <= jy < iy ==> shapes_in_range(
                        window_shapes(
                            shapes,
                            candidates@,
                            #[trigger] window_rect(*tile, w as int, jx, jy),
                            candidates@.len() as int,
                        ),
                    ),
                forall|jx: int|
                    0 <= jx < ix ==> shapes_in_range(
                        window_shapes(
                            shapes,
                            candidates@,
                            #[trigger] window_rect(*tile, w as int, jx, iy as int),
                            candidates@.len() as int,
                        ),
                    ),
            decreases nx - ix,
        {
            proof {
                assert(0 <= ix * w <= (nx - 1) * w) by (nonlinear_arith)
                    requires
                        0 <= ix <= nx - 1,
                        w > 0,
                ;
            }
            let x0: i64 = tile.x0 + ix * w;
            let x1: i64 = if tile.x1 - x0 <= w {
                tile.x1
            } else {
                x0 + w
            };
            let win = Rect { x0, y0, x1, y1 };
            assert(win == window_rect(*tile, w as int, ix as int, iy as int));
            let part = clip_to_window(polys, candidates, &win);
            proof {
                if boxes {
                    window_is_ground(shapes, candidates@, win);
                    merged_so_far(shapes, candidates@, *tile, w as int, iy as int, ix + 1);
                }
            }
            let clipped = match part {
                Some(c) => c,
                None => {
                    return None;
                },
            };
            let mut fits: bool = false;
            if let Some(a) = union_area(&clipped) {
                if a <= i128::MAX - total {
                    total = total + a;
                    fits = true;
                }
            }
            if !fits {
                proof {
                    row_area2_grows(shapes, candidates@, *tile, w as int, iy as int, ix + 1, nx as int);
                    rows_area2_grows(shapes, candidates@, *tile, w as int, iy + 1, ny as int);
                }
                return None;
            }
            ix = ix + 1;
        }
        iy = iy + 1;
    }
    proof {
        if boxes {
            merged_is_ground(shapes, candidates@, *tile, w as int);
        }
    }
    Some(total)
}

/// Clipped areas are not negative.
pub proof fn clipped_area2_nonneg(shapes: Seq<Shape>, indices: Seq<usize>, tile: Shape)
    ensures
        0 <= clipped_area2(shapes, indices, tile, indices.len() as int),
{
    clipped_area2_grows(shapes, indices, tile, 0, indices.len() as int);
}

/// Merged areas are not negative.
pub proof fn merged_area2_nonneg(shapes: Seq<Shape>, indices: Seq<usize>, tile: Rect, window: Option<i64>)
    requires
        tile.x0 < tile.x1,
        tile.y0 < tile.y1,
        window matches Some(w) ==> w > 0,
    ensures
        0 <= merged_area2(shapes, indices, tile, window),
{
    let w = window_size(tile, window);
    let (x, y) = (tile.width(), tile.height());
    assert((x + w - 1) / w >= 0 && (y + w - 1) / w >= 0) by (nonlinear_arith)
        requires
            x > 0,
            y > 0,
            w > 0,
    ;
    rows_area2_grows(shapes, indices, tile, w, 0, window_count(y, w));
}

} // verus!
