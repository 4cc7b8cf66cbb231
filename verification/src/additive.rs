//! Areas add up over shapes that do not overlap.

use crate::area::clipped_area2;
use crate::area::merged_area2;
use crate::area::other_area2;
use crate::area::rect_boxes;
use crate::area::row_area2;
use crate::area::rows_area2;
use crate::area::sum_area2;
use crate::area::union_area2;
use crate::area::window_area2;
use crate::area::window_count;
use crate::area::window_rect;
use crate::area::window_shapes;
use crate::area::window_size;
use crate::contain::is_rect_shape;
use crate::coverage::covered_cells;
use crate::coverage::strip;
use crate::geom::abs_of;
use crate::geom::area2;
use crate::geom::bounds;
use crate::geom::is_box;
use crate::geom::Rect;
use crate::geom::Shape;
use crate::overlay::intersection_shapes;
use crate::windows::box_area;
use crate::windows::last_window;
use crate::windows::rect_cells;
use vstd::prelude::*;
use vstd::set_lib::lemma_set_disjoint_lens;
use vstd::set_lib::set_int_range;

verus! {

/// The rectangles share no ground.
pub open spec fn are_apart(a: Rect, b: Rect) -> bool {
    a.x1 <= b.x0 || b.x1 <= a.x0 || a.y1 <= b.y0 || b.y1 <= a.y0
}

/// The shape is a rectangle, or its area differs from that of its bounding box by
/// a millionth at least.
pub open spec fn is_plain(s: Shape) -> bool {
    let box2 = 2 * bounds(s.exterior).spec_area();
    &&& s.exterior.len() > 0
    &&& is_box(s) || abs_of(box2 - area2(s)) * 1_000_000 >= box2
}

/// All shapes are plain, and no rectangle of one list shares ground with one of
/// the other.
pub open spec fn lists_apart(a: Seq<Shape>, b: Seq<Shape>) -> bool {
    &&& forall|i: int| 0 <= i < a.len() ==> is_plain(#[trigger] a[i])
    &&& forall|j: int| 0 <= j < b.len() ==> is_plain(#[trigger] b[j])
    &&& forall|i: int, j: int|
        0 <= i < a.len() && 0 <= j < b.len() && is_box(a[i]) && is_box(b[j]) ==> are_apart(
            bounds((#[trigger] a[i]).exterior),
            bounds((#[trigger] b[j]).exterior),
        )
}

proof fn plain_rect_is_box(s: Shape)
    requires
        is_plain(s),
    ensures
        is_rect_shape(s) == is_box(s),
{
    if is_box(s) {
        box_area(s);
    }
}

proof fn others_join(a: Seq<Shape>, b: Seq<Shape>, n: int)
    requires
        0 <= n <= a.len() + b.len(),
    ensures
        n <= a.len() ==> other_area2(a + b, n) == other_area2(a, n) && rect_boxes(a + b, n) == rect_boxes(a, n),
        n >= a.len() ==> other_area2(a + b, n) == other_area2(a, a.len() as int) + other_area2(b, n - a.len()),
        n >= a.len() ==> rect_boxes(a + b, n) =~= rect_boxes(a, a.len() as int) + rect_boxes(b, n - a.len()),
    decreases n,
{
    if n > 0 {
        others_join(a, b, n - 1);
        if n <= a.len() {
            assert((a + b)[n - 1] == a[n - 1]);
        } else {
            assert((a + b)[n - 1] == b[n - 1 - a.len()]);
        }
    }
}

/// A box of a list is that of a rectangle in it.
proof fn box_is_of_rect(shapes: Seq<Shape>, n: int, k: int) -> (i: int)
    requires
        0 <= n <= shapes.len(),
        0 <= k < rect_boxes(shapes, n).len(),
    ensures
        0 <= i < n,
        is_rect_shape(shapes[i]),
        rect_boxes(shapes, n)[k] == ({
            let b = bounds(shapes[i].exterior);
            (b.x0, b.y0, b.x1, b.y1)
        }),
    decreases n,
{
    if k < rect_boxes(shapes, n - 1).len() {
        box_is_of_rect(shapes, n - 1, k)
    } else {
        n - 1
    }
}

/// The cells of one box.
proof fn one_box_cells(b: (i64, i64, i64, i64))
    requires
        b.0 <= b.2,
        b.1 <= b.3,
    ensures
        covered_cells(seq![b]).finite(),
        covered_cells(seq![b]).len() == (b.2 - b.0) * (b.3 - b.1),
{
    let r = Rect { x0: b.0, y0: b.1, x1: b.2, y1: b.3 };
    rect_cells(r);
    let cells = strip(set_int_range(b.0 as int, b.2 as int), b.1 as int, b.3 as int);
    let one = seq![b];
    assert forall|c: (int, int)| #[trigger] covered_cells(one).contains(c) == cells.contains(c) by {
        if cells.contains(c) {
            assert(one[0].0 <= c.0 < one[0].2);
        }
    }
    assert(covered_cells(one) =~= cells);
}

proof fn cells_join(a: Seq<(i64, i64, i64, i64)>, b: Seq<(i64, i64, i64, i64)>)
    ensures
        covered_cells(a + b) =~= covered_cells(a).union(covered_cells(b)),
{
    assert forall|c: (int, int)| covered_cells(a).union(covered_cells(b)).contains(c) implies #[trigger] covered_cells(
        a + b,
    ).contains(c) by {
        if covered_cells(a).contains(c) {
            let i = choose|i: int| 0 <= i < a.len() && (#[trigger] a[i]).0 <= c.0 < a[i].2 && a[i].1 <= c.1 < a[i].3;
            assert((a + b)[i] == a[i]);
        } else {
            let i = choose|i: int| 0 <= i < b.len() && (#[trigger] b[i]).0 <= c.0 < b[i].2 && b[i].1 <= c.1 < b[i].3;
            assert((a + b)[a.len() + i] == b[i]);
        }
    }
}

/// A list of boxes covers finitely many cells.
proof fn cells_are_finite(a: Seq<(i64, i64, i64, i64)>)
    ensures
        covered_cells(a).finite(),
    decreases a.len(),
{
    if a.len() == 0 {
        assert(covered_cells(a) =~= Set::empty());
    } else {
        let b = a.last();
        cells_are_finite(a.drop_last());
        assert(a =~= a.drop_last() + seq![b]);
        cells_join(a.drop_last(), seq![b]);
        if b.0 <= b.2 && b.1 <= b.3 {
            one_box_cells(b);
        } else {
            assert(covered_cells(seq![b]) =~= Set::empty());
        }
    }
}

/// What the area of a list is, also of a list of one.
proof fn area_is_united(shapes: Seq<Shape>)
    requires
        forall|i: int| 0 <= i < shapes.len() ==> is_plain(#[trigger] shapes[i]),
    ensures
        union_area2(shapes) == other_area2(shapes, shapes.len() as int) + 2 * covered_cells(
            rect_boxes(shapes, shapes.len() as int),
        ).len(),
{
    if shapes.len() == 1 {
        let s = shapes[0];
        plain_rect_is_box(s);
        reveal_with_fuel(other_area2, 2);
        reveal_with_fuel(rect_boxes, 2);
        let b = bounds(s.exterior);
        if is_box(s) {
            box_area(s);
            assert(rect_boxes(shapes, 1) =~= seq![(b.x0, b.y0, b.x1, b.y1)]);
            one_box_cells((b.x0, b.y0, b.x1, b.y1));
        } else {
            assert(covered_cells(rect_boxes(shapes, 1)) =~= Set::empty());
        }
    }
}

/// The area of one shape is its own.
pub proof fn union_area_of_one(s: Shape)
    ensures
        union_area2(seq![s]) == area2(s),
{
}

/// The area of nothing is nothing.
pub proof fn union_area_of_none()
    ensures
        union_area2(Seq::<Shape>::empty()) == 0,
{
    assert(covered_cells(rect_boxes(Seq::<Shape>::empty(), 0)) =~= Set::empty());
}

/// Areas add up: two lists of shapes whose rectangles share no ground have
/// together the sum of their areas.
pub proof fn union_area_adds_up(a: Seq<Shape>, b: Seq<Shape>)
    requires
        lists_apart(a, b),
    ensures
        union_area2(a + b) == union_area2(a) + union_area2(b),
{
    let (m, n) = (a.len() as int, b.len() as int);
    assert forall|i: int| 0 <= i < (a + b).len() implies is_plain(#[trigger] (a + b)[i]) by {
        if i < m {
            assert((a + b)[i] == a[i]);
        } else {
            assert((a + b)[i] == b[i - m]);
        }
    }
    area_is_united(a);
    area_is_united(b);
    area_is_united(a + b);
    others_join(a, b, m + n);
    let (p, q) = (rect_boxes(a, m), rect_boxes(b, n));
    cells_join(p, q);
    cells_are_finite(p);
    cells_are_finite(q);
    assert(covered_cells(p).disjoint(covered_cells(q))) by {
        assert forall|c: (int, int)| covered_cells(p).contains(c) implies !#[trigger] covered_cells(q).contains(c) by {
            if covered_cells(q).contains(c) {
                let k = choose|k: int| 0 <= k < p.len() && (#[trigger] p[k]).0 <= c.0 < p[k].2 && p[k].1 <= c.1 < p[k].3;
                let l = choose|l: int| 0 <= l < q.len() && (#[trigger] q[l]).0 <= c.0 < q[l].2 && q[l].1 <= c.1 < q[l].3;
                let i = box_is_of_rect(a, m, k);
                let j = box_is_of_rect(b, n, l);
                plain_rect_is_box(a[i]);
                plain_rect_is_box(b[j]);
                assert(are_apart(bounds(a[i].exterior), bounds(b[j].exterior)));
            }
        }
    }
    lemma_set_disjoint_lens(covered_cells(p), covered_cells(q));
}

proof fn parts_join(shapes: Seq<Shape>, i: Seq<usize>, j: Seq<usize>, win: Rect, n: int)
    requires
        0 <= n <= i.len() + j.len(),
    ensures
        n <= i.len() ==> window_shapes(shapes, i + j, win, n) == window_shapes(shapes, i, win, n),
        n >= i.len() ==> window_shapes(shapes, i + j, win, n) =~= window_shapes(shapes, i, win, i.len() as int)
            + window_shapes(shapes, j, win, n - i.len()),
    decreases n,
{
    if n > 0 {
        parts_join(shapes, i, j, win, n - 1);
        if n <= i.len() {
            assert((i + j)[n - 1] == i[n - 1]);
        } else {
            assert((i + j)[n - 1] == j[n - 1 - i.len()]);
        }
    }
}

/// Within a rectangle of the tile, what the two lists of shapes leave is plain
/// and shares no ground.
pub open spec fn apart_within(shapes: Seq<Shape>, i: Seq<usize>, j: Seq<usize>, win: Rect) -> bool {
    lists_apart(
        window_shapes(shapes, i, win, i.len() as int),
        window_shapes(shapes, j, win, j.len() as int),
    )
}

proof fn rows_add_up(shapes: Seq<Shape>, i: Seq<usize>, j: Seq<usize>, tile: Rect, w: int, iy: int, n: int)
    requires
        tile.in_range(),
        tile.x0 < tile.x1,
        tile.y0 < tile.y1,
        w > 0,
        0 <= iy < window_count(tile.height(), w),
        0 <= n <= window_count(tile.width(), w),
        forall|win: Rect| #[trigger] tile.spec_encloses(win) ==> apart_within(shapes, i, j, win),
    ensures
        row_area2(shapes, i + j, tile, w, iy, n) == row_area2(shapes, i, tile, w, iy, n) + row_area2(
            shapes,
            j,
            tile,
            w,
            iy,
            n,
        ),
    decreases n,
{
    if n > 0 {
        rows_add_up(shapes, i, j, tile, w, iy, n - 1);
        let win = window_rect(tile, w, n - 1, iy);
        last_window(tile.width(), w);
        last_window(tile.height(), w);
        let (cx, cy) = (window_count(tile.width(), w), window_count(tile.height(), w));
        assert(0 <= (n - 1) * w <= (cx - 1) * w) by (nonlinear_arith)
            requires
                0 <= n - 1 <= cx - 1,
                w > 0,
        ;
        assert(0 <= iy * w <= (cy - 1) * w) by (nonlinear_arith)
            requires
                0 <= iy <= cy - 1,
                w > 0,
        ;
        assert(tile.spec_encloses(win));
        assert(apart_within(shapes, i, j, win));
        parts_join(shapes, i, j, win, (i.len() + j.len()) as int);
        union_area_adds_up(
            window_shapes(shapes, i, win, i.len() as int),
            window_shapes(shapes, j, win, j.len() as int),
        );
    }
}

proof fn all_rows_add_up(shapes: Seq<Shape>, i: Seq<usize>, j: Seq<usize>, tile: Rect, w: int, n: int)
    requires
        tile.in_range(),
        tile.x0 < tile.x1,
        tile.y0 < tile.y1,
        w > 0,
        0 <= n <= window_count(tile.height(), w),
        forall|win: Rect| #[trigger] tile.spec_encloses(win) ==> apart_within(shapes, i, j, win),
    ensures
        rows_area2(shapes, i + j, tile, w, n) == rows_area2(shapes, i, tile, w, n) + rows_area2(shapes, j, tile, w, n),
    decreases n,
{
    if n > 0 {
        all_rows_add_up(shapes, i, j, tile, w, n - 1);
        last_window(tile.width(), w);
        rows_add_up(shapes, i, j, tile, w, n - 1, window_count(tile.width(), w));
    }
}

/// Merged areas add up: where two lists of shapes share no ground in the tile,
/// the merged area of both is the sum of the merged areas, whatever the window.
pub proof fn merged_area_adds_up(
    shapes: Seq<Shape>,
    i: Seq<usize>,
    j: Seq<usize>,
    tile: Rect,
    window: Option<i64>,
)
    requires
        tile.in_range(),
        tile.x0 < tile.x1,
        tile.y0 < tile.y1,
        window matches Some(w) ==> w > 0,
        forall|win: Rect| #[trigger] tile.spec_encloses(win) ==> apart_within(shapes, i, j, win),
    ensures
        merged_area2(shapes, i + j, tile, window) == merged_area2(shapes, i, tile, window) + merged_area2(
            shapes,
            j,
            tile,
            window,
        ),
{
    let w = window_size(tile, window);
    last_window(tile.height(), w);
    all_rows_add_up(shapes, i, j, tile, w, window_count(tile.height(), w));
}

/// A shape that lies in the tile has, alone, its own area there, merged without
/// windows.
pub proof fn merged_area_of_one(shapes: Seq<Shape>, k: usize, tile: Rect)
    requires
        tile.in_range(),
        tile.x0 < tile.x1,
        tile.y0 < tile.y1,
        k < shapes.len(),
        shapes[k as int].exterior.len() > 0,
        ({
            let b = bounds(shapes[k as int].exterior);
            tile.x0 <= b.x0 && b.x0 < b.x1 && b.x1 <= tile.x1 && tile.y0 <= b.y0 && b.y0 < b.y1 && b.y1 <= tile.y1
        }),
    ensures
        merged_area2(shapes, seq![k], tile, None) == area2(shapes[k as int]),
{
    let w = window_size(tile, None);
    let (x, y) = (tile.width(), tile.height());
    one_window(x, w);
    one_window(y, w);
    reveal_with_fuel(rows_area2, 2);
    reveal_with_fuel(row_area2, 2);
    reveal_with_fuel(window_shapes, 2);
    assert(0 * w == 0) by (nonlinear_arith);
    let win = window_rect(tile, w, 0, 0);
    assert(win == tile);
    assert(window_shapes(shapes, seq![k], win, 1) =~= seq![shapes[k as int]]);
    assert(merged_area2(shapes, seq![k], tile, None) == window_area2(shapes, seq![k], win));
}

proof fn one_window(length: int, window: int)
    requires
        0 < length <= window,
    ensures
        window_count(length, window) == 1,
{
    last_window(length, window);
    let n = window_count(length, window);
    assert(n == 1) by (nonlinear_arith)
        requires
            (n - 1) * window < length,
            length <= window,
            n > 0,
            window > 0,
    ;
}

/// Clipped areas add up over the listed shapes.
pub proof fn clipped_area_adds_up(shapes: Seq<Shape>, i: Seq<usize>, j: Seq<usize>, tile: Shape, n: int)
    requires
        0 <= n <= j.len(),
    ensures
        clipped_area2(shapes, i + j, tile, i.len() + n) == clipped_area2(shapes, i, tile, i.len() as int)
            + clipped_area2(shapes, j, tile, n),
    decreases n,
{
    if n > 0 {
        clipped_area_adds_up(shapes, i, j, tile, n - 1);
        assert((i + j)[i.len() + n - 1] == j[n - 1]);
    } else {
        clipped_is_of_prefix(shapes, i, j, tile, i.len() as int);
    }
}

proof fn clipped_is_of_prefix(shapes: Seq<Shape>, i: Seq<usize>, j: Seq<usize>, tile: Shape, n: int)
    requires
        0 <= n <= i.len(),
    ensures
        clipped_area2(shapes, i + j, tile, n) == clipped_area2(shapes, i, tile, n),
    decreases n,
{
    if n > 0 {
        clipped_is_of_prefix(shapes, i, j, tile, n - 1);
        assert((i + j)[n - 1] == i[n - 1]);
    }
}

/// A polygon of four corners whose area agrees with that of its bounding box to less
/// than a millionth is united as that box: drawn twice, it counts once.
pub proof fn near_rectangles_count_as_their_box(s: Shape)
    requires
        s.exterior.len() == 5,
        bounds(s.exterior).spec_area() > 0,
        bounds(s.exterior).ordered(),
        abs_of(2 * bounds(s.exterior).spec_area() - area2(s)) * 1_000_000 < 2 * bounds(s.exterior).spec_area(),
    ensures
        union_area2(seq![s, s]) == 2 * bounds(s.exterior).spec_area(),
{
    let pair = seq![s, s];
    let b = bounds(s.exterior);
    let one = (b.x0, b.y0, b.x1, b.y1);
    reveal_with_fuel(other_area2, 3);
    reveal_with_fuel(rect_boxes, 3);
    assert(is_rect_shape(s));
    assert(rect_boxes(pair, 2) =~= seq![one] + seq![one]);
    cells_join(seq![one], seq![one]);
    assert(covered_cells(seq![one]).union(covered_cells(seq![one])) =~= covered_cells(seq![one]));
    one_box_cells(one);
}

/// The areas of the shapes, summed.
pub open spec fn areas(shapes: Seq<Shape>) -> int
    decreases shapes.len(),
{
    if shapes.len() == 0 {
        0
    } else {
        areas(shapes.drop_last()) + area2(shapes.last())
    }
}

proof fn sum_is_of_areas(shapes: Seq<Shape>, n: int)
    requires
        0 <= n <= shapes.len(),
    ensures
        sum_area2(shapes, n) == areas(shapes.take(n)),
    decreases n,
{
    if n > 0 {
        sum_is_of_areas(shapes, n - 1);
        assert(shapes.take(n).drop_last() =~= shapes.take(n - 1));
    }
}

/// The clipped area of one shape is that of all the parts that it has in the tile.
pub proof fn clipped_area_is_that_of_its_parts(shapes: Seq<Shape>, k: usize, tile: Shape)
    ensures
        clipped_area2(shapes, seq![k], tile, 1) == areas(intersection_shapes(shapes[k as int], tile)),
{
    let parts = intersection_shapes(shapes[k as int], tile);
    reveal_with_fuel(clipped_area2, 2);
    sum_is_of_areas(parts, parts.len() as int);
    assert(parts.take(parts.len() as int) =~= parts);
}

} // verus!
