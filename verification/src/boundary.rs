//! Shapes written back to the layout.

use crate::flatten::is_placed;
use crate::flatten::top_cells;
use crate::geom::bounds;
use crate::geom::box_bounds;
use crate::geom::closed_ring;
use crate::geom::dbu_of;
use crate::geom::is_box_ring;
use crate::geom::to_dbu;
use crate::geom::Point;
use crate::geom::Polygon;
use crate::geom::Rect;
use crate::geom::Shape;
use crate::hierarchy::is_top;
use crate::hierarchy::top_is_not_placed;
use crate::layout::Boundary;
use crate::layout::Cell;
use crate::layout::Layout;
use crate::path::placed_points;
use crate::transform::identity_keeps_points;
use crate::transform::Affine;
use vstd::prelude::*;

verus! {

/// A coordinate in database units, limited to what a layout can hold.
pub open spec fn written(units: int) -> i32 {
    let d = dbu_of(units);
    if d < i32::MIN {
        i32::MIN
    } else if d > i32::MAX {
        i32::MAX
    } else {
        d as i32
    }
}

/// A coordinate as it is written.
fn write_coordinate(units: i64) -> (d: i32)
    requires
        -0x4000_0000_0000_0000 <= units <= 0x4000_0000_0000_0000,
    ensures
        d == written(units as int),
{
    let d = to_dbu(units);
    if d < i32::MIN as i64 {
        i32::MIN
    } else if d > i32::MAX as i64 {
        i32::MAX
    } else {
        d as i32
    }
}

/// The ring of a rectangle as it is written: closed, from the lower left
/// corner, counter-clockwise.
pub open spec fn rect_points(r: Rect) -> Seq<(i32, i32)> {
    seq![
        (written(r.x0 as int), written(r.y0 as int)),
        (written(r.x1 as int), written(r.y0 as int)),
        (written(r.x1 as int), written(r.y1 as int)),
        (written(r.x0 as int), written(r.y1 as int)),
        (written(r.x0 as int), written(r.y0 as int)),
    ]
}

/// A rectangle as a closed ring of five points, from its lower left corner,
/// counter-clockwise, in whole database units.
pub fn rect_to_boundary(r: &Rect, layer: i16, datatype: i16) -> (b: Boundary)
    requires
        r.in_reach(),
    ensures
        b.layer == layer,
        b.datatype == datatype,
        b.xy@ == rect_points(*r),
{
    let x0 = write_coordinate(r.x0);
    let y0 = write_coordinate(r.y0);
    let x1 = write_coordinate(r.x1);
    let y1 = write_coordinate(r.y1);
    let mut xy: Vec<(i32, i32)> = Vec::new();
    xy.push((x0, y0));
    xy.push((x1, y0));
    xy.push((x1, y1));
    xy.push((x0, y1));
    xy.push((x0, y0));
    Boundary { layer, datatype, xy }
}

/// The exterior of a shape as it is written.
pub open spec fn poly_points(s: Shape) -> Seq<(i32, i32)> {
    s.exterior.map_values(|p: Point| (written(p.x as int), written(p.y as int)))
}

/// The exterior of a polygon in whole database units.
pub fn poly_to_boundary(poly: &Polygon, layer: i16, datatype: i16) -> (b: Boundary)
    requires
        poly@.in_reach(),
    ensures
        b.layer == layer,
        b.datatype == datatype,
        b.xy@ == poly_points(poly@),
{
    let mut xy: Vec<(i32, i32)> = Vec::new();
    let mut i: usize = 0;
    while i < poly.exterior.len()
        invariant
            i <= poly.exterior@.len(),
            poly@.in_reach(),
            xy@.len() == i,
            forall|j: int|
                0 <= j < i ==> (#[trigger] xy@[j]) == (
                    written(poly.exterior@[j].x as int),
                    written(poly.exterior@[j].y as int),
                ),
        decreases poly.exterior@.len() - i,
    {
        let p = poly.exterior[i];
        assert(poly@.exterior[i as int].in_reach());
        xy.push((write_coordinate(p.x), write_coordinate(p.y)));
        i = i + 1;
    }
    assert(xy@ =~= poly_points(poly@));
    Boundary { layer, datatype, xy }
}

/// The name marks a cell that is not part of the design.
pub open spec fn is_context_name(name: Seq<char>) -> bool {
    name.len() >= 2 && name[0] == '$' && name[1] == '$'
}

/// Does the name mark a cell that is not part of the design?
fn test_context_name(name: &str) -> (b: bool)
    ensures
        b == is_context_name(name@),
{
    name.unicode_len() >= 2 && name.get_char(0) == '$' && name.get_char(1) == '$'
}

/// Cell `i` is a top cell of the design: no element places it, and its name
/// does not begin with two dollar signs.
pub open spec fn is_design_top(cells: Seq<Cell>, i: int) -> bool {
    !is_placed(cells, cells[i].name@) && !is_context_name(cells[i].name@)
}

/// The top cells of the design, in order.
pub fn design_tops(layout: &Layout) -> (tops: Vec<usize>)
    ensures
        forall|i: int|
            0 <= i < layout.cells@.len() ==> (tops@.contains(i as usize) <==> #[trigger] is_design_top(layout.cells@, i)),
        forall|p: int| 0 <= p < tops@.len() ==> (#[trigger] tops@[p]) < layout.cells@.len(),
        forall|p: int, q: int| 0 <= p < q < tops@.len() ==> (#[trigger] tops@[p]) < (#[trigger] tops@[q]),
{
    let all = top_cells(layout);
    let m = layout.cells.len();
    let mut tops: Vec<usize> = Vec::new();
    let mut i: usize = 0;
    while i < all.len()
        invariant
            m == layout.cells@.len(),
            i <= all@.len(),
            forall|p: int| 0 <= p < all@.len() ==> (#[trigger] all@[p]) < layout.cells@.len(),
            forall|p: int, q: int| 0 <= p < q < all@.len() ==> (#[trigger] all@[p]) < (#[trigger] all@[q]),
            forall|p: int| 0 <= p < tops@.len() ==> (#[trigger] tops@[p]) < layout.cells@.len(),
            forall|p: int, q: int| 0 <= p < q < tops@.len() ==> (#[trigger] tops@[p]) < (#[trigger] tops@[q]),
            forall|p: int| 0 <= p < tops@.len() ==> exists|q: int| 0 <= q < i && all@[q] == #[trigger] tops@[p],
            forall|p: int|
                0 <= p < tops@.len() ==> !is_context_name(layout.cells@[(#[trigger] tops@[p]) as int].name@),
            forall|q: int|
                0 <= q < i && !is_context_name(layout.cells@[(#[trigger] all@[q]) as int].name@) ==> tops@.contains(
                    all@[q],
                ),
        decreases all@.len() - i,
    {
        let k = all[i];
        let ghost before = tops@;
        assert(all@[i as int] < layout.cells@.len());
        let context = test_context_name(layout.cells[k].name.as_str());
        if !context {
            proof {
                assert forall|p: int| 0 <= p < before.len() implies (#[trigger] before[p]) < k by {
                    let q = choose|q: int| 0 <= q < i && all@[q] == before[p];
                    assert(all@[q] < all@[i as int]);
                }
            }
            tops.push(k);
        }
        proof {
            assert forall|p: int| 0 <= p < tops@.len() implies exists|q: int|
                0 <= q < i + 1 && all@[q] == #[trigger] tops@[p] by {
                if p < before.len() {
                    let q = choose|q: int| 0 <= q < i && all@[q] == before[p];
                    assert(all@[q] == tops@[p]);
                } else {
                    assert(all@[i as int] == tops@[p]);
                }
            }
            assert forall|q: int|
                0 <= q < i + 1 && !is_context_name(layout.cells@[(#[trigger] all@[q]) as int].name@) implies tops@.contains(
                all@[q],
            ) by {
                if q < i {
                    assert(before.contains(all@[q]));
                    let p = choose|p: int| 0 <= p < before.len() && before[p] == all@[q];
                    assert(tops@[p] == all@[q]);
                } else {
                    assert(tops@[before.len() as int] == k);
                }
            }
        }
        i = i + 1;
    }
    proof {
        assert forall|c: int| 0 <= c < layout.cells@.len() implies (tops@.contains(c as usize)
            <==> #[trigger] is_design_top(layout.cells@, c)) by {
            let name = layout.cells@[c].name@;
            if tops@.contains(c as usize) {
                let p = choose|p: int| 0 <= p < tops@.len() && tops@[p] == c as usize;
                let q = choose|q: int| 0 <= q < all@.len() && all@[q] == tops@[p];
                assert(all@[q] == c as usize);
                assert(all@.contains(c as usize));
            }
            if is_design_top(layout.cells@, c) {
                assert(all@.contains(c as usize));
                let q = choose|q: int| 0 <= q < all@.len() && all@[q] == c as usize;
                assert(tops@.contains(all@[q]));
            }
        }
    }
    tops
}

/// The cell that fill is written to: the first top cell of the design, `None`
/// if there is none.
pub fn fill_cell(layout: &Layout) -> (r: Option<usize>)
    ensures
        r matches Some(k) ==> k < layout.cells@.len() && is_design_top(layout.cells@, k as int) && forall|i: int|
            0 <= i < k ==> !#[trigger] is_design_top(layout.cells@, i),
        r is None ==> forall|i: int| 0 <= i < layout.cells@.len() ==> !#[trigger] is_design_top(layout.cells@, i),
{
    let m = layout.cells.len();
    let tops = design_tops(layout);
    if tops.len() == 0 {
        proof {
            assert forall|i: int| 0 <= i < layout.cells@.len() implies !#[trigger] is_design_top(layout.cells@, i) by {
                assert(!tops@.contains(i as usize));
            }
        }
        return None;
    }
    let k = tops[0];
    proof {
        assert(tops@[0] < layout.cells@.len());
        assert(tops@.contains((k as int) as usize));
        assert forall|i: int| 0 <= i < k implies !#[trigger] is_design_top(layout.cells@, i) by {
            if is_design_top(layout.cells@, i) {
                assert(tops@.contains(i as usize));
                let p = choose|p: int| 0 <= p < tops@.len() && tops@[p] == i as usize;
                if p > 0 {
                    assert(tops@[0] < tops@[p]);
                }
            }
        }
    }
    Some(k)
}

/// A coordinate is written as the nearest database unit, of two layout units, and
/// exactly where it is a whole number of them.
pub proof fn written_is_nearest(units: int)
    requires
        2 * i32::MIN <= units <= 2 * i32::MAX,
    ensures
        -1 <= 2 * written(units) - units <= 1,
        units % 2 == 0 ==> 2 * written(units) == units,
{
}

/// What is written is read back: a rectangle on whole database units is the box of
/// the element that it is written as, and has its corners.
pub proof fn written_rectangle_is_read_back(r: Rect)
    requires
        r.in_range(),
        r.x0 < r.x1,
        r.y0 < r.y1,
        r.x0 % 2 == 0 && r.y0 % 2 == 0 && r.x1 % 2 == 0 && r.y1 % 2 == 0,
    ensures
        ({
            let ring = closed_ring(placed_points(rect_points(r), Affine::identity()));
            is_box_ring(ring) && bounds(ring) == r
        }),
{
    let xy = rect_points(r);
    let placed = placed_points(xy, Affine::identity());
    written_is_nearest(r.x0 as int);
    written_is_nearest(r.y0 as int);
    written_is_nearest(r.x1 as int);
    written_is_nearest(r.y1 as int);
    identity_keeps_points(xy[0].0 as int, xy[0].1 as int);
    identity_keeps_points(xy[1].0 as int, xy[1].1 as int);
    identity_keeps_points(xy[2].0 as int, xy[2].1 as int);
    identity_keeps_points(xy[3].0 as int, xy[3].1 as int);
    assert(placed[0] == (Point { x: r.x0, y: r.y0 }));
    assert(placed[1] == (Point { x: r.x1, y: r.y0 }));
    assert(placed[2] == (Point { x: r.x1, y: r.y1 }));
    assert(placed[3] == (Point { x: r.x0, y: r.y1 }));
    assert(placed[4] == placed[0]);
    assert(is_box_ring(placed));
    box_bounds(placed);
}

/// What is written is read back: a polygon on whole database units is the ring of
/// the element that it is written as.
pub proof fn written_polygon_is_read_back(s: Shape)
    requires
        s.in_range(),
        s.exterior.len() > 0,
        s.exterior[0] == s.exterior.last(),
        forall|i: int| 0 <= i < s.exterior.len() ==> (#[trigger] s.exterior[i]).x % 2 == 0 && s.exterior[i].y % 2 == 0,
    ensures
        closed_ring(placed_points(poly_points(s), Affine::identity())) == s.exterior,
{
    let xy = poly_points(s);
    let placed = placed_points(xy, Affine::identity());
    assert forall|i: int| 0 <= i < s.exterior.len() implies placed[i] == s.exterior[i] by {
        let p = s.exterior[i];
        assert(p.in_range());
        assert(p.x % 2 == 0 && p.y % 2 == 0);
        written_is_nearest(p.x as int);
        written_is_nearest(p.y as int);
        identity_keeps_points(xy[i].0 as int, xy[i].1 as int);
    }
    assert(placed =~= s.exterior);
}

/// Fill goes to a cell of the design: one that nothing places and whose name does not
/// begin with two dollar signs.
pub proof fn context_cells_are_left_out(cells: Seq<Cell>, i: int)
    requires
        0 <= i < cells.len(),
    ensures
        is_design_top(cells, i) <==> is_top(cells, i) && !"$$"@.is_prefix_of(cells[i].name@),
{
    reveal_strlit("$$");
    top_is_not_placed(cells, i);
    let name = cells[i].name@;
    assert("$$"@.len() == 2 && "$$"@[0] == '$' && "$$"@[1] == '$');
    if "$$"@.is_prefix_of(name) {
        assert(name.take(2)[0] == '$' && name.take(2)[1] == '$');
    }
    if is_context_name(name) {
        assert(name.take(2) =~= "$$"@);
    }
}

/// Halves are written away from zero, and alike on both sides of it.
pub proof fn halves_are_written_away_from_zero(units: int)
    requires
        0 <= units <= 2 * i32::MAX,
    ensures
        units % 2 == 1 ==> 2 * written(units) == units + 1,
        written(-units) == -written(units),
{
}

} // verus!
