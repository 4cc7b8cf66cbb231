//! What a hierarchy of cells draws.

use crate::flatten::find_cell;
use crate::flatten::flat_cell;
use crate::flatten::flat_elem;
use crate::flatten::flat_elems;
use crate::flatten::flat_instances;
use crate::flatten::flat_tops;
use crate::flatten::on_key;
use crate::flatten::Drawn;
use crate::geom::Point;
use crate::geom::Shape;
use crate::layout::ArrayRef;
use crate::layout::Cell;
use crate::layout::Element;
use crate::path::path_shapes;
use crate::transform::instance_count;
use crate::transform::instance_placing;
use crate::transform::nth_instance;
use crate::transform::Affine;
use vstd::arithmetic::div_mod::lemma_fundamental_div_mod;
use vstd::arithmetic::div_mod::lemma_fundamental_div_mod_converse;
use vstd::prelude::*;

verus! {

/// Cell `k` is the last one of the name.
pub open spec fn is_last_named(cells: Seq<Cell>, k: int, name: Seq<char>) -> bool {
    &&& 0 <= k < cells.len()
    &&& cells[k].name@ == name
    &&& forall|j: int| k < j < cells.len() ==> (#[trigger] cells[j]).name@ != name
}

/// The ring runs through the points, taken through the transform, and ends where
/// it starts.
pub open spec fn is_outline_of(ring: Seq<Point>, xy: Seq<(i32, i32)>, t: Affine) -> bool {
    &&& xy.len() <= ring.len() <= xy.len() + 1
    &&& forall|i: int|
        0 <= i < xy.len() ==> (#[trigger] ring[i]).x == t.point(xy[i].0 as int, xy[i].1 as int).0 as i64 && ring[i].y
            == t.point(xy[i].0 as int, xy[i].1 as int).1 as i64
    &&& ring.len() > 0 ==> ring[0] == ring.last()
    &&& ring.len() == xy.len() + 1 ==> xy.len() > 0 && ring[xy.len() - 1] != ring[0]
}

/// The element, under transform `t`, draws `d`.
pub open spec fn elem_draws(cells: Seq<Cell>, e: Element, t: Affine, depth: int, d: Drawn) -> bool
    decreases depth, 0int,
{
    match e {
        Element::Boundary(b) => d.key == (b.layer, b.datatype) && d.shape.holes == Seq::<Seq<Point>>::empty()
            && is_outline_of(d.shape.exterior, b.xy@, t),
        Element::Path(p) => d.key == (p.layer, p.datatype) && path_shapes(p, t).contains(d.shape),
        Element::StructRef(r) => depth > 0 && exists|k: int| #[trigger]
            is_last_named(cells, k, r.name@) && cell_draws(
                cells,
                k,
                t.after(Affine::placing(r.strans, r.xy.0 * 0x1_0000_0000, r.xy.1 * 0x1_0000_0000)),
                depth - 1,
                d,
            ),
        Element::ArrayRef(a) => depth > 0 && exists|k: int, col: int, row: int| #[trigger]
            is_last_named(cells, k, a.name@) && #[trigger] is_instance(a, col, row) && cell_draws(
                cells,
                k,
                t.after(instance_placing(a, col, row)),
                depth - 1,
                d,
            ),
        Element::Other => false,
    }
}

/// Cell `c`, under transform `t`, draws `d`: one of its elements does, itself or
/// through the cells that it places.
pub open spec fn cell_draws(cells: Seq<Cell>, c: int, t: Affine, depth: int, d: Drawn) -> bool
    decreases depth, 1int,
{
    exists|e: int| #[trigger] is_elem(cells, c, e) && elem_draws(cells, cells[c].elems@[e], t, depth, d)
}

/// The array has an instance in this column and row.
pub open spec fn is_instance(a: ArrayRef, col: int, row: int) -> bool {
    0 <= col < a.cols && 0 <= row < a.rows
}

/// Cell `c` has an element at position `e`.
pub open spec fn is_elem(cells: Seq<Cell>, c: int, e: int) -> bool {
    0 <= e < cells[c].elems@.len()
}

/// No element places the cell.
pub open spec fn is_top(cells: Seq<Cell>, c: int) -> bool {
    forall|b: int, e: int|
        0 <= b < cells.len() && 0 <= e < cells[b].elems@.len() ==> match #[trigger] cells[b].elems@[e] {
            Element::StructRef(r) => r.name@ != cells[c].name@,
            Element::ArrayRef(a) => a.name@ != cells[c].name@,
            _ => true,
        }
}

proof fn last_is_found(cells: Seq<Cell>, name: Seq<char>, n: int)
    requires
        0 <= n <= cells.len(),
    ensures
        find_cell(cells, name, n) matches Some(k) ==> 0 <= k < n && cells[k].name@ == name && forall|j: int|
            k < j < n ==> (#[trigger] cells[j]).name@ != name,
        find_cell(cells, name, n) is None ==> forall|j: int| 0 <= j < n ==> (#[trigger] cells[j]).name@ != name,
    decreases n,
{
    if n > 0 {
        last_is_found(cells, name, n - 1);
    }
}

proof fn found_is_last(cells: Seq<Cell>, name: Seq<char>, k: int)
    ensures
        is_last_named(cells, k, name) <==> find_cell(cells, name, cells.len() as int) == Some(k),
{
    last_is_found(cells, name, cells.len() as int);
    if is_last_named(cells, k, name) {
        assert(cells[k].name@ == name);
        let j = find_cell(cells, name, cells.len() as int)->0;
        assert(j == k) by {
            if j < k {
                assert(cells[k].name@ != name);
            } else if k < j {
                assert(cells[j].name@ != name);
            }
        }
    }
}

proof fn joined_holds(a: Seq<Drawn>, b: Seq<Drawn>, d: Drawn)
    ensures
        (a + b).contains(d) <==> a.contains(d) || b.contains(d),
{
    let all = a + b;
    if a.contains(d) {
        let i = choose|i: int| 0 <= i < a.len() && a[i] == d;
        assert(all[i] == d);
    }
    if b.contains(d) {
        let i = choose|i: int| 0 <= i < b.len() && b[i] == d;
        assert(all[a.len() + i] == d);
    }
    if all.contains(d) {
        let i = choose|i: int| 0 <= i < all.len() && all[i] == d;
        if i < a.len() {
            assert(a[i] == d);
        } else {
            assert(b[i - a.len()] == d);
        }
    }
}

proof fn elem_list_is_drawn(cells: Seq<Cell>, c: int, n: int, t: Affine, depth: int, d: Drawn)
    requires
        flat_elems(cells, None, c, n, t, depth) is Ok,
        0 <= n <= cells[c].elems@.len(),
    ensures
        flat_elems(cells, None, c, n, t, depth)->Ok_0.contains(d) <==> exists|e: int|
            0 <= e < n && #[trigger] is_elem(cells, c, e) && elem_draws(cells, cells[c].elems@[e], t, depth, d),
    decreases depth, 3int, n,
{
    if n > 0 {
        let last = cells[c].elems@[n - 1];
        elem_list_is_drawn(cells, c, n - 1, t, depth, d);
        elem_is_drawn(cells, last, t, depth, d);
        let (a, b) = (
            flat_elems(cells, None, c, n - 1, t, depth)->Ok_0,
            flat_elem(cells, None, last, t, depth)->Ok_0,
        );
        joined_holds(a, b, d);
        assert(is_elem(cells, c, n - 1));
    }
}

proof fn cell_is_drawn(cells: Seq<Cell>, c: int, t: Affine, depth: int, d: Drawn)
    requires
        flat_cell(cells, None, c, t, depth) is Ok,
    ensures
        flat_cell(cells, None, c, t, depth)->Ok_0.contains(d) <==> cell_draws(cells, c, t, depth, d),
    decreases depth, 4int, 0int,
{
    elem_list_is_drawn(cells, c, cells[c].elems@.len() as int, t, depth, d);
}

proof fn instances_are_drawn(
    cells: Seq<Cell>,
    a: ArrayRef,
    child: int,
    t: Affine,
    k: int,
    depth: int,
    d: Drawn,
)
    requires
        flat_instances(cells, None, a, child, t, k, depth) is Ok,
        0 <= k,
        k > 0 ==> depth > 0,
    ensures
        flat_instances(cells, None, a, child, t, k, depth)->Ok_0.contains(d) <==> exists|i: int|
            0 <= i < k && #[trigger] cell_draws(cells, child, nth_instance(a, t, i), depth - 1, d),
    decreases depth, 1int, k,
{
    if k > 0 {
        let last = nth_instance(a, t, k - 1);
        instances_are_drawn(cells, a, child, t, k - 1, depth, d);
        cell_is_drawn(cells, child, last, depth - 1, d);
        let (x, y) = (
            flat_instances(cells, None, a, child, t, k - 1, depth)->Ok_0,
            flat_cell(cells, None, child, last, depth - 1)->Ok_0,
        );
        joined_holds(x, y, d);
        if y.contains(d) {
            assert(cell_draws(cells, child, nth_instance(a, t, k - 1), depth - 1, d));
        }
    }
}

proof fn outline_is_unique(ring: Seq<Point>, xy: Seq<(i32, i32)>, t: Affine)
    ensures
        is_outline_of(ring, xy, t) <==> ring == crate::geom::closed_ring(crate::path::placed_points(xy, t)),
{
    let placed = crate::path::placed_points(xy, t);
    let closed = crate::geom::closed_ring(placed);
    if is_outline_of(ring, xy, t) {
        assert forall|i: int| 0 <= i < xy.len() implies ring[i] == placed[i] by {}
        if ring.len() == xy.len() {
            assert(ring =~= placed);
        } else {
            assert(ring =~= placed.push(placed[0]));
        }
    }
}

proof fn elem_is_drawn(cells: Seq<Cell>, e: Element, t: Affine, depth: int, d: Drawn)
    requires
        flat_elem(cells, None, e, t, depth) is Ok,
    ensures
        flat_elem(cells, None, e, t, depth)->Ok_0.contains(d) <==> elem_draws(cells, e, t, depth, d),
    decreases depth, 2int, 0int,
{
    let out = flat_elem(cells, None, e, t, depth)->Ok_0;
    match e {
        Element::Boundary(b) => {
            outline_is_unique(d.shape.exterior, b.xy@, t);
            let ring = crate::geom::closed_ring(crate::path::placed_points(b.xy@, t));
            let shape = Shape { exterior: ring, holes: Seq::empty() };
            let one = Drawn { key: (b.layer, b.datatype), shape };
            assert(out == seq![one]);
            assert(out[0] == one);
            if elem_draws(cells, e, t, depth, d) {
                assert(d.shape == shape);
                assert(d == one);
            }
            if out.contains(d) {
                assert(d == one);
                assert(elem_draws(cells, e, t, depth, d));
            }
        },
        Element::Path(p) => {
            let shapes = path_shapes(p, t);
            let all = on_key((p.layer, p.datatype), shapes);
            if shapes.contains(d.shape) && d.key == (p.layer, p.datatype) {
                let i = choose|i: int| 0 <= i < shapes.len() && shapes[i] == d.shape;
                assert(all[i] == d);
            }
            if all.contains(d) {
                let i = choose|i: int| 0 <= i < all.len() && all[i] == d;
                assert(shapes[i] == d.shape);
            }
        },
        Element::StructRef(r) => {
            let placing = Affine::placing(r.strans, r.xy.0 * 0x1_0000_0000, r.xy.1 * 0x1_0000_0000);
            let found = find_cell(cells, r.name@, cells.len() as int);
            assert forall|k: int| #[trigger] is_last_named(cells, k, r.name@) <==> found == Some(k) by {
                found_is_last(cells, r.name@, k);
            }
            if let Some(child) = found {
                assert(is_last_named(cells, child, r.name@));
                cell_is_drawn(cells, child, t.after(placing), depth - 1, d);
            }
        },
        Element::ArrayRef(a) => {
            let found = find_cell(cells, a.name@, cells.len() as int);
            assert forall|k: int| #[trigger] is_last_named(cells, k, a.name@) <==> found == Some(k) by {
                found_is_last(cells, a.name@, k);
            }
            if let Some(child) = found {
                assert(is_last_named(cells, child, a.name@));
                let count = instance_count(a);
                if count > 0 {
                    array_is_drawn(cells, a, child, t, depth, d);
                } else {
                    assert(a.cols <= 0 || a.rows <= 0) by (nonlinear_arith)
                        requires
                            a.cols > 0 && a.rows > 0 ==> a.cols * a.rows <= 0,
                    ;
                }
            }
        },
        Element::Other => {},
    }
}

proof fn array_is_drawn(cells: Seq<Cell>, a: ArrayRef, child: int, t: Affine, depth: int, d: Drawn)
    requires
        flat_instances(cells, None, a, child, t, instance_count(a), depth) is Ok,
        instance_count(a) > 0,
        depth > 0,
    ensures
        flat_instances(cells, None, a, child, t, instance_count(a), depth)->Ok_0.contains(d) <==> exists|
            col: int,
            row: int,
        |
            #[trigger] is_instance(a, col, row) && cell_draws(
                cells,
                child,
                t.after(instance_placing(a, col, row)),
                depth - 1,
                d,
            ),
    decreases depth, 1int, instance_count(a) + 1,
{
    let count = instance_count(a);
    let rows = a.rows as int;
    let cols = a.cols as int;
    instances_are_drawn(cells, a, child, t, count, depth, d);
    if exists|i: int| 0 <= i < count && #[trigger] cell_draws(cells, child, nth_instance(a, t, i), depth - 1, d) {
        let i = choose|i: int| 0 <= i < count && #[trigger] cell_draws(cells, child, nth_instance(a, t, i), depth - 1, d);
        let (col, row) = (i / rows, i % rows);
        lemma_fundamental_div_mod(i, rows);
        assert(0 <= col < cols) by (nonlinear_arith)
            requires
                i == rows * col + row,
                0 <= row < rows,
                0 <= i < cols * rows,
        ;
        assert(is_instance(a, col, row));
        assert(cell_draws(cells, child, t.after(instance_placing(a, col, row)), depth - 1, d));
    }
    if exists|col: int, row: int| #[trigger]
        is_instance(a, col, row) && cell_draws(
            cells,
            child,
            t.after(instance_placing(a, col, row)),
            depth - 1,
            d,
        ) {
        let (col, row) = choose|col: int, row: int| #[trigger]
            is_instance(a, col, row) && cell_draws(
                cells,
                child,
                t.after(instance_placing(a, col, row)),
                depth - 1,
                d,
            );
        let i = col * rows + row;
        assert(0 <= i < cols * rows) by (nonlinear_arith)
            requires
                i == col * rows + row,
                0 <= row < rows,
                0 <= col < cols,
        ;
        lemma_fundamental_div_mod_converse(i, rows, col, row);
        assert(nth_instance(a, t, i) == t.after(instance_placing(a, col, row)));
        assert(cell_draws(cells, child, nth_instance(a, t, i), depth - 1, d));
    }
}

/// No element places a top cell.
pub proof fn top_is_not_placed(cells: Seq<Cell>, c: int)
    requires
        0 <= c < cells.len(),
    ensures
        is_top(cells, c) <==> !crate::flatten::is_placed(cells, cells[c].name@),
{
    let name = cells[c].name@;
    if !is_top(cells, c) {
        let (b, e) = choose|b: int, e: int|
            0 <= b < cells.len() && 0 <= e < cells[b].elems@.len() && !match #[trigger] cells[b].elems@[e] {
                Element::StructRef(r) => r.name@ != name,
                Element::ArrayRef(a) => a.name@ != name,
                _ => true,
            };
        assert(cells[b].elems@[e].target() == Some(name));
    }
    if crate::flatten::is_placed(cells, name) {
        let (b, e) = choose|b: int, e: int|
            0 <= b < cells.len() && 0 <= e < cells[b].elems@.len() && (#[trigger] cells[b].elems@[e]).target() == Some(
                name,
            );
        assert(cells[b].elems@[e].target() == Some(name));
    }
}

proof fn tops_are_drawn(cells: Seq<Cell>, n: int, d: Drawn)
    requires
        0 <= n <= cells.len(),
        flat_tops(cells, None, n) is Ok,
    ensures
        flat_tops(cells, None, n)->Ok_0.contains(d) <==> exists|c: int|
            0 <= c < n && is_top(cells, c) && #[trigger] cell_draws(
                cells,
                c,
                Affine::identity(),
                cells.len() as int,
                d,
            ),
    decreases n,
{
    if n > 0 {
        tops_are_drawn(cells, n - 1, d);
        top_is_not_placed(cells, n - 1);
        if is_top(cells, n - 1) {
            cell_is_drawn(cells, n - 1, Affine::identity(), cells.len() as int, d);
            joined_holds(
                flat_tops(cells, None, n - 1)->Ok_0,
                flat_cell(cells, None, n - 1, Affine::identity(), cells.len() as int)->Ok_0,
                d,
            );
        }
    }
}

/// A layout draws what its top cells draw: a shape is drawn exactly if a chain of
/// placements, each one carried by those above it and every instance of an array
/// among them, leads from a cell that nothing places to its element.
pub proof fn layout_draws_what_its_tops_draw(cells: Seq<Cell>, d: Drawn)
    requires
        flat_tops(cells, None, cells.len() as int) is Ok,
    ensures
        flat_tops(cells, None, cells.len() as int)->Ok_0.contains(d) <==> exists|c: int|
            0 <= c < cells.len() && is_top(cells, c) && #[trigger] cell_draws(
                cells,
                c,
                Affine::identity(),
                cells.len() as int,
                d,
            ),
{
    tops_are_drawn(cells, cells.len() as int, d);
}

/// Every cell of the set places a cell of the set.
pub open spec fn goes_round(cells: Seq<Cell>, round: Set<int>) -> bool {
    forall|c: int| #[trigger]
        round.contains(c) ==> 0 <= c < cells.len() && exists|e: int, k: int| #[trigger] places_cell(cells, c, e, k)
            && round.contains(k)
}

/// Element `e` of cell `c` places cell `k`.
pub open spec fn places_cell(cells: Seq<Cell>, c: int, e: int, k: int) -> bool {
    &&& is_elem(cells, c, e)
    &&& cells[c].elems@[e] matches Element::StructRef(r) && is_last_named(cells, k, r.name@)
}

proof fn error_stays(cells: Seq<Cell>, c: int, e: int, n: int, t: Affine, depth: int)
    requires
        0 <= e < n <= cells[c].elems@.len(),
        flat_elem(cells, None, cells[c].elems@[e], t, depth) is Err,
    ensures
        flat_elems(cells, None, c, n, t, depth) is Err,
    decreases n,
{
    if e < n - 1 {
        error_stays(cells, c, e, n - 1, t, depth);
    }
}

/// Cells that place each other in a round cannot be flattened, wherever they are
/// placed and however deep.
pub proof fn rounds_are_refused(cells: Seq<Cell>, round: Set<int>, c: int, t: Affine, depth: int)
    requires
        goes_round(cells, round),
        round.contains(c),
    ensures
        flat_cell(cells, None, c, t, depth) is Err,
    decreases depth,
{
    let (e, k) = choose|e: int, k: int| #[trigger] places_cell(cells, c, e, k) && round.contains(k);
    assert(places_cell(cells, c, e, k));
    let elem = cells[c].elems@[e];
    if let Element::StructRef(r) = elem {
        found_is_last(cells, r.name@, k);
        let placing = Affine::placing(r.strans, r.xy.0 * 0x1_0000_0000, r.xy.1 * 0x1_0000_0000);
        if depth > 0 {
            rounds_are_refused(cells, round, k, t.after(placing), depth - 1);
        }
        assert(flat_elem(cells, None, elem, t, depth) is Err);
        error_stays(cells, c, e, cells[c].elems@.len() as int, t, depth);
    }
}

} // verus!
