//! Flattening of the cell hierarchy.

use crate::geom::close_ring;
use crate::geom::closed_ring;
use crate::geom::shapes_in_range;
use crate::geom::shapes_of;
use crate::geom::Polygon;
use crate::geom::Shape;
use crate::layout::lists_pair;
use crate::layout::ArrayRef;
use crate::layout::Cell;
use crate::layout::Element;
use crate::layout::Layout;
use crate::layout::LayoutError;
use crate::names::same_name;
use crate::path::draw_path;
use crate::path::path_fits;
use crate::path::path_shapes;
use crate::path::place_points;
use crate::path::placed_points;
use crate::transform::aref_instance_transforms;
use crate::transform::instance_count;
use crate::transform::instances_valid;
use crate::transform::nth_instance;
use crate::transform::Affine;
use crate::transform::AffineTransform;
use crate::transform::FIX;
use vstd::prelude::*;

verus! {

/// A shape on a layer and datatype.
pub struct Drawn {
    pub key: (i16, i16),
    pub shape: Shape,
}

/// A polygon on a layer and datatype.
#[derive(Debug)]
pub struct DrawnPolygon {
    pub key: (i16, i16),
    pub poly: Polygon,
}

impl View for DrawnPolygon {
    type V = Drawn;

    open spec fn view(&self) -> Drawn {
        Drawn { key: self.key, shape: self.poly@ }
    }
}

/// The shapes of a list of drawn polygons.
pub open spec fn drawn_of(list: Seq<DrawnPolygon>) -> Seq<Drawn> {
    list.map_values(|d: DrawnPolygon| d@)
}

/// The last of the first `n` cells with the given name.
pub open spec fn find_cell(cells: Seq<Cell>, name: Seq<char>, n: int) -> Option<int>
    decreases n,
{
    if n <= 0 {
        None
    } else if cells[n - 1].name@ == name {
        Some(n - 1)
    } else {
        find_cell(cells, name, n - 1)
    }
}

/// The key is wanted.
pub open spec fn is_wanted(needed: Option<Seq<(i16, i16)>>, key: (i16, i16)) -> bool {
    needed matches Some(n) ==> n.contains(key)
}

/// Two results one after the other; the first error wins.
pub open spec fn join(
    a: Result<Seq<Drawn>, LayoutError>,
    b: Result<Seq<Drawn>, LayoutError>,
) -> Result<Seq<Drawn>, LayoutError> {
    match (a, b) {
        (Ok(x), Ok(y)) => Ok(x + y),
        (Ok(_), Err(e)) => Err(e),
        (Err(e), _) => Err(e),
    }
}

/// The shapes on one key.
pub open spec fn on_key(key: (i16, i16), shapes: Seq<Shape>) -> Seq<Drawn> {
    shapes.map_values(|s: Shape| Drawn { key, shape: s })
}

/// What the first `n` elements of cell `c` draw under transform `t`.  Cells
/// nest at most `depth` deep.
pub open spec fn flat_elems(
    cells: Seq<Cell>,
    needed: Option<Seq<(i16, i16)>>,
    c: int,
    n: int,
    t: Affine,
    depth: int,
) -> Result<Seq<Drawn>, LayoutError>
    decreases depth, 3int, n,
{
    if n <= 0 {
        Ok(Seq::empty())
    } else {
        join(
            flat_elems(cells, needed, c, n - 1, t, depth),
            flat_elem(cells, needed, cells[c].elems@[n - 1], t, depth),
        )
    }
}

/// What cell `c` draws under transform `t`.
pub open spec fn flat_cell(
    cells: Seq<Cell>,
    needed: Option<Seq<(i16, i16)>>,
    c: int,
    t: Affine,
    depth: int,
) -> Result<Seq<Drawn>, LayoutError>
    decreases depth, 4int, 0int,
{
    flat_elems(cells, needed, c, cells[c].elems@.len() as int, t, depth)
}

/// What one element draws under transform `t`.
pub open spec fn flat_elem(
    cells: Seq<Cell>,
    needed: Option<Seq<(i16, i16)>>,
    e: Element,
    t: Affine,
    depth: int,
) -> Result<Seq<Drawn>, LayoutError>
    decreases depth, 2int, 0int,
{
    match e {
        Element::Boundary(b) => {
            let key = (b.layer, b.datatype);
            let shape = Shape { exterior: closed_ring(placed_points(b.xy@, t)), holes: Seq::empty() };
            if !is_wanted(needed, key) {
                Ok(Seq::empty())
            } else if shape.in_range() {
                Ok(seq![Drawn { key, shape }])
            } else {
                Err(LayoutError::OutOfRange)
            }
        },
        Element::Path(p) => {
            let key = (p.layer, p.datatype);
            if !is_wanted(needed, key) {
                Ok(Seq::empty())
            } else if path_fits(p, t) && shapes_in_range(path_shapes(p, t)) {
                Ok(on_key(key, path_shapes(p, t)))
            } else {
                Err(LayoutError::OutOfRange)
            }
        },
        Element::StructRef(r) => {
            let placing = Affine::placing(r.strans, r.xy.0 * FIX, r.xy.1 * FIX);
            match find_cell(cells, r.name@, cells.len() as int) {
                None => Ok(Seq::empty()),
                Some(child) => if !placing.valid() || !t.after(placing).valid() {
                    Err(LayoutError::OutOfRange)
                } else if depth <= 0 {
                    Err(LayoutError::Recursion)
                } else {
                    flat_cell(cells, needed, child, t.after(placing), depth - 1)
                },
            }
        },
        Element::ArrayRef(a) => {
            match find_cell(cells, a.name@, cells.len() as int) {
                None => Ok(Seq::empty()),
                Some(child) => if !instances_valid(a, t) {
                    Err(LayoutError::OutOfRange)
                } else {
                    flat_instances(cells, needed, a, child, t, instance_count(a), depth)
                },
            }
        },
        Element::Other => Ok(Seq::empty()),
    }
}

/// What the first `k` instances of an array draw under transform `t`.
pub open spec fn flat_instances(
    cells: Seq<Cell>,
    needed: Option<Seq<(i16, i16)>>,
    a: ArrayRef,
    child: int,
    t: Affine,
    k: int,
    depth: int,
) -> Result<Seq<Drawn>, LayoutError>
    decreases depth, 1int, k,
{
    if k <= 0 {
        Ok(Seq::empty())
    } else if depth <= 0 {
        Err(LayoutError::Recursion)
    } else {
        join(
            flat_instances(cells, needed, a, child, t, k - 1, depth),
            flat_cell(cells, needed, child, nth_instance(a, t, k - 1), depth - 1),
        )
    }
}

/// Some element of the layout places a cell of the given name.
pub open spec fn is_placed(cells: Seq<Cell>, name: Seq<char>) -> bool {
    exists|c: int, e: int|
        0 <= c < cells.len() && 0 <= e < cells[c].elems@.len() && (#[trigger] cells[c].elems@[e]).target() == Some(name)
}

/// What the top cells among the first `n` cells draw: those that no element
/// places.
pub open spec fn flat_tops(cells: Seq<Cell>, needed: Option<Seq<(i16, i16)>>, n: int) -> Result<
    Seq<Drawn>,
    LayoutError,
>
    decreases n,
{
    if n <= 0 {
        Ok(Seq::empty())
    } else if is_placed(cells, cells[n - 1].name@) {
        flat_tops(cells, needed, n - 1)
    } else {
        join(
            flat_tops(cells, needed, n - 1),
            flat_cell(cells, needed, n - 1, Affine::identity(), cells.len() as int),
        )
    }
}

/// The cell that each element of each cell places, if there is one.
pub struct Targets {
    table: Vec<Vec<Option<usize>>>,
}

/// The cell that an element places.
pub open spec fn target_of(cells: Seq<Cell>, e: Element) -> Option<int> {
    match e.target() {
        Some(name) => find_cell(cells, name, cells.len() as int),
        None => None,
    }
}

/// `k` is the optional position `p`.
spec fn same_position(k: Option<usize>, p: Option<int>) -> bool {
    match (k, p) {
        (Some(a), Some(b)) => a == b,
        (None, None) => true,
        _ => false,
    }
}

impl Targets {
    spec fn row_right(cells: Seq<Cell>, row: Seq<Option<usize>>, c: int, n: int) -> bool {
        &&& row.len() == n
        &&& forall|e: int|
            0 <= e < n ==> same_position(#[trigger] row[e], target_of(cells, cells[c].elems@[e]))
    }

    /// The table is that of the layout.
    pub closed spec fn right(self, cells: Seq<Cell>) -> bool {
        &&& self.table@.len() == cells.len()
        &&& forall|c: int|
            0 <= c < cells.len() ==> Self::row_right(
                cells,
                (#[trigger] self.table@[c])@,
                c,
                cells[c].elems@.len() as int,
            )
    }
}

proof fn found_cell_exists(cells: Seq<Cell>, name: Seq<char>, n: int)
    requires
        0 <= n <= cells.len(),
    ensures
        find_cell(cells, name, n) matches Some(k) ==> 0 <= k < n && cells[k].name@ == name,
        find_cell(cells, name, n) is None ==> forall|k: int| 0 <= k < n ==> (#[trigger] cells[k]).name@ != name,
    decreases n,
{
    if n > 0 {
        found_cell_exists(cells, name, n - 1);
    }
}

/// The last cell with the given name.
pub fn look_up(cells: &Vec<Cell>, name: &str) -> (p: Option<usize>)
    ensures
        p is Some <==> find_cell(cells@, name@, cells@.len() as int) is Some,
        p matches Some(k) ==> find_cell(cells@, name@, cells@.len() as int) == Some(k as int) && k < cells@.len(),
{
    let mut n = cells.len();
    while n > 0
        invariant
            n <= cells@.len(),
            find_cell(cells@, name@, cells@.len() as int) == find_cell(cells@, name@, n as int),
        decreases n,
    {
        if same_name(cells[n - 1].name.as_str(), name) {
            return Some(n - 1);
        }
        n = n - 1;
    }
    None
}

/// Look up the targets of all elements.
fn resolve(cells: &Vec<Cell>) -> (t: Targets)
    ensures
        t.right(cells@),
{
    let mut table: Vec<Vec<Option<usize>>> = Vec::new();
    let mut c: usize = 0;
    while c < cells.len()
        invariant
            c <= cells@.len(),
            table@.len() == c,
            forall|b: int|
                0 <= b < c ==> Targets::row_right(
                    cells@,
                    (#[trigger] table@[b])@,
                    b,
                    cells@[b].elems@.len() as int,
                ),
        decreases cells@.len() - c,
    {
        let mut row: Vec<Option<usize>> = Vec::new();
        let n = cells[c].elems.len();
        let mut e: usize = 0;
        while e < n
            invariant
                c < cells@.len(),
                n == cells@[c as int].elems@.len(),
                e <= n,
                Targets::row_right(cells@, row@, c as int, e as int),
            decreases n - e,
        {
            let k = match &cells[c].elems[e] {
                Element::StructRef(r) => look_up(cells, r.name.as_str()),
                Element::ArrayRef(r) => look_up(cells, r.name.as_str()),
                _ => None,
            };
            row.push(k);
            e = e + 1;
        }
        table.push(row);
        c = c + 1;
    }
    Targets { table }
}

/// A closed polygon from points in database units.
fn place_boundary(xy: &Vec<(i32, i32)>, t: &AffineTransform) -> (p: Polygon)
    requires
        t@.valid(),
    ensures
        p@ == (Shape { exterior: closed_ring(placed_points(xy@, t@)), holes: Seq::empty() }),
{
    let pts = place_points(xy, t);
    let p = Polygon { exterior: close_ring(pts), holes: Vec::new() };
    assert(p@.holes =~= Seq::empty());
    p
}

/// The wanted keys.
pub open spec fn wanted_keys(needed: &Option<Vec<(i16, i16)>>) -> Option<Seq<(i16, i16)>> {
    match needed {
        Some(v) => Some(v@),
        None => None,
    }
}

/// Is the key wanted?
fn test_wanted(needed: &Option<Vec<(i16, i16)>>, key: (i16, i16)) -> (b: bool)
    ensures
        b == is_wanted(wanted_keys(needed), key),
{
    match needed {
        Some(v) => lists_pair(v, key),
        None => true,
    }
}

/// `out` is `start` followed by what was drawn, unless there was an error.
pub open spec fn extends(
    start: Seq<DrawnPolygon>,
    out: Seq<DrawnPolygon>,
    drawn: Result<Seq<Drawn>, LayoutError>,
    r: Result<(), LayoutError>,
) -> bool {
    match (drawn, r) {
        (Ok(s), Ok(())) => drawn_of(out) == drawn_of(start) + s,
        (Err(e), Err(f)) => e == f,
        _ => false,
    }
}

/// Every drawn polygon is in range.
pub open spec fn drawn_in_range(list: Seq<DrawnPolygon>) -> bool {
    forall|i: int| 0 <= i < list.len() ==> (#[trigger] list[i])@.shape.in_range()
}

/// Append what one element draws.
fn draw_elem(
    cells: &Vec<Cell>,
    targets: &Targets,
    needed: &Option<Vec<(i16, i16)>>,
    c: usize,
    e: usize,
    t: &AffineTransform,
    depth: usize,
    out: &mut Vec<DrawnPolygon>,
) -> (r: Result<(), LayoutError>)
    requires
        targets.right(cells@),
        c < cells@.len(),
        e < cells@[c as int].elems@.len(),
        t@.valid(),
        drawn_in_range(old(out)@),
    ensures
        drawn_in_range(final(out)@),
        extends(
            old(out)@,
            final(out)@,
            flat_elem(cells@, wanted_keys(needed), cells@[c as int].elems@[e as int], t@, depth as int),
            r,
        ),
    decreases depth, 2int, 0int,
{
    let ghost start = out@;
    let ghost keys = wanted_keys(needed);
    assert(Targets::row_right(cells@, targets.table@[c as int]@, c as int, cells@[c as int].elems@.len() as int));
    assert(same_position(
        targets.table@[c as int]@[e as int],
        target_of(cells@, cells@[c as int].elems@[e as int]),
    ));
    match &cells[c].elems[e] {
        Element::Boundary(b) => {
            let key = (b.layer, b.datatype);
            if !test_wanted(needed, key) {
                assert(drawn_of(out@) =~= drawn_of(start) + Seq::empty());
                return Ok(());
            }
            let poly = place_boundary(&b.xy, t);
            if !poly.check() {
                return Err(LayoutError::OutOfRange);
            }
            out.push(DrawnPolygon { key, poly });
            assert(drawn_of(out@) =~= drawn_of(start) + seq![out@[start.len() as int]@]);
            Ok(())
        },
        Element::Path(p) => {
            let key = (p.layer, p.datatype);
            if !test_wanted(needed, key) {
                assert(drawn_of(out@) =~= drawn_of(start) + Seq::empty());
                return Ok(());
            }
            match draw_path(p, t) {
                Some(polys) => {
                    append_on_key(out, key, &polys);
                    Ok(())
                },
                None => Err(LayoutError::OutOfRange),
            }
        },
        Element::StructRef(r) => {
            let child = match targets.table[c][e] {
                Some(k) => k,
                None => {
                    assert(drawn_of(out@) =~= drawn_of(start) + Seq::empty());
                    return Ok(());
                },
            };
            proof {
                found_cell_exists(cells@, r.name@, cells@.len() as int);
            }
            let placing = AffineTransform::from_sref(r);
            if !placing.check() {
                return Err(LayoutError::OutOfRange);
            }
            match t.compose(&placing) {
                Some(u) => {
                    if depth == 0 {
                        return Err(LayoutError::Recursion);
                    }
                    draw_cell(cells, targets, needed, child, &u, depth - 1, out)
                },
                None => Err(LayoutError::OutOfRange),
            }
        },
        Element::ArrayRef(a) => {
            let child = match targets.table[c][e] {
                Some(k) => k,
                None => {
                    assert(drawn_of(out@) =~= drawn_of(start) + Seq::empty());
                    return Ok(());
                },
            };
            proof {
                found_cell_exists(cells@, a.name@, cells@.len() as int);
            }
            let instances = match aref_instance_transforms(a, t) {
                Some(v) => v,
                None => {
                    return Err(LayoutError::OutOfRange);
                },
            };
            let mut k: usize = 0;
            assert(drawn_of(out@) =~= drawn_of(start) + Seq::empty());
            while k < instances.len()
                invariant
                    targets.right(cells@),
                    child < cells@.len(),
                    keys == wanted_keys(needed),
                    k <= instances@.len(),
                    instances@.len() == instance_count(*a),
                    k > 0 ==> depth > 0,
                    forall|i: int|
                        0 <= i < instances@.len() ==> (#[trigger] instances@[i])@ == nth_instance(*a, t@, i)
                            && instances@[i]@.valid(),
                    drawn_in_range(out@),
                    extends(
                        start,
                        out@,
                        flat_instances(cells@, keys, *a, child as int, t@, k as int, depth as int),
                        Ok(()),
                    ),
                    flat_elem(cells@, keys, cells@[c as int].elems@[e as int], t@, depth as int) == flat_instances(
                        cells@,
                        keys,
                        *a,
                        child as int,
                        t@,
                        instances@.len() as int,
                        depth as int,
                    ),
                decreases instances@.len() - k,
            {
                if depth == 0 {
                    return Err(LayoutError::Recursion);
                }
                match draw_cell(cells, targets, needed, child, &instances[k], depth - 1, out) {
                    Ok(()) => {
                        proof {
                            let s = flat_instances(cells@, keys, *a, child as int, t@, k as int, depth as int)->Ok_0;
                            let d = flat_cell(cells@, keys, child as int, nth_instance(*a, t@, k as int), depth - 1)->Ok_0;
                            assert(drawn_of(out@) =~= drawn_of(start) + (s + d));
                        }
                    },
                    Err(f) => {
                        proof {
                            instances_keep_error(
                                cells@,
                                keys,
                                *a,
                                child as int,
                                t@,
                                k + 1,
                                instances@.len() as int,
                                depth as int,
                                f,
                            );
                        }
                        return Err(f);
                    },
                }
                k = k + 1;
            }
            Ok(())
        },
        Element::Other => {
            assert(drawn_of(out@) =~= drawn_of(start) + Seq::empty());
            Ok(())
        },
    }
}

/// An error in the first `m` instances is that of all of them.
proof fn instances_keep_error(
    cells: Seq<Cell>,
    needed: Option<Seq<(i16, i16)>>,
    a: ArrayRef,
    child: int,
    t: Affine,
    m: int,
    n: int,
    depth: int,
    e: LayoutError,
)
    requires
        0 <= m <= n,
        depth > 0,
        flat_instances(cells, needed, a, child, t, m, depth) == Err::<Seq<Drawn>, LayoutError>(e),
    ensures
        flat_instances(cells, needed, a, child, t, n, depth) == Err::<Seq<Drawn>, LayoutError>(e),
    decreases n - m,
{
    if m < n {
        instances_keep_error(cells, needed, a, child, t, m, n - 1, depth, e);
    }
}

/// An error in the first `m` elements is that of all of them.
proof fn elems_keep_error(
    cells: Seq<Cell>,
    needed: Option<Seq<(i16, i16)>>,
    c: int,
    m: int,
    n: int,
    t: Affine,
    depth: int,
    e: LayoutError,
)
    requires
        0 <= m <= n,
        flat_elems(cells, needed, c, m, t, depth) == Err::<Seq<Drawn>, LayoutError>(e),
    ensures
        flat_elems(cells, needed, c, n, t, depth) == Err::<Seq<Drawn>, LayoutError>(e),
    decreases n - m,
{
    if m < n {
        elems_keep_error(cells, needed, c, m, n - 1, t, depth, e);
    }
}

/// Append polygons on one key.
fn append_on_key(out: &mut Vec<DrawnPolygon>, key: (i16, i16), polys: &Vec<Polygon>)
    requires
        drawn_in_range(old(out)@),
        shapes_in_range(shapes_of(polys@)),
    ensures
        drawn_in_range(final(out)@),
        drawn_of(final(out)@) == drawn_of(old(out)@) + on_key(key, shapes_of(polys@)),
{
    let ghost start = out@;
    let ghost all = on_key(key, shapes_of(polys@));
    let mut i: usize = 0;
    assert(drawn_of(out@) =~= drawn_of(start) + all.take(0));
    while i < polys.len()
        invariant
            i <= polys@.len(),
            all == on_key(key, shapes_of(polys@)),
            shapes_in_range(shapes_of(polys@)),
            drawn_in_range(out@),
            drawn_of(out@) == drawn_of(start) + all.take(i as int),
        decreases polys@.len() - i,
    {
        assert(shapes_of(polys@)[i as int].in_range());
        let ghost before = out@;
        out.push(DrawnPolygon { key, poly: polys[i].duplicate() });
        proof {
            assert(drawn_of(out@) =~= drawn_of(before).push(all[i as int]));
            assert(all.take(i + 1) =~= all.take(i as int).push(all[i as int]));
            assert(drawn_of(out@) =~= drawn_of(start) + all.take(i + 1));
        }
        i = i + 1;
    }
    assert(all.take(i as int) =~= all);
}

/// Append what a cell draws.
fn draw_cell(
    cells: &Vec<Cell>,
    targets: &Targets,
    needed: &Option<Vec<(i16, i16)>>,
    c: usize,
    t: &AffineTransform,
    depth: usize,
    out: &mut Vec<DrawnPolygon>,
) -> (r: Result<(), LayoutError>)
    requires
        targets.right(cells@),
        c < cells@.len(),
        t@.valid(),
        drawn_in_range(old(out)@),
    ensures
        drawn_in_range(final(out)@),
        extends(
            old(out)@,
            final(out)@,
            flat_cell(cells@, wanted_keys(needed), c as int, t@, depth as int),
            r,
        ),
    decreases depth, 4int, 0int,
{
    let ghost start = out@;
    let ghost keys = wanted_keys(needed);
    let n = cells[c].elems.len();
    let mut e: usize = 0;
    assert(drawn_of(out@) =~= drawn_of(start) + Seq::empty());
    while e < n
        invariant
            targets.right(cells@),
            c < cells@.len(),
            n == cells@[c as int].elems@.len(),
            e <= n,
            t@.valid(),
            keys == wanted_keys(needed),
            drawn_in_range(out@),
            extends(start, out@, flat_elems(cells@, keys, c as int, e as int, t@, depth as int), Ok(())),
        decreases n - e,
    {
        match draw_elem(cells, targets, needed, c, e, t, depth, out) {
            Ok(()) => {
                proof {
                    let s = flat_elems(cells@, keys, c as int, e as int, t@, depth as int)->Ok_0;
                    let d = flat_elem(cells@, keys, cells@[c as int].elems@[e as int], t@, depth as int)->Ok_0;
                    assert(drawn_of(out@) =~= drawn_of(start) + (s + d));
                }
            },
            Err(f) => {
                proof {
                    elems_keep_error(cells@, keys, c as int, e + 1, n as int, t@, depth as int, f);
                }
                return Err(f);
            },
        }
        e = e + 1;
    }
    Ok(())
}

/// Element `e` of cell `c` places cell `k`.
spec fn places(cells: Seq<Cell>, c: int, e: int, k: int) -> bool {
    &&& 0 <= c < cells.len()
    &&& 0 <= e < cells[c].elems@.len()
    &&& target_of(cells, cells[c].elems@[e]) == Some(k)
}

/// For each cell, whether an element places it.
fn mark_placed(cells: &Vec<Cell>, targets: &Targets) -> (mark: Vec<bool>)
    requires
        targets.right(cells@),
    ensures
        mark@.len() == cells@.len(),
        forall|k: int|
            0 <= k < cells@.len() ==> (#[trigger] mark@[k] <==> exists|c: int, e: int| places(cells@, c, e, k)),
{
    let n = cells.len();
    let mut mark: Vec<bool> = Vec::new();
    let mut i: usize = 0;
    while i < n
        invariant
            i <= n,
            mark@.len() == i,
            forall|k: int| 0 <= k < i ==> !#[trigger] mark@[k],
        decreases n - i,
    {
        mark.push(false);
        i = i + 1;
    }
    let mut c: usize = 0;
    while c < n
        invariant
            targets.right(cells@),
            n == cells@.len(),
            c <= n,
            mark@.len() == n,
            forall|k: int| 0 <= k < n && #[trigger] mark@[k] ==> exists|b: int, e: int| places(cells@, b, e, k),
            forall|b: int, e: int, k: int| b < c && #[trigger] places(cells@, b, e, k) ==> mark@[k],
        decreases n - c,
    {
        assert(Targets::row_right(cells@, targets.table@[c as int]@, c as int, cells@[c as int].elems@.len() as int));
        let m = cells[c].elems.len();
        let mut e: usize = 0;
        while e < m
            invariant
                targets.right(cells@),
                n == cells@.len(),
                c < n,
                m == cells@[c as int].elems@.len(),
                e <= m,
                Targets::row_right(cells@, targets.table@[c as int]@, c as int, m as int),
                targets.table@.len() == n,
                mark@.len() == n,
                forall|k: int| 0 <= k < n && #[trigger] mark@[k] ==> exists|b: int, f: int| places(cells@, b, f, k),
                forall|b: int, f: int, k: int|
                    (b < c || (b == c && f < e)) && #[trigger] places(cells@, b, f, k) ==> mark@[k],
            decreases m - e,
        {
            let ghost before = mark@;
            let ghost elem = cells@[c as int].elems@[e as int];
            assert(same_position(targets.table@[c as int]@[e as int], target_of(cells@, elem)));
            if let Some(k) = targets.table[c][e] {
                proof {
                    found_cell_exists(cells@, elem.target()->0, cells@.len() as int);
                    assert(places(cells@, c as int, e as int, k as int));
                }
                mark[k] = true;
            }
            proof {
                assert forall|b: int, f: int, k: int|
                    (b < c || (b == c && f < e + 1)) && #[trigger] places(cells@, b, f, k) implies mark@[k] by {
                    if b < c || f < e {
                        assert(before[k]);
                        let name = cells@[b].elems@[f].target()->0;
                        found_cell_exists(cells@, name, cells@.len() as int);
                    } else {
                        assert(target_of(cells@, elem) == Some(k));
                    }
                }
            }
            e = e + 1;
        }
        c = c + 1;
    }
    mark
}

/// A cell is placed if and only if an element places the last cell of its name.
proof fn placed_iff_marked(cells: Seq<Cell>, i: int, k: int)
    requires
        0 <= i < cells.len(),
        find_cell(cells, cells[i].name@, cells.len() as int) == Some(k),
    ensures
        is_placed(cells, cells[i].name@) <==> exists|c: int, e: int| places(cells, c, e, k),
{
    let name = cells[i].name@;
    found_cell_exists(cells, name, cells.len() as int);
    if is_placed(cells, name) {
        let (c, e) = choose|c: int, e: int|
            0 <= c < cells.len() && 0 <= e < cells[c].elems@.len() && (#[trigger] cells[c].elems@[e]).target() == Some(
                name,
            );
        assert(places(cells, c, e, k));
    }
    if exists|c: int, e: int| places(cells, c, e, k) {
        let (c, e) = choose|c: int, e: int| places(cells, c, e, k);
        let elem = cells[c].elems@[e];
        found_cell_exists(cells, elem.target()->0, cells.len() as int);
        assert(cells[c].elems@[e].target() == Some(name));
    }
}

/// An error in the first `m` cells is that of all of them.
proof fn tops_keep_error(cells: Seq<Cell>, needed: Option<Seq<(i16, i16)>>, m: int, n: int, e: LayoutError)
    requires
        0 <= m <= n,
        flat_tops(cells, needed, m) == Err::<Seq<Drawn>, LayoutError>(e),
    ensures
        flat_tops(cells, needed, n) == Err::<Seq<Drawn>, LayoutError>(e),
    decreases n - m,
{
    if m < n {
        tops_keep_error(cells, needed, m, n - 1, e);
    }
}

/// Positions of the top cells: those that no element places.
pub fn top_cells(layout: &Layout) -> (tops: Vec<usize>)
    ensures
        forall|i: int|
            0 <= i < layout.cells@.len() ==> (tops@.contains(i as usize) <==> !is_placed(
                layout.cells@,
                (#[trigger] layout.cells@[i]).name@,
            )),
        forall|p: int| 0 <= p < tops@.len() ==> (#[trigger] tops@[p]) < layout.cells@.len(),
        forall|p: int, q: int| 0 <= p < q < tops@.len() ==> (#[trigger] tops@[p]) < (#[trigger] tops@[q]),
{
    let cells = &layout.cells;
    let targets = resolve(cells);
    let mark = mark_placed(cells, &targets);
    let n = cells.len();
    let mut tops: Vec<usize> = Vec::new();
    let mut i: usize = 0;
    while i < n
        invariant
            n == cells@.len(),
            i <= n,
            mark@.len() == n,
            forall|k: int|
                0 <= k < cells@.len() ==> (#[trigger] mark@[k] <==> exists|c: int, e: int| places(cells@, c, e, k)),
            forall|k: int|
                0 <= k < i ==> (tops@.contains(k as usize) <==> !is_placed(cells@, (#[trigger] cells@[k]).name@)),
            forall|p: int| 0 <= p < tops@.len() ==> (#[trigger] tops@[p]) < i,
            forall|p: int, q: int| 0 <= p < q < tops@.len() ==> (#[trigger] tops@[p]) < (#[trigger] tops@[q]),
        decreases n - i,
    {
        let ghost before = tops@;
        proof {
            found_cell_exists(cells@, cells@[i as int].name@, n as int);
        }
        let mut placed: bool = false;
        if let Some(k) = look_up(cells, cells[i].name.as_str()) {
            placed = mark[k];
            proof {
                placed_iff_marked(cells@, i as int, k as int);
            }
        }
        if !placed {
            tops.push(i);
        }
        proof {
            assert forall|k: int| 0 <= k < i + 1 implies (tops@.contains(k as usize) <==> !is_placed(
                cells@,
                (#[trigger] cells@[k]).name@,
            )) by {
                if before.contains(k as usize) {
                    let p = choose|p: int| 0 <= p < before.len() && before[p] == k as usize;
                    assert(tops@[p] == k as usize);
                }
                if tops@.contains(k as usize) {
                    let p = choose|p: int| 0 <= p < tops@.len() && tops@[p] == k as usize;
                    if p < before.len() {
                        assert(before[p] == k as usize);
                    }
                }
                if k == i && !placed {
                    assert(tops@[before.len() as int] == i);
                }
            }
        }
        i = i + 1;
    }
    tops
}

/// Flatten the hierarchy: every shape of the top cells and of what they place,
/// in the frame of the top cells.  With `needed`, only on these layers and
/// datatypes.
pub fn flatten(layout: &Layout, needed: &Option<Vec<(i16, i16)>>) -> (out: Result<Vec<DrawnPolygon>, LayoutError>)
    ensures
        match (flat_tops(layout.cells@, wanted_keys(needed), layout.cells@.len() as int), out) {
            (Ok(s), Ok(v)) => drawn_of(v@) == s,
            (Err(e), Err(f)) => e == f,
            _ => false,
        },
        out matches Ok(v) ==> drawn_in_range(v@),
{
    let cells = &layout.cells;
    let ghost keys = wanted_keys(needed);
    let targets = resolve(cells);
    let mark = mark_placed(cells, &targets);
    let n = cells.len();
    let identity = AffineTransform::identity();
    let mut out: Vec<DrawnPolygon> = Vec::new();
    let mut i: usize = 0;
    assert(drawn_of(out@) =~= Seq::empty());
    while i < n
        invariant
            n == cells@.len(),
            i <= n,
            targets.right(cells@),
            keys == wanted_keys(needed),
            identity@ == Affine::identity(),
            identity@.valid(),
            mark@.len() == n,
            forall|k: int|
                0 <= k < cells@.len() ==> (#[trigger] mark@[k] <==> exists|c: int, e: int| places(cells@, c, e, k)),
            drawn_in_range(out@),
            flat_tops(cells@, keys, i as int) == Ok::<Seq<Drawn>, LayoutError>(drawn_of(out@)),
            layout.cells@ == cells@,
        decreases n - i,
    {
        proof {
            found_cell_exists(cells@, cells@[i as int].name@, n as int);
        }
        let mut placed: bool = false;
        if let Some(k) = look_up(cells, cells[i].name.as_str()) {
            placed = mark[k];
            proof {
                placed_iff_marked(cells@, i as int, k as int);
            }
        }
        if !placed {
            match draw_cell(cells, &targets, needed, i, &identity, n, &mut out) {
                Ok(()) => {},
                Err(f) => {
                    proof {
                        tops_keep_error(cells@, keys, i + 1, n as int, f);
                    }
                    return Err(f);
                },
            }
        }
        i = i + 1;
    }
    Ok(out)
}

/// `rank` falls along every placement and is at most the number of cells.
pub open spec fn is_ranked(cells: Seq<Cell>, rank: spec_fn(int) -> int) -> bool {
    &&& forall|c: int| 0 <= c < cells.len() ==> 0 <= #[trigger] rank(c) <= cells.len()
    &&& forall|c: int, e: int, k: int|
        0 <= c < cells.len() && 0 <= e < cells[c].elems@.len() && target_of(cells, #[trigger] cells[c].elems@[e])
            == Some(k) ==> #[trigger] rank(k) < rank(c)
}

/// Not an error for recursion.
pub open spec fn no_recursion(r: Result<Seq<Drawn>, LayoutError>) -> bool {
    r != Err::<Seq<Drawn>, LayoutError>(LayoutError::Recursion)
}

proof fn ranked_elems(
    cells: Seq<Cell>,
    needed: Option<Seq<(i16, i16)>>,
    rank: spec_fn(int) -> int,
    c: int,
    n: int,
    t: Affine,
    depth: int,
)
    requires
        is_ranked(cells, rank),
        0 <= c < cells.len(),
        0 <= n <= cells[c].elems@.len(),
        rank(c) <= depth,
    ensures
        no_recursion(flat_elems(cells, needed, c, n, t, depth)),
    decreases depth, 3int, n,
{
    if n > 0 {
        ranked_elems(cells, needed, rank, c, n - 1, t, depth);
        let e = cells[c].elems@[n - 1];
        match e {
            Element::StructRef(r) => {
                let placing = Affine::placing(r.strans, r.xy.0 * FIX, r.xy.1 * FIX);
                found_cell_exists(cells, r.name@, cells.len() as int);
                if let Some(k) = find_cell(cells, r.name@, cells.len() as int) {
                    assert(target_of(cells, e) == Some(k));
                    assert(rank(k) < rank(c));
                    ranked_elems(
                        cells,
                        needed,
                        rank,
                        k,
                        cells[k].elems@.len() as int,
                        t.after(placing),
                        depth - 1,
                    );
                }
            },
            Element::ArrayRef(a) => {
                found_cell_exists(cells, a.name@, cells.len() as int);
                if let Some(k) = find_cell(cells, a.name@, cells.len() as int) {
                    assert(target_of(cells, e) == Some(k));
                    assert(rank(k) < rank(c));
                    ranked_instances(cells, needed, rank, a, k, t, instance_count(a), depth);
                }
            },
            _ => {},
        }
        reveal_with_fuel(flat_cell, 2);
        reveal_with_fuel(flat_elem, 2);
        assert(no_recursion(flat_elem(cells, needed, e, t, depth)));
        reveal_with_fuel(flat_elems, 2);
    }
}

proof fn ranked_instances(
    cells: Seq<Cell>,
    needed: Option<Seq<(i16, i16)>>,
    rank: spec_fn(int) -> int,
    a: ArrayRef,
    child: int,
    t: Affine,
    k: int,
    depth: int,
)
    requires
        is_ranked(cells, rank),
        0 <= child < cells.len(),
        rank(child) < depth,
    ensures
        no_recursion(flat_instances(cells, needed, a, child, t, k, depth)),
    decreases depth, 1int, k,
{
    if k > 0 {
        ranked_instances(cells, needed, rank, a, child, t, k - 1, depth);
        ranked_elems(
            cells,
            needed,
            rank,
            child,
            cells[child].elems@.len() as int,
            nth_instance(a, t, k - 1),
            depth - 1,
        );
        assert(0 <= rank(child) < depth);
        let last = nth_instance(a, t, k - 1);
        assert(flat_cell(cells, needed, child, last, depth - 1) == flat_elems(
            cells,
            needed,
            child,
            cells[child].elems@.len() as int,
            last,
            depth - 1,
        ));
        reveal_with_fuel(flat_instances, 2);
    }
}

/// A layout whose cells can be ranked, so that every placement goes to a lower
/// rank, never fails for recursion.
pub proof fn ranked_layout_flattens(
    cells: Seq<Cell>,
    needed: Option<Seq<(i16, i16)>>,
    rank: spec_fn(int) -> int,
    n: int,
)
    requires
        is_ranked(cells, rank),
        0 <= n <= cells.len(),
    ensures
        no_recursion(flat_tops(cells, needed, n)),
    decreases n,
{
    if n > 0 {
        ranked_layout_flattens(cells, needed, rank, n - 1);
        assert(rank(n - 1) <= cells.len());
        ranked_elems(
            cells,
            needed,
            rank,
            n - 1,
            cells[n - 1].elems@.len() as int,
            Affine::identity(),
            cells.len() as int,
        );
    }
}

/// What is drawn on one of the keys.
pub open spec fn drawn_on_keys(drawn: Seq<Drawn>, keys: Seq<(i16, i16)>) -> Seq<Drawn> {
    drawn.filter(|d: Drawn| keys.contains(d.key))
}

/// If the first result is one, the second is what of it is on the keys.
pub open spec fn restricts(
    a: Result<Seq<Drawn>, LayoutError>,
    b: Result<Seq<Drawn>, LayoutError>,
    keys: Seq<(i16, i16)>,
) -> bool {
    a matches Ok(s) ==> b == Ok::<Seq<Drawn>, LayoutError>(drawn_on_keys(s, keys))
}

proof fn filter_one_key(drawn: Seq<Drawn>, key: (i16, i16), keys: Seq<(i16, i16)>)
    requires
        forall|i: int| 0 <= i < drawn.len() ==> (#[trigger] drawn[i]).key == key,
    ensures
        drawn_on_keys(drawn, keys) == if keys.contains(key) {
            drawn
        } else {
            Seq::empty()
        },
    decreases drawn.len(),
{
    reveal(Seq::filter);
    if drawn.len() > 0 {
        let head = drawn.drop_last();
        assert forall|i: int| 0 <= i < head.len() implies (#[trigger] head[i]).key == key by {
            assert(head[i] == drawn[i]);
        }
        filter_one_key(head, key, keys);
        assert(drawn[drawn.len() - 1].key == key);
        assert(drawn =~= head.push(drawn.last()));
    } else {
        assert(drawn =~= Seq::empty());
    }
}

proof fn joins_restrict(
    a: Result<Seq<Drawn>, LayoutError>,
    b: Result<Seq<Drawn>, LayoutError>,
    c: Result<Seq<Drawn>, LayoutError>,
    d: Result<Seq<Drawn>, LayoutError>,
    keys: Seq<(i16, i16)>,
)
    requires
        restricts(a, c, keys),
        restricts(b, d, keys),
    ensures
        restricts(join(a, b), join(c, d), keys),
{
    if let (Ok(x), Ok(y)) = (a, b) {
        Seq::filter_distributes_over_add(x, y, |d: Drawn| keys.contains(d.key));
    }
}

proof fn nothing_restricts(keys: Seq<(i16, i16)>)
    ensures
        drawn_on_keys(Seq::empty(), keys) == Seq::<Drawn>::empty(),
{
    reveal(Seq::filter);
}

proof fn elems_restrict(cells: Seq<Cell>, keys: Seq<(i16, i16)>, c: int, n: int, t: Affine, depth: int)
    ensures
        restricts(flat_elems(cells, None, c, n, t, depth), flat_elems(cells, Some(keys), c, n, t, depth), keys),
    decreases depth, 3int, n,
{
    nothing_restricts(keys);
    if n > 0 {
        elems_restrict(cells, keys, c, n - 1, t, depth);
        elem_restricts(cells, keys, cells[c].elems@[n - 1], t, depth);
        joins_restrict(
            flat_elems(cells, None, c, n - 1, t, depth),
            flat_elem(cells, None, cells[c].elems@[n - 1], t, depth),
            flat_elems(cells, Some(keys), c, n - 1, t, depth),
            flat_elem(cells, Some(keys), cells[c].elems@[n - 1], t, depth),
            keys,
        );
    }
}

proof fn cell_restricts(cells: Seq<Cell>, keys: Seq<(i16, i16)>, c: int, t: Affine, depth: int)
    ensures
        restricts(flat_cell(cells, None, c, t, depth), flat_cell(cells, Some(keys), c, t, depth), keys),
    decreases depth, 4int, 0int,
{
    elems_restrict(cells, keys, c, cells[c].elems@.len() as int, t, depth);
}

proof fn elem_restricts(cells: Seq<Cell>, keys: Seq<(i16, i16)>, e: Element, t: Affine, depth: int)
    ensures
        restricts(flat_elem(cells, None, e, t, depth), flat_elem(cells, Some(keys), e, t, depth), keys),
    decreases depth, 2int, 0int,
{
    nothing_restricts(keys);
    match e {
        Element::Boundary(b) => {
            let key = (b.layer, b.datatype);
            let shape = Shape { exterior: closed_ring(placed_points(b.xy@, t)), holes: Seq::empty() };
            filter_one_key(seq![Drawn { key, shape }], key, keys);
        },
        Element::Path(p) => {
            let key = (p.layer, p.datatype);
            filter_one_key(on_key(key, path_shapes(p, t)), key, keys);
        },
        Element::StructRef(r) => {
            let placing = Affine::placing(r.strans, r.xy.0 * FIX, r.xy.1 * FIX);
            if let Some(child) = find_cell(cells, r.name@, cells.len() as int) {
                if depth > 0 {
                    cell_restricts(cells, keys, child, t.after(placing), depth - 1);
                }
            }
        },
        Element::ArrayRef(a) => {
            if let Some(child) = find_cell(cells, a.name@, cells.len() as int) {
                instances_restrict(cells, keys, a, child, t, instance_count(a), depth);
            }
        },
        Element::Other => {},
    }
}

proof fn instances_restrict(cells: Seq<Cell>, keys: Seq<(i16, i16)>, a: ArrayRef, child: int, t: Affine, k: int, depth: int)
    ensures
        restricts(
            flat_instances(cells, None, a, child, t, k, depth),
            flat_instances(cells, Some(keys), a, child, t, k, depth),
            keys,
        ),
    decreases depth, 1int, k,
{
    nothing_restricts(keys);
    if k > 0 && depth > 0 {
        let last = nth_instance(a, t, k - 1);
        instances_restrict(cells, keys, a, child, t, k - 1, depth);
        cell_restricts(cells, keys, child, last, depth - 1);
        joins_restrict(
            flat_instances(cells, None, a, child, t, k - 1, depth),
            flat_cell(cells, None, child, last, depth - 1),
            flat_instances(cells, Some(keys), a, child, t, k - 1, depth),
            flat_cell(cells, Some(keys), child, last, depth - 1),
            keys,
        );
    }
}

/// Flattening for some keys gives what of the whole is on them.
pub proof fn flattening_restricts(cells: Seq<Cell>, keys: Seq<(i16, i16)>, n: int)
    ensures
        restricts(flat_tops(cells, None, n), flat_tops(cells, Some(keys), n), keys),
    decreases n,
{
    nothing_restricts(keys);
    if n > 0 {
        flattening_restricts(cells, keys, n - 1);
        cell_restricts(cells, keys, n - 1, Affine::identity(), cells.len() as int);
        joins_restrict(
            flat_tops(cells, None, n - 1),
            flat_cell(cells, None, n - 1, Affine::identity(), cells.len() as int),
            flat_tops(cells, Some(keys), n - 1),
            flat_cell(cells, Some(keys), n - 1, Affine::identity(), cells.len() as int),
            keys,
        );
    }
}

} // verus!
