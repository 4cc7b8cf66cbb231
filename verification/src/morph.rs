//! Closing of shapes and bands along their edges, window by window.

use crate::area::check_polygons;
use crate::area::clip_to_window;
use crate::area::indices_valid;
use crate::area::window_shapes;
use crate::geom::bounds;
use crate::geom::bounds_in_range;
use crate::geom::max_of;
use crate::geom::ring_in_range;
use crate::geom::shapes_in_range;
use crate::geom::shapes_in_reach;
use crate::geom::shapes_of;
use crate::geom::Point;
use crate::geom::Polygon;
use crate::geom::Rect;
use crate::geom::Shape;
use crate::layer_map::all_points;
use crate::layer_map::bounding_box;
use crate::num::scale_component;
use crate::num::scaled;
use crate::overlay::merge_polygons;
use crate::overlay::merged_shapes;
use crate::overlay::remaining_shapes;
use crate::overlay::rings_of;
use crate::overlay::shared_shapes;
use crate::overlay::subtract;
use crate::tiles::build_tile_index;
use crate::tiles::members_are_ascending;
use crate::tiles::tile_at;
use crate::tiles::tile_count;
use crate::tiles::tile_rect;
use crate::tiles::tiles_fit;
use crate::tiles::Grid;
use vstd::prelude::*;

verus! {

/// Largest distance, in layout units.
pub const MORPH_LIMIT: i64 = 0x2000_0000;

/// `a * e / sqrt(m)`, rounded to the nearest integer, for `a` of either sign.
pub open spec fn signed_scaled(e: int, a: int, m: int) -> int {
    if a < 0 {
        -scaled(e, -a, m)
    } else {
        scaled(e, a, m)
    }
}

/// The rectangle along the segment from `p` to `q`: half the width, which is
/// `hw` layout units, to either side, and extended at its ends.
pub open spec fn segment_ring(p: Point, q: Point, hw: int, ext: (int, int)) -> Seq<Point> {
    let (dx, dy) = (q.x - p.x, q.y - p.y);
    let m = dx * dx + dy * dy;
    let (nx, ny) = (-scaled(dy, hw, m), scaled(dx, hw, m));
    let (bx, by) = (signed_scaled(dx, ext.0, m), signed_scaled(dy, ext.0, m));
    let (ex, ey) = (signed_scaled(dx, ext.1, m), signed_scaled(dy, ext.1, m));
    seq![
        Point { x: (p.x - bx - nx) as i64, y: (p.y - by - ny) as i64 },
        Point { x: (q.x + ex - nx) as i64, y: (q.y + ey - ny) as i64 },
        Point { x: (q.x + ex + nx) as i64, y: (q.y + ey + ny) as i64 },
        Point { x: (p.x - bx + nx) as i64, y: (p.y - by + ny) as i64 },
        Point { x: (p.x - bx - nx) as i64, y: (p.y - by - ny) as i64 },
    ]
}

/// `a * e / sqrt(m)` for `a` of either sign.
fn scale_signed(e: i64, a: i64, m: i128) -> (r: i64)
    requires
        -0x4000_0000 <= a <= 0x4000_0000,
        -0x1_0000_0000 <= e <= 0x1_0000_0000,
        0 < m,
        e * e <= m,
    ensures
        r == signed_scaled(e as int, a as int, m as int),
        -0x4000_0000 <= r <= 0x4000_0000,
{
    proof {
        let b = if a < 0 {
            -a as int
        } else {
            a as int
        };
        assert(-0x8000_0000_0000_0000 <= 2 * b * e <= 0x8000_0000_0000_0000) by (nonlinear_arith)
            requires
                0 <= b <= 0x4000_0000,
                -0x1_0000_0000 <= e <= 0x1_0000_0000,
        ;
    }
    if a < 0 {
        -scale_component(e, -a, m)
    } else {
        scale_component(e, a, m)
    }
}

/// The rectangle along a segment.
fn segment_polygon(p: &Point, q: &Point, hw: i64, begin: i64, end: i64) -> (out: Polygon)
    requires
        p.in_range(),
        q.in_range(),
        *p != *q,
        0 <= hw <= 0x4000_0000,
        -0x4000_0000 <= begin <= 0x4000_0000,
        -0x4000_0000 <= end <= 0x4000_0000,
    ensures
        out@ == (Shape { exterior: segment_ring(*p, *q, hw as int, (begin as int, end as int)), holes: Seq::empty() }),
{
    let dx = q.x - p.x;
    let dy = q.y - p.y;
    proof {
        crate::offset::edge_length(*p, *q);
    }
    let m: i128 = dx as i128 * dx as i128 + dy as i128 * dy as i128;
    let nx = -scale_signed(dy, hw, m);
    let ny = scale_signed(dx, hw, m);
    let bx = scale_signed(dx, begin, m);
    let by = scale_signed(dy, begin, m);
    let ex = scale_signed(dx, end, m);
    let ey = scale_signed(dy, end, m);
    let mut exterior: Vec<Point> = Vec::new();
    exterior.push(Point { x: p.x - bx - nx, y: p.y - by - ny });
    exterior.push(Point { x: q.x + ex - nx, y: q.y + ey - ny });
    exterior.push(Point { x: q.x + ex + nx, y: q.y + ey + ny });
    exterior.push(Point { x: p.x - bx + nx, y: p.y - by + ny });
    exterior.push(Point { x: p.x - bx - nx, y: p.y - by - ny });
    let out = Polygon { exterior, holes: Vec::new() };
    proof {
        assert(out@.exterior =~= segment_ring(*p, *q, hw as int, (begin as int, end as int)));
        assert(out@.holes =~= Seq::empty());
    }
    out
}

/// The bands along the first `n` edges of a closed ring: to either side and
/// beyond both ends by `space`.  An edge without length has none.
pub open spec fn ring_bands(ring: Seq<Point>, space: int, n: int) -> Seq<Shape>
    decreases n,
{
    if n <= 0 {
        Seq::empty()
    } else if ring[n - 1] == ring[n] {
        ring_bands(ring, space, n - 1)
    } else {
        ring_bands(ring, space, n - 1).push(
            Shape { exterior: segment_ring(ring[n - 1], ring[n], space, (space, space)), holes: Seq::empty() },
        )
    }
}

/// The bands along all edges of the first `n` rings.
pub open spec fn rings_bands(rings: Seq<Seq<Point>>, space: int, n: int) -> Seq<Shape>
    decreases n,
{
    if n <= 0 {
        Seq::empty()
    } else {
        rings_bands(rings, space, n - 1) + ring_bands(rings[n - 1], space, rings[n - 1].len() - 1)
    }
}

/// The bands along all edges of the first `n` shapes.
pub open spec fn band_shapes(shapes: Seq<Shape>, space: int, n: int) -> Seq<Shape>
    decreases n,
{
    if n <= 0 {
        Seq::empty()
    } else {
        let s = shapes[n - 1];
        band_shapes(shapes, space, n - 1) + ring_bands(s.exterior, space, s.exterior.len() - 1) + rings_bands(
            s.holes,
            space,
            s.holes.len() as int,
        )
    }
}

/// Add the bands along the edges of a ring.
fn push_ring_bands(out: &mut Vec<Polygon>, ring: &Vec<Point>, space: i64)
    requires
        ring_in_range(ring@),
        0 <= space <= MORPH_LIMIT,
    ensures
        shapes_of(final(out)@) == shapes_of(old(out)@) + ring_bands(ring@, space as int, ring@.len() - 1),
{
    let ghost start = shapes_of(out@);
    let n = ring.len();
    let mut i: usize = 0;
    assert(start + ring_bands(ring@, space as int, 0) =~= start);
    assert(start + ring_bands(ring@, space as int, -1) =~= start);
    if n == 0 {
        return;
    }
    while i < n - 1
        invariant
            n == ring@.len(),
            n > 0,
            i <= n - 1,
            ring_in_range(ring@),
            0 <= space <= MORPH_LIMIT,
            shapes_of(out@) == start + ring_bands(ring@, space as int, i as int),
        decreases n - i,
    {
        assert(ring@[i as int].in_range() && ring@[i + 1].in_range());
        let ghost before = out@;
        if ring[i] != ring[i + 1] {
            out.push(segment_polygon(&ring[i], &ring[i + 1], space, space, space));
            assert(shapes_of(out@) =~= shapes_of(before).push(out@[before.len() as int]@));
        }
        assert(shapes_of(out@) =~= start + ring_bands(ring@, space as int, i + 1));
        i = i + 1;
    }
}

/// The bands of width `space` to either side of all edges of polygons.
pub fn edge_bands(polys: &[Polygon], space: i64) -> (out: Vec<Polygon>)
    requires
        shapes_in_range(shapes_of(polys@)),
        0 <= space <= MORPH_LIMIT,
    ensures
        shapes_of(out@) == band_shapes(shapes_of(polys@), space as int, polys@.len() as int),
{
    let ghost shapes = shapes_of(polys@);
    let mut out: Vec<Polygon> = Vec::new();
    let mut i: usize = 0;
    assert(shapes_of(out@) =~= Seq::empty());
    while i < polys.len()
        invariant
            i <= polys@.len(),
            shapes == shapes_of(polys@),
            shapes_in_range(shapes),
            0 <= space <= MORPH_LIMIT,
            shapes_of(out@) == band_shapes(shapes, space as int, i as int),
        decreases polys@.len() - i,
    {
        let ghost s = shapes[i as int];
        assert(s == polys@[i as int]@);
        assert(s.in_range());
        push_ring_bands(&mut out, &polys[i].exterior, space);
        let ghost start = shapes_of(out@);
        let holes = &polys[i].holes;
        assert(rings_of(holes@) =~= s.holes);
        let mut k: usize = 0;
        assert(start + rings_bands(s.holes, space as int, 0) =~= start);
        while k < holes.len()
            invariant
                k <= holes@.len(),
                rings_of(holes@) == s.holes,
                s.in_range(),
                0 <= space <= MORPH_LIMIT,
                shapes_of(out@) == start + rings_bands(s.holes, space as int, k as int),
            decreases holes@.len() - k,
        {
            assert(s.holes[k as int] == holes@[k as int]@);
            assert(ring_in_range(s.holes[k as int]));
            push_ring_bands(&mut out, &holes[k], space);
            assert(shapes_of(out@) =~= start + rings_bands(s.holes, space as int, k + 1));
            k = k + 1;
        }
        i = i + 1;
    }
    out
}

/// An operation on shapes that reaches a bounded distance.
#[derive(Clone, Copy, Debug)]
pub enum Morph {
    /// The bands to either side of the edges.
    Bands { space: i64 },
    /// The shapes grown, then shrunk: gaps up to twice `grow` close.
    Closing { grow: i64, shrink: i64 },
}

/// The positions of all of `n` items.
pub open spec fn all_indices(n: nat) -> Seq<usize> {
    Seq::new(n, |i: int| i as usize)
}

/// The positions of all of `n` items.
fn list_indices(n: usize) -> (v: Vec<usize>)
    ensures
        v@ == all_indices(n as nat),
        indices_valid(v@, n as nat),
{
    let mut v: Vec<usize> = Vec::new();
    let mut i: usize = 0;
    while i < n
        invariant
            i <= n,
            v@.len() == i,
            forall|k: int| 0 <= k < i ==> (#[trigger] v@[k]) == k,
        decreases n - i,
    {
        v.push(i);
        i = i + 1;
    }
    assert(v@ =~= all_indices(n as nat));
    v
}

/// What shapes leave in a window, `None` if that leaves the coordinate range.
pub open spec fn clipped_to(shapes: Seq<Shape>, indices: Seq<usize>, win: Rect) -> Option<Seq<Shape>> {
    let parts = window_shapes(shapes, indices, win, indices.len() as int);
    if shapes_in_range(parts) {
        Some(parts)
    } else {
        None
    }
}

/// The shapes, `None` if they leave the coordinate range.
pub open spec fn if_in_range(shapes: Seq<Shape>) -> Option<Seq<Shape>> {
    if shapes_in_range(shapes) {
        Some(shapes)
    } else {
        None
    }
}

/// The union of disjoint shapes and the bands along their edges: the shapes
/// grown by `amount`.
pub open spec fn dilated(shapes: Seq<Shape>, amount: int) -> Option<Seq<Shape>> {
    let parts = shapes + band_shapes(shapes, amount, shapes.len() as int);
    if shapes_in_range(parts) {
        if_in_range(merged_shapes(parts))
    } else {
        None
    }
}

/// Disjoint shapes without the bands along their edges: the shapes shrunk by
/// `amount`.
pub open spec fn eroded(shapes: Seq<Shape>, amount: int) -> Option<Seq<Shape>> {
    let bands = band_shapes(shapes, amount, shapes.len() as int);
    if shapes_in_range(bands) && shapes_in_range(merged_shapes(bands)) && shapes_in_range(
        shared_shapes(shapes, merged_shapes(bands)),
    ) {
        if_in_range(remaining_shapes(shapes, merged_shapes(bands)))
    } else {
        None
    }
}

/// The polygons, `None` if they leave the coordinate range.
fn keep_in_range(polys: Vec<Polygon>) -> (out: Option<Vec<Polygon>>)
    ensures
        out matches Some(v) ==> if_in_range(shapes_of(polys@)) == Some(shapes_of(v@)) && shapes_in_range(
            shapes_of(v@),
        ),
        out is None ==> if_in_range(shapes_of(polys@)) is None,
{
    if check_polygons(&polys) {
        Some(polys)
    } else {
        None
    }
}

/// Grow disjoint polygons; `None` if the result leaves the coordinate range.
pub fn dilate(polys: Vec<Polygon>, amount: i64) -> (out: Option<Vec<Polygon>>)
    requires
        shapes_in_range(shapes_of(polys@)),
        0 <= amount <= MORPH_LIMIT,
    ensures
        out matches Some(v) ==> dilated(shapes_of(polys@), amount as int) == Some(shapes_of(v@)) && shapes_in_range(
            shapes_of(v@),
        ),
        out is None ==> dilated(shapes_of(polys@), amount as int) is None,
{
    let ghost shapes = shapes_of(polys@);
    let mut bands = edge_bands(&polys, amount);
    let ghost added = shapes_of(bands@);
    let mut all = polys;
    all.append(&mut bands);
    assert(shapes_of(all@) =~= shapes + added);
    if !check_polygons(&all) {
        return None;
    }
    keep_in_range(merge_polygons(&all))
}

/// Shrink disjoint polygons; `None` if a step leaves the coordinate range.
pub fn erode(polys: &Vec<Polygon>, amount: i64) -> (out: Option<Vec<Polygon>>)
    requires
        shapes_in_range(shapes_of(polys@)),
        0 <= amount <= MORPH_LIMIT,
    ensures
        out matches Some(v) ==> eroded(shapes_of(polys@), amount as int) == Some(shapes_of(v@)) && shapes_in_range(
            shapes_of(v@),
        ),
        out is None ==> eroded(shapes_of(polys@), amount as int) is None,
{
    let bands = edge_bands(polys, amount);
    if !check_polygons(&bands) {
        return None;
    }
    let merged = merge_polygons(&bands);
    if !check_polygons(&merged) {
        return None;
    }
    match subtract(polys, &merged) {
        Some(rest) => keep_in_range(rest),
        None => None,
    }
}

impl Morph {
    /// Distances are bounded.
    pub open spec fn valid(self) -> bool {
        match self {
            Morph::Bands { space } => 0 <= space <= MORPH_LIMIT,
            Morph::Closing { grow, shrink } => 0 <= grow <= MORPH_LIMIT && 0 <= shrink <= MORPH_LIMIT,
        }
    }

    /// How far the result at a point depends on shapes.
    pub open spec fn margin(self) -> int {
        match self {
            Morph::Bands { space } => space as int,
            Morph::Closing { grow, shrink } => grow + shrink,
        }
    }

    /// The operation on disjoint shapes.
    pub open spec fn applied(self, shapes: Seq<Shape>) -> Option<Seq<Shape>> {
        match self {
            Morph::Bands { space } => if_in_range(band_shapes(shapes, space as int, shapes.len() as int)),
            Morph::Closing { grow, shrink } => match dilated(shapes, grow as int) {
                Some(d) => eroded(d, shrink as int),
                None => None,
            },
        }
    }

    /// The result in a window: the operation on the union of the listed shapes
    /// within the margin of the window, cut to the window.
    pub open spec fn in_window(self, shapes: Seq<Shape>, indices: Seq<usize>, win: Rect) -> Option<Seq<Shape>> {
        let wide = win.spec_grown(self.margin());
        if !wide.in_range() {
            None
        } else {
            match clipped_to(shapes, indices, wide) {
                None => None,
                Some(near) => match if_in_range(merged_shapes(near)) {
                    None => None,
                    Some(merged) => match self.applied(merged) {
                        None => None,
                        Some(r) => clipped_to(r, all_indices(r.len()), win),
                    },
                },
            }
        }
    }

    /// The boxes of shapes grown by the margin; a shape without points has
    /// none.
    pub open spec fn reaches(self, shapes: Seq<Shape>) -> Seq<Shape> {
        shapes.map_values(
            |s: Shape|
                Shape {
                    exterior: if s.exterior.len() == 0 {
                        Seq::empty()
                    } else {
                        bounds(s.exterior).spec_grown(self.margin()).ring()
                    },
                    holes: Seq::empty(),
                },
        )
    }

    /// The result in window `ix`, `iy` of a grid over `area`.
    #[verifier::opaque]
    pub open spec fn in_tile(self, shapes: Seq<Shape>, area: Rect, grid: Grid, ix: int, iy: int) -> Option<Seq<Shape>> {
        self.in_window(
            shapes,
            grid.members(self.reaches(shapes), shapes.len() as int, ix, iy),
            tile_rect(area, grid.tile_size as int, ix, iy),
        )
    }

    /// The results in the first `n` windows of row `iy`, joined.
    pub open spec fn in_row(self, shapes: Seq<Shape>, area: Rect, grid: Grid, iy: int, n: int) -> Option<Seq<Shape>>
        decreases n,
    {
        if n <= 0 {
            Some(Seq::empty())
        } else {
            match (self.in_row(shapes, area, grid, iy, n - 1), self.in_tile(shapes, area, grid, n - 1, iy)) {
                (Some(before), Some(now)) => Some(before + now),
                _ => None,
            }
        }
    }

    /// The results in the first `n` rows of windows, joined.
    pub open spec fn in_rows(self, shapes: Seq<Shape>, area: Rect, grid: Grid, n: int) -> Option<Seq<Shape>>
        decreases n,
    {
        if n <= 0 {
            Some(Seq::empty())
        } else {
            match (
                self.in_rows(shapes, area, grid, n - 1),
                self.in_row(shapes, area, grid, n - 1, grid.nx as int),
            ) {
                (Some(before), Some(now)) => Some(before + now),
                _ => None,
            }
        }
    }

    /// The size of the windows: as given, but at least the margin, and not
    /// nothing.
    pub open spec fn window_size(self, window: int) -> int {
        max_of(1, max_of(window, self.margin()))
    }

    /// The result in all windows over the bounding box of the shapes, grown by
    /// the margin.
    #[verifier::opaque]
    pub open spec fn result(self, shapes: Seq<Shape>, window: int) -> Option<Seq<Shape>> {
        let points = all_points(shapes, shapes.len() as int);
        let area = bounds(points).spec_grown(self.margin());
        let size = self.window_size(window);
        if points.len() == 0 {
            Some(Seq::empty())
        } else if !area.in_range() || !tiles_fit(area, size) {
            None
        } else {
            let grid = Grid::spec_over(area, size as i64);
            self.in_rows(shapes, area, grid, grid.ny as int)
        }
    }

    /// The operation on disjoint polygons.
    fn apply(&self, polys: Vec<Polygon>) -> (out: Option<Vec<Polygon>>)
        requires
            self.valid(),
            shapes_in_range(shapes_of(polys@)),
        ensures
            out matches Some(v) ==> self.applied(shapes_of(polys@)) == Some(shapes_of(v@)) && shapes_in_range(
                shapes_of(v@),
            ),
            out is None ==> self.applied(shapes_of(polys@)) is None,
    {
        match self {
            Morph::Bands { space } => keep_in_range(edge_bands(&polys, *space)),
            Morph::Closing { grow, shrink } => {
                match dilate(polys, *grow) {
                    Some(d) => erode(&d, *shrink),
                    None => None,
                }
            },
        }
    }

    /// The margin of the operation.
    fn get_margin(&self) -> (m: i64)
        requires
            self.valid(),
        ensures
            m == self.margin(),
            0 <= m <= 0x4000_0000,
    {
        match self {
            Morph::Bands { space } => *space,
            Morph::Closing { grow, shrink } => *grow + *shrink,
        }
    }

    /// The result in a window.
    fn run_window(&self, polys: &[Polygon], indices: &Vec<usize>, win: &Rect) -> (out: Option<Vec<Polygon>>)
        requires
            self.valid(),
            shapes_in_range(shapes_of(polys@)),
            indices_valid(indices@, polys@.len()),
            win.in_range(),
        ensures
            out matches Some(v) ==> self.in_window(shapes_of(polys@), indices@, *win) == Some(shapes_of(v@))
                && shapes_in_range(shapes_of(v@)),
            out is None ==> self.in_window(shapes_of(polys@), indices@, *win) is None,
    {
        let wide = win.grown(self.get_margin());
        if !wide.check() {
            return None;
        }
        let near = match clip_to_window(polys, indices, &wide) {
            Some(v) => v,
            None => {
                return None;
            },
        };
        let merged = match keep_in_range(merge_polygons(&near)) {
            Some(v) => v,
            None => {
                return None;
            },
        };
        let all = match self.apply(merged) {
            Some(v) => v,
            None => {
                return None;
            },
        };
        let everything = list_indices(all.len());
        clip_to_window(&all, &everything, win)
    }

    /// The boxes of polygons grown by the margin.
    fn list_reaches(&self, polys: &[Polygon]) -> (out: Vec<Polygon>)
        requires
            self.valid(),
            shapes_in_range(shapes_of(polys@)),
        ensures
            shapes_of(out@) == self.reaches(shapes_of(polys@)),
            shapes_in_reach(shapes_of(out@)),
    {
        let ghost shapes = shapes_of(polys@);
        let margin = self.get_margin();
        let mut out: Vec<Polygon> = Vec::new();
        let mut i: usize = 0;
        while i < polys.len()
            invariant
                i <= polys@.len(),
                shapes == shapes_of(polys@),
                shapes_in_range(shapes),
                margin == self.margin(),
                0 <= margin <= 0x4000_0000,
                out@.len() == i,
                forall|k: int| 0 <= k < i ==> (#[trigger] out@[k])@ == self.reaches(shapes)[k],
                forall|k: int| 0 <= k < i ==> (#[trigger] out@[k])@.in_reach(),
            decreases polys@.len() - i,
        {
            assert(shapes[i as int] == polys@[i as int]@);
            assert(shapes[i as int].in_range());
            match polys[i].bounding_rect() {
                Some(b) => {
                    proof {
                        bounds_in_range(shapes[i as int].exterior);
                    }
                    out.push(b.grown(margin).to_polygon());
                },
                None => {
                    let p = Polygon { exterior: Vec::new(), holes: Vec::new() };
                    proof {
                        assert(p@.exterior =~= Seq::empty());
                        assert(p@.holes =~= Seq::empty());
                    }
                    out.push(p);
                },
            }
            i = i + 1;
        }
        proof {
            assert(shapes_of(out@) =~= self.reaches(shapes));
            assert forall|k: int| 0 <= k < shapes_of(out@).len() implies (#[trigger] shapes_of(out@)[k]).in_reach() by {
                assert(out@[k]@.in_reach());
            }
        }
        out
    }

    /// The grid is one of windows over the area.
    spec fn covers(self, area: Rect, grid: Grid) -> bool {
        &&& area.in_range()
        &&& grid == Grid::spec_over(area, grid.tile_size)
        &&& grid.valid()
        &&& grid.nx == tile_count(area.width(), grid.tile_size as int)
        &&& grid.ny == tile_count(area.height(), grid.tile_size as int)
    }

    /// The result in one window of the grid.
    fn run_tile(
        &self,
        polys: &[Polygon],
        area: &Rect,
        grid: &Grid,
        index: &Vec<Vec<usize>>,
        ix: usize,
        iy: usize,
    ) -> (out: Option<Vec<Polygon>>)
        requires
            self.valid(),
            shapes_in_range(shapes_of(polys@)),
            self.covers(*area, *grid),
            grid.indexes(self.reaches(shapes_of(polys@)), index@),
            ix < grid.nx,
            iy < grid.ny,
        ensures
            out matches Some(v) ==> self.in_tile(shapes_of(polys@), *area, *grid, ix as int, iy as int) == Some(
                shapes_of(v@),
            ) && shapes_in_range(shapes_of(v@)),
            out is None ==> self.in_tile(shapes_of(polys@), *area, *grid, ix as int, iy as int) is None,
    {
        let ghost boxes = self.reaches(shapes_of(polys@));
        let n = polys.len();
        let k = grid.position(ix, iy);
        proof {
            reveal(Morph::in_tile);
            assert(boxes.len() == n);
            assert(index@[iy * grid.nx + ix]@ == grid.members(boxes, boxes.len() as int, ix as int, iy as int));
            members_are_ascending(*grid, boxes, boxes.len() as int, ix as int, iy as int);
        }
        let win = tile_at(area, grid.tile_size, ix, iy);
        self.run_window(polys, &index[k], &win)
    }

    /// The results in a row of windows.
    fn run_row(&self, polys: &[Polygon], area: &Rect, grid: &Grid, index: &Vec<Vec<usize>>, iy: usize) -> (out: Option<
        Vec<Polygon>,
    >)
        requires
            self.valid(),
            shapes_in_range(shapes_of(polys@)),
            self.covers(*area, *grid),
            grid.indexes(self.reaches(shapes_of(polys@)), index@),
            iy < grid.ny,
        ensures
            out matches Some(v) ==> self.in_row(shapes_of(polys@), *area, *grid, iy as int, grid.nx as int) == Some(
                shapes_of(v@),
            ) && shapes_in_range(shapes_of(v@)),
            out is None ==> self.in_row(shapes_of(polys@), *area, *grid, iy as int, grid.nx as int) is None,
    {
        let ghost shapes = shapes_of(polys@);
        let mut out: Vec<Polygon> = Vec::new();
        assert(shapes_of(out@) =~= Seq::empty());
        let mut ix: usize = 0;
        while ix < grid.nx
            invariant
                ix <= grid.nx,
                iy < grid.ny,
                self.valid(),
                shapes == shapes_of(polys@),
                shapes_in_range(shapes),
                self.covers(*area, *grid),
                grid.indexes(self.reaches(shapes), index@),
                self.in_row(shapes, *area, *grid, iy as int, ix as int) == Some(shapes_of(out@)),
                shapes_in_range(shapes_of(out@)),
            decreases grid.nx - ix,
        {
            match self.run_tile(polys, area, grid, index, ix, iy) {
                Some(v) => {
                    let mut part = v;
                    join_in_range(&mut out, &mut part);
                    assert(self.in_row(shapes, *area, *grid, iy as int, ix + 1) == Some(shapes_of(out@)));
                },
                None => {
                    proof {
                        assert(self.in_row(shapes, *area, *grid, iy as int, ix + 1) is None);
                        failed_row(*self, shapes, *area, *grid, iy as int, ix + 1, grid.nx as int);
                    }
                    return None;
                },
            }
            ix = ix + 1;
        }
        Some(out)
    }

    /// Apply the operation window by window, on the union of the polygons near
    /// each window.  The results meet at the window edges.  `None` if a step
    /// leaves the coordinate range or there are too many windows.
    pub fn apply_tiled(&self, polys: &[Polygon], window: i64) -> (out: Option<Vec<Polygon>>)
        requires
            self.valid(),
            shapes_in_range(shapes_of(polys@)),
        ensures
            out matches Some(v) ==> self.result(shapes_of(polys@), window as int) == Some(shapes_of(v@))
                && shapes_in_range(shapes_of(v@)),
            out is None ==> self.result(shapes_of(polys@), window as int) is None,
    {
        let ghost shapes = shapes_of(polys@);
        let mut out: Vec<Polygon> = Vec::new();
        proof {
            reveal(Morph::result);
            assert(shapes_of(out@) =~= Seq::empty());
        }
        let margin = self.get_margin();
        let area = match bounding_box(polys) {
            Some(b) => b.grown(margin),
            None => {
                return Some(out);
            },
        };
        if !area.check() {
            return None;
        }
        let size: i64 = crate::geom::max_i64(1, crate::geom::max_i64(window, margin));
        let grid = match Grid::over(&area, size) {
            Some(g) => g,
            None => {
                return None;
            },
        };
        if grid.nx == 0 || grid.ny == 0 {
            proof {
                assert(self.in_row(shapes, area, grid, 0, 0) == Some(Seq::<Shape>::empty()));
                empty_rows(*self, shapes, area, grid, grid.ny as int);
            }
            return Some(out);
        }
        let reaches = self.list_reaches(polys);
        let index = build_tile_index(&reaches, grid.x_min, grid.y_min, grid.tile_size, grid.nx, grid.ny);
        let mut iy: usize = 0;
        while iy < grid.ny
            invariant
                iy <= grid.ny,
                self.valid(),
                shapes == shapes_of(polys@),
                shapes_in_range(shapes),
                self.covers(area, grid),
                grid.indexes(self.reaches(shapes), index@),
                self.result(shapes, window as int) == self.in_rows(shapes, area, grid, grid.ny as int),
                self.in_rows(shapes, area, grid, iy as int) == Some(shapes_of(out@)),
                shapes_in_range(shapes_of(out@)),
            decreases grid.ny - iy,
        {
            match self.run_row(polys, &area, &grid, &index, iy) {
                Some(v) => {
                    let mut row = v;
                    join_in_range(&mut out, &mut row);
                    assert(self.in_rows(shapes, area, grid, iy + 1) == Some(shapes_of(out@)));
                },
                None => {
                    proof {
                        failed_rows(*self, shapes, area, grid, iy + 1, grid.ny as int);
                    }
                    return None;
                },
            }
            iy = iy + 1;
        }
        Some(out)
    }
}

/// Append in-range polygons.
fn join_in_range(out: &mut Vec<Polygon>, part: &mut Vec<Polygon>)
    requires
        shapes_in_range(shapes_of(old(out)@)),
        shapes_in_range(shapes_of(old(part)@)),
    ensures
        shapes_of(final(out)@) == shapes_of(old(out)@) + shapes_of(old(part)@),
        shapes_in_range(shapes_of(final(out)@)),
{
    let ghost (x, y) = (shapes_of(out@), shapes_of(part@));
    out.append(part);
    proof {
        assert(shapes_of(out@) =~= x + y);
        assert forall|i: int| 0 <= i < shapes_of(out@).len() implies (#[trigger] shapes_of(out@)[i]).in_range() by {
            if i < x.len() {
                assert(x[i].in_range());
            } else {
                assert(y[i - x.len()].in_range());
            }
        }
    }
}

/// A grid without columns or rows has no result.
proof fn empty_rows(m: Morph, shapes: Seq<Shape>, area: Rect, grid: Grid, n: int)
    requires
        n <= 0 || grid.nx == 0,
    ensures
        m.in_rows(shapes, area, grid, n) == Some(Seq::<Shape>::empty()),
    decreases n,
{
    if n > 0 {
        empty_rows(m, shapes, area, grid, n - 1);
        assert(Seq::<Shape>::empty() + Seq::<Shape>::empty() =~= Seq::<Shape>::empty());
    }
}

/// A row with a failed window has failed.
proof fn failed_row(m: Morph, shapes: Seq<Shape>, area: Rect, grid: Grid, iy: int, k: int, n: int)
    requires
        k <= n,
        m.in_row(shapes, area, grid, iy, k) is None,
    ensures
        m.in_row(shapes, area, grid, iy, n) is None,
    decreases n - k,
{
    if k < n {
        failed_row(m, shapes, area, grid, iy, k, n - 1);
        assert(n > 0) by {
            if n <= 0 {
                assert(m.in_row(shapes, area, grid, iy, k) == Some(Seq::<Shape>::empty()));
            }
        }
    }
}

/// The rows have failed if one has.
proof fn failed_rows(m: Morph, shapes: Seq<Shape>, area: Rect, grid: Grid, k: int, n: int)
    requires
        0 < k <= n,
        m.in_row(shapes, area, grid, k - 1, grid.nx as int) is None,
    ensures
        m.in_rows(shapes, area, grid, n) is None,
    decreases n - k,
{
    if k < n {
        failed_rows(m, shapes, area, grid, k, n - 1);
    }
}

} // verus!
