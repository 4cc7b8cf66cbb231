//! The tile grid over the chip and the index of polygons by tile.

use crate::geom::bounds;
use crate::geom::bounds_in_reach;
use crate::geom::min_of;
use crate::geom::shapes_in_reach;
use crate::geom::shapes_of;
use crate::geom::Polygon;
use crate::geom::REACH;
use crate::geom::Rect;
use crate::geom::Shape;
use vstd::arithmetic::div_mod::lemma_div_is_ordered;
use vstd::arithmetic::div_mod::lemma_div_plus_one;
use vstd::arithmetic::div_mod::lemma_fundamental_div_mod;
use vstd::arithmetic::div_mod::lemma_fundamental_div_mod_converse;
use vstd::prelude::*;

verus! {

/// The number of tiles along a side.
pub open spec fn tile_count(length: int, tile_size: int) -> int {
    if length <= 0 {
        0
    } else {
        (length + tile_size - 1) / tile_size
    }
}

/// Tile `ix`, `iy` of the grid over `area`; the last tiles end with the area.
pub open spec fn tile_rect(area: Rect, tile_size: int, ix: int, iy: int) -> Rect {
    Rect {
        x0: (area.x0 + ix * tile_size) as i64,
        y0: (area.y0 + iy * tile_size) as i64,
        x1: min_of(area.x0 + ix * tile_size + tile_size, area.x1 as int) as i64,
        y1: min_of(area.y0 + iy * tile_size + tile_size, area.y1 as int) as i64,
    }
}

/// The number of tiles that cover `length`.
pub fn count_tiles(length: i64, tile_size: i64) -> (n: usize)
    requires
        length <= 0x1_0000_0000,
        tile_size > 0,
        length <= usize::MAX,
    ensures
        n == tile_count(length as int, tile_size as int),
{
    if length <= 0 {
        return 0;
    }
    proof {
        let (l, t) = (length as int, tile_size as int);
        lemma_div_plus_one(l - 1, t);
        lemma_fundamental_div_mod(l - 1, t);
        assert((l - 1) / t <= l - 1) by (nonlinear_arith)
            requires
                t * ((l - 1) / t) <= l - 1,
                t >= 1,
                l >= 1,
        ;
        assert((l - 1) / t >= 0) by (nonlinear_arith)
            requires
                t >= 1,
                l >= 1,
        ;
    }
    ((length - 1) / tile_size + 1) as usize
}

/// A positive length has a tile.
pub proof fn some_tiles(length: int, tile_size: int)
    requires
        length > 0,
        tile_size > 0,
    ensures
        tile_count(length, tile_size) > 0,
{
    assert((length + tile_size - 1) / tile_size > 0) by (nonlinear_arith)
        requires
            length > 0,
            tile_size > 0,
    ;
}

/// A tile inside the count starts inside the area.
pub proof fn tile_starts_inside(length: int, tile_size: int, i: int)
    requires
        tile_size > 0,
        0 <= i < tile_count(length, tile_size),
    ensures
        0 <= i * tile_size < length,
{
    let n = tile_count(length, tile_size);
    lemma_div_plus_one(length - 1, tile_size);
    lemma_fundamental_div_mod(length - 1, tile_size);
    assert(0 <= i * tile_size <= (n - 1) * tile_size) by (nonlinear_arith)
        requires
            0 <= i <= n - 1,
            tile_size > 0,
    ;
    assert(tile_size * ((length - 1) / tile_size) == (n - 1) * tile_size) by (nonlinear_arith)
        requires
            (length - 1) / tile_size == n - 1,
    ;
}

/// The rectangle of one tile.
pub fn tile_at(area: &Rect, tile_size: i64, ix: usize, iy: usize) -> (r: Rect)
    requires
        area.in_range(),
        tile_size > 0,
        ix < tile_count(area.width(), tile_size as int),
        iy < tile_count(area.height(), tile_size as int),
    ensures
        r == tile_rect(*area, tile_size as int, ix as int, iy as int),
        r.in_range(),
        area.spec_encloses(r),
        r.x0 < r.x1,
        r.y0 < r.y1,
{
    proof {
        tile_starts_inside(area.width(), tile_size as int, ix as int);
        tile_starts_inside(area.height(), tile_size as int, iy as int);
        assert(ix <= ix * tile_size) by (nonlinear_arith)
            requires
                tile_size >= 1,
                ix >= 0,
        ;
        assert(iy <= iy * tile_size) by (nonlinear_arith)
            requires
                tile_size >= 1,
                iy >= 0,
        ;
    }
    let x0: i64 = area.x0 + ix as i64 * tile_size;
    let y0: i64 = area.y0 + iy as i64 * tile_size;
    let x1: i64 = if area.x1 - x0 <= tile_size {
        area.x1
    } else {
        x0 + tile_size
    };
    let y1: i64 = if area.y1 - y0 <= tile_size {
        area.y1
    } else {
        y0 + tile_size
    };
    Rect { x0, y0, x1, y1 }
}

/// The grid cell of coordinate `c`, clamped to the grid.
pub open spec fn grid_cell(c: int, origin: int, tile_size: int, n: int) -> int {
    let k = (c - origin) / tile_size;
    if k < 0 {
        0
    } else if k > n - 1 {
        n - 1
    } else {
        k
    }
}

/// A grid of `nx` by `ny` tiles with its lower left corner at `x_min`, `y_min`.
#[derive(Clone, Copy, Debug)]
pub struct Grid {
    pub x_min: i64,
    pub y_min: i64,
    pub tile_size: i64,
    pub nx: usize,
    pub ny: usize,
}

impl Grid {
    /// The tile size is positive, the origin in range and the tiles countable.
    pub open spec fn valid(self) -> bool {
        &&& crate::geom::in_range(self.x_min as int)
        &&& crate::geom::in_range(self.y_min as int)
        &&& self.tile_size > 0
        &&& self.nx * self.ny <= usize::MAX
    }

    /// Tile `ix`, `iy` lists a shape with this bounding box.
    pub open spec fn lists(self, b: Rect, ix: int, iy: int) -> bool {
        let t = self.tile_size as int;
        &&& grid_cell(b.x0 as int, self.x_min as int, t, self.nx as int) <= ix <= grid_cell(
            b.x1 as int,
            self.x_min as int,
            t,
            self.nx as int,
        )
        &&& grid_cell(b.y0 as int, self.y_min as int, t, self.ny as int) <= iy <= grid_cell(
            b.y1 as int,
            self.y_min as int,
            t,
            self.ny as int,
        )
    }

    /// The indices of the first `n` shapes that tile `ix`, `iy` lists.
    pub open spec fn members(self, shapes: Seq<Shape>, n: int, ix: int, iy: int) -> Seq<usize>
        decreases n,
    {
        if n <= 0 {
            Seq::empty()
        } else if shapes[n - 1].exterior.len() > 0 && self.lists(bounds(shapes[n - 1].exterior), ix, iy) {
            self.members(shapes, n - 1, ix, iy).push((n - 1) as usize)
        } else {
            self.members(shapes, n - 1, ix, iy)
        }
    }

    /// `index` holds the members of every tile, row by row.
    pub open spec fn indexes(self, shapes: Seq<Shape>, index: Seq<Vec<usize>>) -> bool {
        &&& index.len() == self.nx * self.ny
        &&& forall|ix: int, iy: int|
            0 <= ix < self.nx && 0 <= iy < self.ny ==> (#[trigger] index[iy * self.nx + ix])@ == self.members(
                shapes,
                shapes.len() as int,
                ix,
                iy,
            )
    }
}

/// The tiles over `area` can be counted.
pub open spec fn tiles_fit(area: Rect, tile_size: int) -> bool {
    let (nx, ny) = (tile_count(area.width(), tile_size), tile_count(area.height(), tile_size));
    &&& area.width() <= usize::MAX
    &&& area.height() <= usize::MAX
    &&& nx * ny <= usize::MAX
}

/// No shape has points.
pub open spec fn are_pointless(shapes: Seq<Shape>) -> bool {
    forall|i: int| 0 <= i < shapes.len() ==> (#[trigger] shapes[i]).exterior.len() == 0
}

/// Are there no points in any of the polygons?
pub fn check_pointless(polys: &[Polygon]) -> (b: bool)
    ensures
        b == are_pointless(shapes_of(polys@)),
{
    let ghost shapes = shapes_of(polys@);
    let mut i: usize = 0;
    while i < polys.len()
        invariant
            i <= polys@.len(),
            shapes == shapes_of(polys@),
            forall|k: int| 0 <= k < i ==> (#[trigger] shapes[k]).exterior.len() == 0,
        decreases polys@.len() - i,
    {
        assert(shapes[i as int] == polys@[i as int]@);
        if polys[i].exterior.len() > 0 {
            assert(shapes[i as int].exterior.len() > 0);
            return false;
        }
        i = i + 1;
    }
    true
}

impl Grid {
    /// The grid of tiles over `area`.
    pub open spec fn spec_over(area: Rect, tile_size: i64) -> Grid {
        Grid {
            x_min: area.x0,
            y_min: area.y0,
            tile_size,
            nx: tile_count(area.width(), tile_size as int) as usize,
            ny: tile_count(area.height(), tile_size as int) as usize,
        }
    }

    /// The grid of tiles over `area`, `None` if there are too many.
    pub fn over(area: &Rect, tile_size: i64) -> (r: Option<Grid>)
        requires
            area.in_range(),
            area.ordered(),
            tile_size > 0,
        ensures
            r is Some <==> tiles_fit(*area, tile_size as int),
            r matches Some(g) ==> g == Self::spec_over(*area, tile_size) && g.valid() && g.nx == tile_count(
                area.width(),
                tile_size as int,
            ) && g.ny == tile_count(area.height(), tile_size as int),
    {
        let w: i64 = area.x1 - area.x0;
        let h: i64 = area.y1 - area.y0;
        if w as u128 > usize::MAX as u128 || h as u128 > usize::MAX as u128 {
            return None;
        }
        let nx = count_tiles(w, tile_size);
        let ny = count_tiles(h, tile_size);
        proof {
            assert(nx * ny <= u128::MAX) by (nonlinear_arith)
                requires
                    nx <= 0xffff_ffff_ffff_ffff,
                    ny <= 0xffff_ffff_ffff_ffff,
            ;
        }
        if nx as u128 * ny as u128 > usize::MAX as u128 {
            return None;
        }
        Some(Grid { x_min: area.x0, y_min: area.y0, tile_size, nx, ny })
    }
}

/// The clamped grid cell of a coordinate.
fn cell_of(c: i64, origin: i64, tile_size: i64, n: usize) -> (k: usize)
    requires
        -REACH <= c <= REACH,
        crate::geom::in_range(origin as int),
        tile_size > 0,
        n > 0,
    ensures
        k == grid_cell(c as int, origin as int, tile_size as int, n as int),
        k < n,
{
    if c < origin {
        proof {
            let (a, t) = (c - origin, tile_size as int);
            lemma_fundamental_div_mod(a, t);
            assert(a / t < 0) by (nonlinear_arith)
                requires
                    t * (a / t) + a % t == a,
                    a < 0,
                    0 <= a % t,
                    t > 0,
            ;
        }
        return 0;
    }
    let k: i64 = (c - origin) / tile_size;
    if k as u64 >= n as u64 {
        n - 1
    } else {
        k as usize
    }
}

/// Position of tile `ix`, `iy` in the list of tiles.
pub proof fn tile_position(nx: int, ny: int, ix: int, iy: int)
    requires
        0 <= ix < nx,
        0 <= iy < ny,
    ensures
        0 <= iy * nx + ix < nx * ny,
        (iy * nx + ix) / nx == iy,
        (iy * nx + ix) % nx == ix,
{
    assert(0 <= iy * nx && iy * nx + nx <= nx * ny) by (nonlinear_arith)
        requires
            0 <= iy < ny,
            nx > 0,
    ;
    lemma_fundamental_div_mod_converse(iy * nx + ix, nx, iy, ix);
}

impl Grid {
    /// The position of a tile in an index, row by row.
    pub fn position(&self, ix: usize, iy: usize) -> (k: usize)
        requires
            self.valid(),
            ix < self.nx,
            iy < self.ny,
        ensures
            k == iy * self.nx + ix,
            k < self.nx * self.ny,
    {
        proof {
            tile_position(self.nx as int, self.ny as int, ix as int, iy as int);
            assert(iy * self.nx <= usize::MAX) by (nonlinear_arith)
                requires
                    iy * self.nx + ix < self.nx * self.ny,
                    self.nx * self.ny <= usize::MAX,
                    ix >= 0,
            ;
        }
        iy * self.nx + ix
    }
}

/// Append `ki` to the tiles of a block of the grid.
fn push_block(index: &mut Vec<Vec<usize>>, grid: &Grid, ki: usize, ix0: usize, ix1: usize, iy0: usize, iy1: usize)
    requires
        grid.nx > 0,
        grid.ny > 0,
        grid.nx * grid.ny <= usize::MAX,
        old(index)@.len() == grid.nx * grid.ny,
        ix1 < grid.nx,
        iy1 < grid.ny,
    ensures
        final(index)@.len() == grid.nx * grid.ny,
        forall|t: int|
            0 <= t < grid.nx * grid.ny ==> (#[trigger] final(index)@[t])@ == if ix0 <= t % (grid.nx as int) <= ix1
                && iy0 <= t / (grid.nx as int) <= iy1 {
                old(index)@[t]@.push(ki)
            } else {
                old(index)@[t]@
            },
{
    let nx = grid.nx;
    let ghost total = grid.nx * grid.ny;
    let mut iy: usize = iy0;
    while iy <= iy1
        invariant
            nx == grid.nx,
            nx > 0,
            total == grid.nx * grid.ny,
            total <= usize::MAX,
            index@.len() == total,
            old(index)@.len() == total,
            ix1 < grid.nx,
            iy1 < grid.ny,
            iy0 <= iy,
            iy <= iy1 + 1 || iy == iy0,
            forall|t: int|
                0 <= t < total ==> (#[trigger] index@[t])@ == if ix0 <= t % (nx as int) <= ix1 && iy0 <= t / (
                nx as int) <= iy1 && t / (nx as int) < iy {
                    old(index)@[t]@.push(ki)
                } else {
                    old(index)@[t]@
                },
        decreases iy1 + 1 - iy,
    {
        let mut ix: usize = ix0;
        while ix <= ix1
            invariant
                nx == grid.nx,
                nx > 0,
                total == grid.nx * grid.ny,
                total <= usize::MAX,
                index@.len() == total,
                old(index)@.len() == total,
                ix1 < grid.nx,
                iy1 < grid.ny,
                iy0 <= iy <= iy1,
                ix0 <= ix,
                ix <= ix1 + 1 || ix == ix0,
                forall|t: int|
                    0 <= t < total ==> (#[trigger] index@[t])@ == if ix0 <= t % (nx as int) <= ix1 && iy0 <= t / (
                    nx as int) <= iy1 && (t / (nx as int) < iy || (t / (nx as int) == iy && t % (nx as int) < ix)) {
                        old(index)@[t]@.push(ki)
                    } else {
                        old(index)@[t]@
                    },
            decreases ix1 + 1 - ix,
        {
            proof {
                tile_position(nx as int, grid.ny as int, ix as int, iy as int);
            }
            assert(iy * nx <= usize::MAX) by (nonlinear_arith)
                requires
                    iy * nx + ix < total,
                    total <= usize::MAX,
                    ix >= 0,
            ;
            let k: usize = iy * nx + ix;
            let ghost before = index@;
            index[k].push(ki);
            proof {
                assert forall|t: int| 0 <= t < total implies (#[trigger] index@[t])@ == if ix0 <= t % (nx as int) <= ix1
                    && iy0 <= t / (nx as int) <= iy1 && (t / (nx as int) < iy || (t / (nx as int) == iy && t % (
                nx as int) < ix + 1)) {
                    old(index)@[t]@.push(ki)
                } else {
                    old(index)@[t]@
                } by {
                    if t == k {
                        assert(before[t]@ == old(index)@[t]@);
                    } else {
                        assert(index@[t] == before[t]);
                        if t / (nx as int) == iy && t % (nx as int) == ix {
                            lemma_fundamental_div_mod(t, nx as int);
                            assert(nx * iy == iy * nx) by (nonlinear_arith);
                            assert(false);
                        }
                    }
                }
            }
            ix = ix + 1;
        }
        proof {
            assert forall|t: int| 0 <= t < total implies (#[trigger] index@[t])@ == if ix0 <= t % (nx as int) <= ix1
                && iy0 <= t / (nx as int) <= iy1 && t / (nx as int) < iy + 1 {
                old(index)@[t]@.push(ki)
            } else {
                old(index)@[t]@
            } by {
                let m = t % (nx as int);
            }
        }
        iy = iy + 1;
    }
}

/// Index polygons by tile: entry `iy * nx + ix` lists the polygons whose
/// bounding box reaches that tile, in order.  A box beyond the grid counts for
/// the nearest tiles.
pub fn build_tile_index(polys: &[Polygon], x_min: i64, y_min: i64, tile_size: i64, nx: usize, ny: usize) -> (index: Vec<
    Vec<usize>,
>)
    requires
        (Grid { x_min, y_min, tile_size, nx, ny }).valid(),
        shapes_in_reach(shapes_of(polys@)),
        nx > 0 && ny > 0 || are_pointless(shapes_of(polys@)),
    ensures
        (Grid { x_min, y_min, tile_size, nx, ny }).indexes(shapes_of(polys@), index@),
{
    let grid = Grid { x_min, y_min, tile_size, nx, ny };
    index_grid(polys, &grid)
}

/// The index of polygons over a grid.
fn index_grid(polys: &[Polygon], grid: &Grid) -> (index: Vec<Vec<usize>>)
    requires
        grid.valid(),
        shapes_in_reach(shapes_of(polys@)),
        grid.nx > 0 && grid.ny > 0 || are_pointless(shapes_of(polys@)),
    ensures
        grid.indexes(shapes_of(polys@), index@),
{
    let ghost shapes = shapes_of(polys@);
    assert(grid.nx * grid.ny >= 0) by (nonlinear_arith)
        requires
            grid.nx >= 0,
            grid.ny >= 0,
    ;
    let total: usize = grid.nx * grid.ny;
    let mut index: Vec<Vec<usize>> = Vec::new();
    let mut t: usize = 0;
    while t < total
        invariant
            t <= total,
            index@.len() == t,
            forall|k: int| 0 <= k < t ==> (#[trigger] index@[k])@ == Seq::<usize>::empty(),
        decreases total - t,
    {
        index.push(Vec::new());
        t = t + 1;
    }
    let n = polys.len();
    let nx = grid.nx;
    let mut ki: usize = 0;
    while ki < n
        invariant
            n == polys@.len(),
            ki <= n,
            nx == grid.nx,
            shapes == shapes_of(polys@),
            grid.valid(),
            shapes_in_reach(shapes),
            nx > 0 && grid.ny > 0 || forall|i: int|
                0 <= i < polys@.len() ==> (#[trigger] shapes[i]).exterior.len() == 0,
            total == grid.nx * grid.ny,
            index@.len() == total,
            forall|t: int|
                0 <= t < total ==> (#[trigger] index@[t])@ == grid.members(
                    shapes,
                    ki as int,
                    t % (nx as int),
                    t / (nx as int),
                ),
        decreases n - ki,
    {
        assert(shapes[ki as int] == polys@[ki as int]@);
        assert(shapes[ki as int].in_reach());
        if let Some(b) = polys[ki].bounding_rect() {
            proof {
                bounds_in_reach(shapes[ki as int].exterior);
            }
            let ix0 = cell_of(b.x0, grid.x_min, grid.tile_size, grid.nx);
            let ix1 = cell_of(b.x1, grid.x_min, grid.tile_size, grid.nx);
            let iy0 = cell_of(b.y0, grid.y_min, grid.tile_size, grid.ny);
            let iy1 = cell_of(b.y1, grid.y_min, grid.tile_size, grid.ny);
            let ghost before = index@;
            push_block(&mut index, grid, ki, ix0, ix1, iy0, iy1);
            proof {
                assert forall|t: int| 0 <= t < total implies (#[trigger] index@[t])@ == grid.members(
                    shapes,
                    ki + 1,
                    t % (nx as int),
                    t / (nx as int),
                ) by {
                    assert(before[t]@ == grid.members(shapes, ki as int, t % (nx as int), t / (nx as int)));
                }
            }
        }
        ki = ki + 1;
    }
    proof {
        assert forall|ix: int, iy: int| 0 <= ix < grid.nx && 0 <= iy < grid.ny implies (#[trigger] index@[iy * grid.nx
            + ix])@ == grid.members(shapes, shapes.len() as int, ix, iy) by {
            tile_position(grid.nx as int, grid.ny as int, ix, iy);
        }
    }
    index
}

/// The members of a tile are positions of shapes, in ascending order.
pub proof fn members_are_ascending(grid: Grid, shapes: Seq<Shape>, n: int, ix: int, iy: int)
    requires
        0 <= n <= shapes.len() <= usize::MAX,
    ensures
        forall|p: int| 0 <= p < grid.members(shapes, n, ix, iy).len() ==> (#[trigger] grid.members(shapes, n, ix, iy)[p]) < n,
        forall|p: int, q: int|
            0 <= p < q < grid.members(shapes, n, ix, iy).len() ==> (#[trigger] grid.members(shapes, n, ix, iy)[p])
                < (#[trigger] grid.members(shapes, n, ix, iy)[q]),
    decreases n,
{
    if n > 0 {
        members_are_ascending(grid, shapes, n - 1, ix, iy);
        let m = grid.members(shapes, n, ix, iy);
        let prev = grid.members(shapes, n - 1, ix, iy);
        assert(forall|p: int| 0 <= p < prev.len() ==> (#[trigger] m[p]) == prev[p]);
        assert(m.len() > prev.len() ==> m[prev.len() as int] == n - 1);
        assert forall|p: int| 0 <= p < m.len() implies (#[trigger] m[p]) < n by {
            if p < prev.len() {
                assert(prev[p] < n - 1);
            }
        }
        assert forall|p: int, q: int| 0 <= p < q < m.len() implies (#[trigger] m[p]) < (#[trigger] m[q]) by {
            assert(prev[p] < n - 1);
            if q < prev.len() {
                assert(prev[p] < prev[q]);
            }
        }
    }
}

/// A tile lists shape `k` exactly if the box of that shape reaches the tile.
pub proof fn member_iff_listed(grid: Grid, shapes: Seq<Shape>, n: int, ix: int, iy: int, k: int)
    requires
        0 <= k < n <= shapes.len() <= usize::MAX,
    ensures
        grid.members(shapes, n, ix, iy).contains(k as usize) <==> shapes[k].exterior.len() > 0 && grid.lists(
            bounds(shapes[k].exterior),
            ix,
            iy,
        ),
    decreases n,
{
    let m = grid.members(shapes, n, ix, iy);
    let prev = grid.members(shapes, n - 1, ix, iy);
    members_are_ascending(grid, shapes, n - 1, ix, iy);
    if k < n - 1 {
        member_iff_listed(grid, shapes, n - 1, ix, iy, k);
        if prev.contains(k as usize) {
            let p = choose|p: int| 0 <= p < prev.len() && prev[p] == k as usize;
            assert(m[p] == k as usize);
        }
        if m.contains(k as usize) {
            let p = choose|p: int| 0 <= p < m.len() && m[p] == k as usize;
            assert(p < prev.len() ==> prev[p] == m[p]);
            assert(prev.contains(k as usize));
        }
    } else {
        if shapes[k].exterior.len() > 0 && grid.lists(bounds(shapes[k].exterior), ix, iy) {
            assert(m[m.len() - 1] == k as usize);
        } else if m.contains(k as usize) {
            let p = choose|p: int| 0 <= p < m.len() && m[p] == k as usize;
            assert(prev[p] < n - 1);
        }
    }
}

/// A shape whose box overlaps a tile of the grid is listed for that tile.
pub proof fn overlap_is_listed(grid: Grid, b: Rect, ix: int, iy: int)
    requires
        grid.tile_size > 0,
        0 <= ix < grid.nx,
        0 <= iy < grid.ny,
        b.x0 < grid.x_min + (ix + 1) * grid.tile_size,
        b.x1 >= grid.x_min + ix * grid.tile_size,
        b.y0 < grid.y_min + (iy + 1) * grid.tile_size,
        b.y1 >= grid.y_min + iy * grid.tile_size,
    ensures
        grid.lists(b, ix, iy),
{
    let t = grid.tile_size as int;
    overlap_on_axis(b.x0 - grid.x_min, b.x1 - grid.x_min, t, ix);
    overlap_on_axis(b.y0 - grid.y_min, b.y1 - grid.y_min, t, iy);
}

proof fn overlap_on_axis(lo: int, hi: int, t: int, i: int)
    requires
        t > 0,
        0 <= i,
        lo < (i + 1) * t,
        hi >= i * t,
    ensures
        lo / t <= i,
        hi / t >= i,
{
    lemma_fundamental_div_mod(lo, t);
    lemma_fundamental_div_mod(hi, t);
    assert(lo / t <= i) by (nonlinear_arith)
        requires
            t * (lo / t) + lo % t == lo,
            0 <= lo % t,
            lo < (i + 1) * t,
            t > 0,
    ;
    assert(hi / t >= i) by (nonlinear_arith)
        requires
            t * (hi / t) + hi % t == hi,
            hi % t < t,
            hi >= i * t,
            t > 0,
    ;
}

impl Grid {
    /// The positions of the polygons that an index lists for a tile.
    pub fn listed<'a>(&self, index: &'a Vec<Vec<usize>>, polys: &[Polygon], ix: usize, iy: usize) -> (v: &'a Vec<usize>)
        requires
            self.valid(),
            self.indexes(shapes_of(polys@), index@),
            ix < self.nx,
            iy < self.ny,
        ensures
            v@ == self.members(shapes_of(polys@), polys@.len() as int, ix as int, iy as int),
            crate::area::indices_valid(v@, polys@.len()),
    {
        let n = polys.len();
        let k = self.position(ix, iy);
        proof {
            assert(index@[iy * self.nx + ix]@ == self.members(shapes_of(polys@), n as int, ix as int, iy as int));
            members_are_ascending(*self, shapes_of(polys@), n as int, ix as int, iy as int);
        }
        &index[k]
    }
}

/// The unit cell at `x`, `y` lies in the rectangle.
pub open spec fn holds_cell(r: Rect, x: int, y: int) -> bool {
    r.x0 <= x < r.x1 && r.y0 <= y < r.y1
}

/// `i` is the tile of a side of `length` that holds `d`.
proof fn place_on_axis(length: int, t: int, d: int)
    requires
        t > 0,
        0 <= d < length,
    ensures
        0 <= d / t < tile_count(length, t),
        d / t * t <= d < d / t * t + t,
        forall|i: int| #![trigger i * t] i * t <= d < i * t + t ==> i == d / t,
{
    lemma_fundamental_div_mod(d, t);
    let q = d / t;
    assert(q * t == t * q) by (nonlinear_arith);
    assert(q >= 0) by (nonlinear_arith)
        requires
            t * q + d % t == d,
            d % t < t,
            d >= 0,
            t > 0,
    ;
    lemma_div_plus_one(length - 1, t);
    lemma_div_is_ordered(d, length - 1, t);
    assert forall|i: int| #![trigger i * t] i * t <= d < i * t + t implies i == q by {
        assert(i == q) by (nonlinear_arith)
            requires
                i * t <= d < i * t + t,
                q * t <= d < q * t + t,
                t > 0,
        ;
    }
}

/// The tiles partition the area: every unit cell of it lies in exactly one.
pub proof fn tiles_partition(area: Rect, tile_size: int, x: int, y: int)
    requires
        area.in_range(),
        tile_size > 0,
        holds_cell(area, x, y),
    ensures
        ({
            let (ix, iy) = ((x - area.x0) / tile_size, (y - area.y0) / tile_size);
            &&& 0 <= ix < tile_count(area.width(), tile_size)
            &&& 0 <= iy < tile_count(area.height(), tile_size)
            &&& forall|jx: int, jy: int|
                0 <= jx < tile_count(area.width(), tile_size) && 0 <= jy < tile_count(area.height(), tile_size) ==> (
                holds_cell(#[trigger] tile_rect(area, tile_size, jx, jy), x, y) <==> jx == ix && jy == iy)
        }),
{
    let (dx, dy) = (x - area.x0, y - area.y0);
    place_on_axis(area.width(), tile_size, dx);
    place_on_axis(area.height(), tile_size, dy);
    let (ix, iy) = (dx / tile_size, dy / tile_size);
    let (nx, ny) = (tile_count(area.width(), tile_size), tile_count(area.height(), tile_size));
    assert forall|jx: int, jy: int| 0 <= jx < nx && 0 <= jy < ny implies (holds_cell(
        #[trigger] tile_rect(area, tile_size, jx, jy),
        x,
        y,
    ) <==> jx == ix && jy == iy) by {
        tile_starts_inside(area.width(), tile_size, jx);
        tile_starts_inside(area.height(), tile_size, jy);
        tile_starts_inside(area.width(), tile_size, ix);
        tile_starts_inside(area.height(), tile_size, iy);
        let (ax, ay) = (jx * tile_size, jy * tile_size);
        let (bx, by) = (ix * tile_size, iy * tile_size);
    }
}

} // verus!
