//! Metal density of tiles and of the chip.  All areas are doubled.

use crate::area::clipped_area;
use crate::area::clipped_area2;
use crate::area::clips_in_range;
use crate::area::indices_valid;
use crate::area::merged_area2;
use crate::area::tiled_merge_area;
use crate::area::windows_in_range;
use crate::geom::abs_of;
use crate::geom::ring_area2;
use crate::geom::shapes_in_range;
use crate::geom::shapes_of;
use crate::geom::signed_ring_area2;
use crate::geom::Polygon;
use crate::geom::Rect;
use crate::geom::Shape;
use vstd::prelude::*;

verus! {

/// A tile as a shape.
pub open spec fn tile_shape(tile: Rect) -> Shape {
    Shape { exterior: tile.ring(), holes: Seq::empty() }
}

/// How the drawn shapes of a layer are measured.
#[derive(Clone, Copy, Debug)]
pub struct Measure {
    /// Unite overlapping shapes first.
    pub merge: bool,
    /// Window size for that, in layout units.
    pub window: Option<i64>,
}

/// The area of the listed drawn shapes in a tile.
pub open spec fn draw_area2(shapes: Seq<Shape>, indices: Seq<usize>, tile: Rect, how: Measure) -> int {
    if how.merge {
        merged_area2(shapes, indices, tile, how.window)
    } else {
        clipped_area2(shapes, indices, tile_shape(tile), indices.len() as int)
    }
}

/// The drawn area can be computed: clipping stays in range, and the area fits.
pub open spec fn draw_area_known(shapes: Seq<Shape>, indices: Seq<usize>, tile: Rect, how: Measure) -> bool {
    &&& how.merge ==> windows_in_range(shapes, indices, tile, how.window)
    &&& !how.merge ==> clips_in_range(shapes, indices, tile_shape(tile))
    &&& draw_area2(shapes, indices, tile, how) <= i128::MAX
}

/// The area of the listed filled shapes in a tile.
pub open spec fn old_area2(shapes: Seq<Shape>, indices: Seq<usize>, tile: Rect) -> int {
    clipped_area2(shapes, indices, tile_shape(tile), indices.len() as int)
}

/// The filled area can be computed.
pub open spec fn old_area_known(shapes: Seq<Shape>, indices: Seq<usize>, tile: Rect) -> bool {
    clips_in_range(shapes, indices, tile_shape(tile)) && old_area2(shapes, indices, tile) <= i128::MAX
}

/// Drawn and filled area of a tile, and its own.
#[derive(Clone, Copy, Debug)]
pub struct TileDensity {
    pub draw_area: i128,
    pub fill_area: i128,
    pub tile_area: i128,
}

/// The density of a tile from the shapes listed for it.  `None` if clipping
/// leaves the coordinate range or an area does not fit.
pub fn tile_density(
    drawing: &[Polygon],
    drawing_indices: &Vec<usize>,
    fill: &[Polygon],
    fill_indices: &Vec<usize>,
    tile: &Rect,
    how: &Measure,
) -> (r: Option<TileDensity>)
    requires
        shapes_in_range(shapes_of(drawing@)),
        shapes_in_range(shapes_of(fill@)),
        indices_valid(drawing_indices@, drawing@.len()),
        indices_valid(fill_indices@, fill@.len()),
        tile.in_range(),
        tile.ordered(),
        how.window matches Some(w) ==> w > 0,
    ensures
        r is Some <==> draw_area_known(shapes_of(drawing@), drawing_indices@, *tile, *how) && old_area_known(
            shapes_of(fill@),
            fill_indices@,
            *tile,
        ),
        r matches Some(d) ==> d.draw_area == draw_area2(shapes_of(drawing@), drawing_indices@, *tile, *how)
            && d.fill_area == old_area2(shapes_of(fill@), fill_indices@, *tile) && d.tile_area == 2 * tile.spec_area()
            && d.valid(),
{
    let tile_poly = tile.to_polygon();
    let draw = if how.merge {
        tiled_merge_area(drawing, drawing_indices, tile, how.window)
    } else {
        clipped_area(drawing, drawing_indices, &tile_poly)
    };
    let draw_area = match draw {
        Some(a) => a,
        None => {
            return None;
        },
    };
    let fill_area = match clipped_area(fill, fill_indices, &tile_poly) {
        Some(a) => a,
        None => {
            return None;
        },
    };
    Some(TileDensity { draw_area, fill_area, tile_area: 2 * tile.area() })
}

/// The areas of the exteriors of the first `n` shapes, summed; holes count as
/// filled.
pub open spec fn outer_area2(shapes: Seq<Shape>, n: int) -> int
    decreases n,
{
    if n <= 0 {
        0
    } else {
        outer_area2(shapes, n - 1) + abs_of(ring_area2(shapes[n - 1].exterior))
    }
}

proof fn outer_area2_grows(shapes: Seq<Shape>, m: int, n: int)
    requires
        0 <= m <= n,
    ensures
        0 <= outer_area2(shapes, m) <= outer_area2(shapes, n),
    decreases n,
{
    if m < n {
        outer_area2_grows(shapes, m, n - 1);
    } else if n > 0 {
        outer_area2_grows(shapes, m - 1, n - 1);
    }
}

/// The reference area of densities: the filled exteriors of the boundary
/// polygons.  `None` if the value does not fit.
pub fn reference_area(polys: &[Polygon]) -> (area: Option<i128>)
    requires
        shapes_in_range(shapes_of(polys@)),
    ensures
        area is Some <==> outer_area2(shapes_of(polys@), polys@.len() as int) <= i128::MAX,
        area matches Some(a) ==> a == outer_area2(shapes_of(polys@), polys@.len() as int) && a >= 0,
{
    let ghost shapes = shapes_of(polys@);
    let n = polys.len();
    let mut total: i128 = 0;
    let mut i: usize = 0;
    while i < n
        invariant
            n == polys@.len(),
            i <= n,
            shapes == shapes_of(polys@),
            shapes_in_range(shapes),
            total == outer_area2(shapes, i as int),
            total >= 0,
        decreases n - i,
    {
        assert(shapes[i as int] == polys@[i as int]@);
        assert(shapes[i as int].in_range());
        let a = signed_ring_area2(&polys[i].exterior);
        let outer: i128 = if a < 0 {
            -a
        } else {
            a
        };
        if outer > i128::MAX - total {
            proof {
                outer_area2_grows(shapes, i + 1, n as int);
            }
            return None;
        }
        total = total + outer;
        i = i + 1;
    }
    Some(total)
}

impl TileDensity {
    /// Areas are not negative.
    pub open spec fn valid(self) -> bool {
        self.draw_area >= 0 && self.fill_area >= 0
    }
}

/// Drawn and filled area of all tiles.
#[derive(Clone, Copy, Debug, PartialEq, Eq, Structural)]
pub struct DensityTotals {
    pub draw: i128,
    pub fill: i128,
}

/// The sums of the drawn and filled areas of the first `n` tiles.
pub open spec fn density_sums(tiles: Seq<TileDensity>, n: int) -> (int, int)
    decreases n,
{
    if n <= 0 {
        (0, 0)
    } else {
        let (d, f) = density_sums(tiles, n - 1);
        (d + tiles[n - 1].draw_area, f + tiles[n - 1].fill_area)
    }
}

proof fn density_sums_grow(tiles: Seq<TileDensity>, m: int, n: int)
    requires
        forall|i: int| 0 <= i < tiles.len() ==> (#[trigger] tiles[i]).valid(),
        0 <= m <= n <= tiles.len(),
    ensures
        0 <= density_sums(tiles, m).0 <= density_sums(tiles, n).0,
        0 <= density_sums(tiles, m).1 <= density_sums(tiles, n).1,
    decreases n,
{
    if n > 0 {
        assert(tiles[n - 1].valid());
        if m < n {
            density_sums_grow(tiles, m, n - 1);
        } else {
            density_sums_grow(tiles, m - 1, n - 1);
        }
    }
}

/// The areas of all tiles together, `None` if a sum does not fit.
pub fn total_densities(tiles: &Vec<TileDensity>) -> (r: Option<DensityTotals>)
    requires
        forall|i: int| 0 <= i < tiles@.len() ==> (#[trigger] tiles@[i]).valid(),
    ensures
        ({
            let (d, f) = density_sums(tiles@, tiles@.len() as int);
            &&& r is Some <==> d <= i128::MAX && f <= i128::MAX
            &&& r matches Some(t) ==> t.draw == d && t.fill == f
        }),
{
    let mut t = DensityTotals { draw: 0, fill: 0 };
    let mut i: usize = 0;
    while i < tiles.len()
        invariant
            i <= tiles@.len(),
            forall|k: int| 0 <= k < tiles@.len() ==> (#[trigger] tiles@[k]).valid(),
            t.draw == density_sums(tiles@, i as int).0,
            t.fill == density_sums(tiles@, i as int).1,
            t.draw >= 0,
            t.fill >= 0,
        decreases tiles@.len() - i,
    {
        let tile = &tiles[i];
        assert(tiles@[i as int].valid());
        if tile.draw_area > i128::MAX - t.draw || tile.fill_area > i128::MAX - t.fill {
            proof {
                density_sums_grow(tiles@, i + 1, tiles@.len() as int);
            }
            return None;
        }
        t = DensityTotals { draw: t.draw + tile.draw_area, fill: t.fill + tile.fill_area };
        i = i + 1;
    }
    Some(t)
}

} // verus!
