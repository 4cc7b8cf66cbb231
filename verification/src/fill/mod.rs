//! Fill generation, tile by tile.

use crate::geom::min_of;
use crate::geom::Point;
use crate::geom::Rect;
use crate::pdk::is_length;
use crate::pdk::FULL;
use vstd::prelude::*;

pub mod account;
pub mod amounts;
pub mod lattice;
pub mod output;
pub mod overlap;
pub mod plan;
pub mod reading;
pub mod report;
pub mod rules;
pub mod saturation;
pub mod search;
pub mod sizing;
pub mod spacing;
pub mod square;
pub mod steps;
pub mod tile;
pub mod track;
pub mod usable;

verus! {

/// Areas saturate here, far beyond that of any tile.
pub const AREA_CAP: i128 = 0x1_0000_0000_0000_0000_0000_0000;

/// Largest magnitude of a density, in millionths of a percent.
pub const DENSITY_LIMIT: i64 = 0x100_0000_0000;

/// What every fill strategy knows of its tile.  Areas are doubled.
#[derive(Clone, Copy, Debug)]
pub struct TileCtx {
    /// Area covered so far.
    pub running: i128,
    /// Density to reach.
    pub target_density: i64,
    /// Deviation accepted from the target.
    pub deviation: i64,
    /// Nanometres per database unit.
    pub db_unit_nm: i64,
    /// Area of the tile.
    pub tile_area: i128,
    /// Manufacturing grid in database units.
    pub grid_dbu: i64,
    /// Lower left corner of the chip.
    pub chip_corner: Point,
}

impl TileCtx {
    /// The values are within the limits of exact arithmetic.
    pub open spec fn valid(self) -> bool {
        &&& 0 <= self.running <= AREA_CAP
        &&& -DENSITY_LIMIT <= self.target_density <= DENSITY_LIMIT
        &&& -DENSITY_LIMIT <= self.deviation <= DENSITY_LIMIT
        &&& is_length(self.db_unit_nm as int)
        &&& self.db_unit_nm > 0
        &&& 0 < self.tile_area <= 0x4_0000_0000_0000_0000
        &&& is_length(self.grid_dbu as int)
        &&& self.grid_dbu > 0
        &&& self.chip_corner.in_range()
    }

    /// The density still to be filled, times [`FULL`] and the tile area.
    pub open spec fn need(self) -> int {
        self.target_density * self.tile_area - FULL * self.running
    }

    /// More than half the deviation is missing from the target.
    pub open spec fn wants_fill(self) -> bool {
        2 * self.need() > self.deviation * self.tile_area
    }

    /// Twice the manufacturing grid, in layout units.  Sizes are multiples of
    /// it, so that half of a size is on the grid.
    pub open spec fn step(self) -> int {
        4 * self.grid_dbu
    }

    /// The density still to be filled, times [`FULL`] and the tile area.
    pub fn missing(&self) -> (n: i128)
        requires
            self.valid(),
        ensures
            n == self.need(),
            -0x1000_0000_0000_0000_0000_0000_0000_0000 <= n <= 0x1000_0000_0000_0000_0000_0000_0000_0000,
            n <= 0x400_0000_0000_0000_0000_0000_0000,
    {
        proof {
            let (t, a, r) = (self.target_density as int, self.tile_area as int, self.running as int);
            assert(-0x400_0000_0000_0000_0000_0000_0000 <= t * a <= 0x400_0000_0000_0000_0000_0000_0000)
                by (nonlinear_arith)
                requires
                    -0x100_0000_0000 <= t <= 0x100_0000_0000,
                    0 <= a <= 0x4_0000_0000_0000_0000,
            ;
            assert(0 <= FULL * r <= 0x5f5_e100_0000_0000_0000_0000_0000_0000) by (nonlinear_arith)
                requires
                    FULL == 0x5f5_e100,
                    0 <= r <= 0x1_0000_0000_0000_0000_0000_0000,
            ;
        }
        self.target_density as i128 * self.tile_area - FULL as i128 * self.running
    }

    /// `deviation * tile_area`
    pub fn slack(&self) -> (n: i128)
        requires
            self.valid(),
        ensures
            n == self.deviation * self.tile_area,
            -0x400_0000_0000_0000_0000_0000_0000 <= n <= 0x400_0000_0000_0000_0000_0000_0000,
    {
        proof {
            let (t, a) = (self.deviation as int, self.tile_area as int);
            assert(-0x400_0000_0000_0000_0000_0000_0000 <= t * a <= 0x400_0000_0000_0000_0000_0000_0000)
                by (nonlinear_arith)
                requires
                    -0x100_0000_0000 <= t <= 0x100_0000_0000,
                    0 <= a <= 0x4_0000_0000_0000_0000,
            ;
        }
        self.deviation as i128 * self.tile_area
    }

    /// Is more than half the deviation missing from the target?
    pub fn is_below_target(&self) -> (b: bool)
        requires
            self.valid(),
        ensures
            b == self.wants_fill(),
    {
        2 * self.missing() > self.slack()
    }
}

/// The doubled areas of the first `n` rectangles, summed.
pub open spec fn rect_area_sum(rects: Seq<Rect>, n: int) -> int
    decreases n,
{
    if n <= 0 {
        0
    } else {
        rect_area_sum(rects, n - 1) + 2 * rects[n - 1].spec_area()
    }
}

/// The doubled area of a list of rectangles, up to [`AREA_CAP`].
pub open spec fn fill_area(rects: Seq<Rect>) -> int {
    min_of(rect_area_sum(rects, rects.len() as int), AREA_CAP as int)
}

/// Corners are ordered and in reach.
pub open spec fn is_fill_rect(r: Rect) -> bool {
    r.ordered() && r.in_reach()
}

/// All are ordered and in reach.
pub open spec fn are_fill_rects(rects: Seq<Rect>) -> bool {
    forall|i: int| 0 <= i < rects.len() ==> is_fill_rect(#[trigger] rects[i])
}

proof fn rect_area_sum_grows(rects: Seq<Rect>, m: int, n: int)
    requires
        are_fill_rects(rects),
        0 <= m <= n <= rects.len(),
    ensures
        0 <= rect_area_sum(rects, m) <= rect_area_sum(rects, n),
    decreases n,
{
    if n > 0 {
        let r = rects[n - 1];
        assert(is_fill_rect(r));
        assert(r.width() * r.height() >= 0) by (nonlinear_arith)
            requires
                r.width() >= 0,
                r.height() >= 0,
        ;
        if m < n {
            rect_area_sum_grows(rects, m, n - 1);
        } else {
            rect_area_sum_grows(rects, m - 1, n - 1);
        }
    }
}

/// The doubled area of the rectangles, up to [`AREA_CAP`].
pub fn measure(rects: &Vec<Rect>) -> (a: i128)
    requires
        are_fill_rects(rects@),
    ensures
        a == fill_area(rects@),
        0 <= a <= AREA_CAP,
{
    let n = rects.len();
    let mut total: i128 = 0;
    let mut i: usize = 0;
    while i < n
        invariant
            n == rects@.len(),
            i <= n,
            are_fill_rects(rects@),
            total == rect_area_sum(rects@, i as int),
            0 <= total <= AREA_CAP,
        decreases n - i,
    {
        let r = rects[i];
        assert(is_fill_rect(rects@[i as int]));
        let w: i128 = r.x1 as i128 - r.x0 as i128;
        let h: i128 = r.y1 as i128 - r.y0 as i128;
        proof {
            assert(0 <= w * h <= 0x1_0000_0000_0000_0000_0000) by (nonlinear_arith)
                requires
                    0 <= w <= 0x100_0000_0000,
                    0 <= h <= 0x100_0000_0000,
            ;
        }
        let next: i128 = total + 2 * (w * h);
        if next > AREA_CAP {
            proof {
                rect_area_sum_grows(rects@, i + 1, n as int);
            }
            return AREA_CAP;
        }
        total = next;
        i = i + 1;
    }
    total
}

} // verus!
