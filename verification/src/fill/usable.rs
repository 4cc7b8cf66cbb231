//! Whether the parameters of fill algorithms can be used.

use crate::fill::overlap::round_down;
use crate::fill::overlap::OverlapSizes;
use crate::fill::sizing::snap_up;
use crate::fill::track::TrackGrid;
use crate::fill::TileCtx;
use crate::geom::Point;
use crate::pdk::is_length;
use crate::pdk::to_units;
use crate::pdk::FRACTION_LIMIT;
use crate::pdk::FillAlgorithm;
use crate::pdk::LENGTH_LIMIT;
use crate::pdk::OverlapParams;
use crate::pdk::SquareParams;
use crate::pdk::TrackParams;
use vstd::arithmetic::div_mod::lemma_fundamental_div_mod;
use vstd::prelude::*;

verus! {

/// A context with the values that the use of algorithms depends on.
pub open spec fn bare_ctx(db_unit_nm: i64, grid_dbu: i64) -> TileCtx {
    TileCtx {
        running: 0,
        target_density: 0,
        deviation: 0,
        db_unit_nm,
        tile_area: 1,
        grid_dbu,
        chip_corner: Point { x: 0, y: 0 },
    }
}

/// Whether an algorithm is usable depends on the database unit and the grid
/// alone.
pub proof fn usable_alike(algorithm: FillAlgorithm, ctx: TileCtx, refs: bool, cores: bool)
    ensures
        algorithm.is_usable(ctx, refs, cores) == algorithm.is_usable(
            bare_ctx(ctx.db_unit_nm, ctx.grid_dbu),
            refs,
            cores,
        ),
{
    let bare = bare_ctx(ctx.db_unit_nm, ctx.grid_dbu);
    match algorithm {
        FillAlgorithm::Square(_) => {},
        FillAlgorithm::Track(p) => {
            assert(TrackGrid::of(p, ctx) == TrackGrid::of(p, bare));
        },
        FillAlgorithm::Overlap(p) => {
            assert(OverlapSizes::of(p, ctx) == OverlapSizes::of(p, bare));
        },
    }
}

/// Is this a length?
fn test_length(nm: i64) -> (b: bool)
    ensures
        b == is_length(nm as int),
{
    0 <= nm && nm <= LENGTH_LIMIT
}

/// The greatest multiple of `step` up to `length`.
fn snap_down(length: i64, step: i64) -> (r: i64)
    requires
        0 <= length,
        0 < step,
    ensures
        r == round_down(length as int, step as int),
        0 <= r <= length,
{
    proof {
        let (l, s) = (length as int, step as int);
        lemma_fundamental_div_mod(l, s);
        assert(0 <= l / s * s <= l) by (nonlinear_arith)
            requires
                s * (l / s) <= l,
                l >= 0,
                s > 0,
        ;
    }
    length / step * step
}

impl SquareParams {
    /// Are the parameters usable?
    pub fn check_usable(&self) -> (b: bool)
        ensures
            b == self.usable(),
    {
        0 < self.min_width && self.min_width <= self.max_width && self.max_width <= LENGTH_LIMIT && 0 <= self.min_space
            && self.min_space <= self.max_space && self.max_space <= LENGTH_LIMIT && -LENGTH_LIMIT <= self.origin_nm.0
            && self.origin_nm.0 <= LENGTH_LIMIT && -LENGTH_LIMIT <= self.origin_nm.1 && self.origin_nm.1 <= LENGTH_LIMIT
    }
}

impl TrackParams {
    /// Are the parameters usable?
    pub fn check_usable(&self) -> (b: bool)
        ensures
            b == self.usable(),
    {
        if !(0 < self.min_width && self.min_width <= LENGTH_LIMIT && test_length(self.max_width) && test_length(
            self.min_space,
        ) && 0 < self.gaps && self.gaps <= LENGTH_LIMIT) {
            return false;
        }
        let mut i: usize = 0;
        while i < self.pass_fracs.len()
            invariant
                i <= self.pass_fracs@.len(),
                forall|k: int| 0 <= k < i ==> -FRACTION_LIMIT <= #[trigger] self.pass_fracs@[k] <= FRACTION_LIMIT,
            decreases self.pass_fracs@.len() - i,
        {
            let f = self.pass_fracs[i];
            if !(-FRACTION_LIMIT <= f && f <= FRACTION_LIMIT) {
                assert(!(-FRACTION_LIMIT <= self.pass_fracs@[i as int] <= FRACTION_LIMIT));
                return false;
            }
            i = i + 1;
        }
        let mut j: usize = 0;
        while j < self.free_heights_nm.len()
            invariant
                j <= self.free_heights_nm@.len(),
                forall|k: int| 0 <= k < j ==> is_length(#[trigger] self.free_heights_nm@[k] as int),
            decreases self.free_heights_nm@.len() - j,
        {
            if !test_length(self.free_heights_nm[j]) {
                assert(!is_length(self.free_heights_nm@[j as int] as int));
                return false;
            }
            j = j + 1;
        }
        true
    }
}

impl OverlapParams {
    /// Are the parameters usable?
    pub fn check_usable(&self) -> (b: bool)
        ensures
            b == self.usable(),
    {
        0 < self.min_width && self.min_width <= self.max_width && self.max_width <= LENGTH_LIMIT && test_length(
            self.min_extension,
        ) && test_length(self.min_space)
    }
}

impl FillAlgorithm {
    /// Are the parameters usable with this database unit and grid, where there
    /// are references, and cores?
    pub fn check_usable(&self, db_unit_nm: i64, grid_dbu: i64, refs: bool, cores: bool) -> (b: bool)
        requires
            0 < db_unit_nm <= LENGTH_LIMIT,
            0 < grid_dbu <= LENGTH_LIMIT,
        ensures
            b == self.is_usable(bare_ctx(db_unit_nm, grid_dbu), refs, cores),
    {
        let ghost ctx = bare_ctx(db_unit_nm, grid_dbu);
        let step = 4 * grid_dbu;
        match self {
            FillAlgorithm::Square(p) => p.check_usable(),
            FillAlgorithm::Track(p) => {
                if !cores || p.min_width <= 0 || p.gaps <= 0 || p.free_heights_nm.len() == 0 {
                    return test_length(p.min_space);
                }
                if !p.check_usable() {
                    return false;
                }
                let min_size = snap_up(to_units(p.min_width, db_unit_nm), step);
                let max_size = snap_down(to_units(p.max_width, db_unit_nm), step);
                let gaps = to_units(p.gaps, db_unit_nm);
                let space = to_units(p.min_space, db_unit_nm);
                assert(TrackGrid::of(*p, ctx).min_size == min_size);
                assert(TrackGrid::of(*p, ctx).max_size == max_size);
                0 < gaps && 0 < min_size && min_size <= max_size
            },
            FillAlgorithm::Overlap(p) => {
                if !refs {
                    return test_length(p.min_space);
                }
                if !p.check_usable() {
                    return false;
                }
                let min_width = to_units(p.min_width, db_unit_nm);
                let low = snap_up(min_width, step);
                let high = snap_down(to_units(p.max_width, db_unit_nm), step);
                p.cover || (low <= high && min_width > 0)
            },
        }
    }
}

} // verus!
