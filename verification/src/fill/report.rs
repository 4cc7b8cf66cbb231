//! What the tiles of a layer add up to.

use crate::fill::are_fill_rects;
use crate::fill::is_fill_rect;
use crate::fill::plan::is_density;
use crate::fill::plan::TileFill;
use crate::geom::Rect;
use vstd::arithmetic::div_mod::lemma_fundamental_div_mod_converse;
use vstd::prelude::*;

verus! {

/// The tiles of a grid, row by row.
pub fn tile_order(nx: usize, ny: usize) -> (out: Vec<(usize, usize)>)
    requires
        nx * ny <= usize::MAX,
    ensures
        out@.len() == nx * ny,
        forall|k: int|
            0 <= k < out@.len() ==> (#[trigger] out@[k]) == ((k % nx as int) as usize, (k / nx as int) as usize),
{
    let mut out: Vec<(usize, usize)> = Vec::new();
    let mut iy: usize = 0;
    assert(0 * nx == 0);
    while iy < ny
        invariant
            iy <= ny,
            out@.len() == iy * nx,
            forall|k: int|
                0 <= k < out@.len() ==> (#[trigger] out@[k]) == ((k % nx as int) as usize, (k / nx as int) as usize),
        decreases ny - iy,
    {
        let mut ix: usize = 0;
        while ix < nx
            invariant
                ix <= nx,
                iy < ny,
                out@.len() == iy * nx + ix,
                forall|k: int|
                    0 <= k < out@.len() ==> (#[trigger] out@[k]) == (
                        (k % nx as int) as usize,
                        (k / nx as int) as usize,
                    ),
            decreases nx - ix,
        {
            proof {
                lemma_fundamental_div_mod_converse(iy * nx + ix, nx as int, iy as int, ix as int);
            }
            out.push((ix, iy));
            ix = ix + 1;
        }
        assert((iy + 1) * nx == iy * nx + nx) by (nonlinear_arith);
        iy = iy + 1;
    }
    assert(iy * nx == nx * ny) by (nonlinear_arith)
        requires
            iy == ny,
    ;
    out
}

/// The rectangles of the first `n` tiles, in order.
pub open spec fn all_rects(tiles: Seq<TileFill>, n: int) -> Seq<Rect>
    decreases n,
{
    if n <= 0 {
        Seq::empty()
    } else {
        all_rects(tiles, n - 1) + tiles[n - 1].rects@
    }
}

/// Every tile holds ordered rectangles in reach.
pub open spec fn tiles_filled(tiles: Seq<TileFill>) -> bool {
    forall|i: int| 0 <= i < tiles.len() ==> are_fill_rects((#[trigger] tiles[i]).rects@) && tiles[i].valid()
}

/// The rectangles of all tiles, in order.
pub fn collect_rects(tiles: &Vec<TileFill>) -> (out: Vec<Rect>)
    requires
        tiles_filled(tiles@),
    ensures
        out@ == all_rects(tiles@, tiles@.len() as int),
        are_fill_rects(out@),
{
    let mut out: Vec<Rect> = Vec::new();
    let mut i: usize = 0;
    while i < tiles.len()
        invariant
            i <= tiles@.len(),
            tiles_filled(tiles@),
            out@ == all_rects(tiles@, i as int),
            are_fill_rects(out@),
        decreases tiles@.len() - i,
    {
        let rects = &tiles[i].rects;
        let ghost start = out@;
        assert(are_fill_rects(tiles@[i as int].rects@));
        let mut k: usize = 0;
        assert(start + rects@.take(0) =~= start);
        while k < rects.len()
            invariant
                k <= rects@.len(),
                are_fill_rects(rects@),
                are_fill_rects(out@),
                out@ == start + rects@.take(k as int),
            decreases rects@.len() - k,
        {
            assert(is_fill_rect(rects@[k as int]));
            out.push(rects[k]);
            assert(out@ =~= start + rects@.take(k + 1));
            k = k + 1;
        }
        assert(rects@.take(k as int) =~= rects@);
        i = i + 1;
    }
    out
}

/// Areas summed over tiles, doubled.
#[derive(Clone, Copy, Debug, PartialEq, Eq, Structural)]
pub struct Totals {
    pub draw: i128,
    pub old: i128,
    pub new: i128,
}

/// The sums of the drawn, old and new areas of the first `n` tiles.
pub open spec fn area_sums(tiles: Seq<TileFill>, n: int) -> (int, int, int)
    decreases n,
{
    if n <= 0 {
        (0, 0, 0)
    } else {
        let (d, o, w) = area_sums(tiles, n - 1);
        (d + tiles[n - 1].draw_area, o + tiles[n - 1].old_area, w + tiles[n - 1].new_area)
    }
}

proof fn area_sums_grow(tiles: Seq<TileFill>, m: int, n: int)
    requires
        tiles_filled(tiles),
        0 <= m <= n <= tiles.len(),
    ensures
        0 <= area_sums(tiles, m).0 <= area_sums(tiles, n).0,
        0 <= area_sums(tiles, m).1 <= area_sums(tiles, n).1,
        0 <= area_sums(tiles, m).2 <= area_sums(tiles, n).2,
    decreases n,
{
    if n > 0 {
        assert(tiles[n - 1].valid());
        if m < n {
            area_sums_grow(tiles, m, n - 1);
        } else {
            area_sums_grow(tiles, m - 1, n - 1);
        }
    }
}

/// The areas of all tiles together, `None` if a sum does not fit.
pub fn total_areas(tiles: &Vec<TileFill>) -> (r: Option<Totals>)
    requires
        tiles_filled(tiles@),
    ensures
        ({
            let (d, o, w) = area_sums(tiles@, tiles@.len() as int);
            &&& r is Some <==> d <= i128::MAX && o <= i128::MAX && w <= i128::MAX
            &&& r matches Some(t) ==> t.draw == d && t.old == o && t.new == w
        }),
{
    let mut t = Totals { draw: 0, old: 0, new: 0 };
    let mut i: usize = 0;
    while i < tiles.len()
        invariant
            i <= tiles@.len(),
            tiles_filled(tiles@),
            t.draw == area_sums(tiles@, i as int).0,
            t.old == area_sums(tiles@, i as int).1,
            t.new == area_sums(tiles@, i as int).2,
            t.draw >= 0,
            t.old >= 0,
            t.new >= 0,
        decreases tiles@.len() - i,
    {
        let tile = &tiles[i];
        assert(tiles@[i as int].valid());
        if tile.draw_area > i128::MAX - t.draw || tile.old_area > i128::MAX - t.old || tile.new_area > i128::MAX - t.new {
            proof {
                area_sums_grow(tiles@, i + 1, tiles@.len() as int);
            }
            return None;
        }
        t = Totals { draw: t.draw + tile.draw_area, old: t.old + tile.old_area, new: t.new + tile.new_area };
        i = i + 1;
    }
    Some(t)
}

/// The positions of the first `n` tiles that are below the target by more
/// than the deviation.
pub open spec fn under_upto(tiles: Seq<TileFill>, target: int, deviation: int, n: int) -> Seq<usize>
    decreases n,
{
    if n <= 0 {
        Seq::empty()
    } else if tiles[n - 1].is_under(target, deviation) {
        under_upto(tiles, target, deviation, n - 1).push((n - 1) as usize)
    } else {
        under_upto(tiles, target, deviation, n - 1)
    }
}

/// The positions of the tiles that are below the target by more than the
/// deviation.
pub fn under_density(tiles: &Vec<TileFill>, target: i64, deviation: i64) -> (out: Vec<usize>)
    requires
        tiles_filled(tiles@),
        is_density(target as int),
        is_density(deviation as int),
    ensures
        out@ == under_upto(tiles@, target as int, deviation as int, tiles@.len() as int),
{
    let mut out: Vec<usize> = Vec::new();
    let mut i: usize = 0;
    while i < tiles.len()
        invariant
            i <= tiles@.len(),
            tiles_filled(tiles@),
            is_density(target as int),
            is_density(deviation as int),
            out@ == under_upto(tiles@, target as int, deviation as int, i as int),
        decreases tiles@.len() - i,
    {
        assert(tiles@[i as int].valid());
        if tiles[i].check_under(target, deviation) {
            out.push(i);
        }
        i = i + 1;
    }
    out
}

} // verus!
