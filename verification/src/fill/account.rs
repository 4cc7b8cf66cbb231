//! What the tiles of a layer add up to, and which of them stay too sparse.

use crate::density::density_sums;
use crate::density::outer_area2;
use crate::density::TileDensity;
use crate::fill::amounts::is_reached;
use crate::fill::plan::TileFill;
use crate::fill::report::all_rects;
use crate::fill::report::area_sums;
use crate::fill::report::under_upto;
use crate::fill::TileCtx;
use crate::geom::abs_of;
use crate::geom::ring_area2;
use crate::geom::Rect;
use crate::geom::Shape;
use vstd::prelude::*;

verus! {

/// All metal of a tile, as a share of the tile, is below the target by more than
/// the deviation.
pub open spec fn is_too_sparse(t: TileFill, target: int, deviation: int) -> bool {
    100_000_000 * (t.draw_area + t.old_area + t.new_area) < (target - deviation) * t.tile_area
}

/// The tiles that are too sparse are listed, each of them once and in order, and
/// no other is.
pub proof fn sparse_tiles_are_listed(tiles: Seq<TileFill>, target: int, deviation: int, n: int)
    requires
        0 <= n <= tiles.len() <= usize::MAX,
    ensures
        ({
            let list = under_upto(tiles, target, deviation, n);
            &&& forall|k: int|
                0 <= k < n ==> (#[trigger] list.contains(k as usize) <==> is_too_sparse(tiles[k], target, deviation))
            &&& forall|i: int| 0 <= i < list.len() ==> (#[trigger] list[i]) < n
            &&& forall|i: int, j: int| 0 <= i < j < list.len() ==> #[trigger] list[i] < #[trigger] list[j]
        }),
    decreases n,
{
    if n > 0 {
        sparse_tiles_are_listed(tiles, target, deviation, n - 1);
        let before = under_upto(tiles, target, deviation, n - 1);
        let list = under_upto(tiles, target, deviation, n);
        assert forall|k: int| 0 <= k < n implies (#[trigger] list.contains(k as usize) <==> is_too_sparse(
            tiles[k],
            target,
            deviation,
        )) by {
            if before.contains(k as usize) {
                let i = choose|i: int| 0 <= i < before.len() && before[i] == k as usize;
                assert(list[i] == k as usize);
            }
            if list.contains(k as usize) {
                let i = choose|i: int| 0 <= i < list.len() && list[i] == k as usize;
                if i < before.len() {
                    assert(before[i] == k as usize);
                }
            }
            if k == n - 1 {
                if is_too_sparse(tiles[k], target, deviation) {
                    assert(list[before.len() as int] == k as usize);
                }
            } else {
                assert(before.contains(k as usize) <==> is_too_sparse(tiles[k], target, deviation));
            }
        }
    }
}

/// A tile whose fill reached the target, to half the deviation, is not too sparse.
pub proof fn reached_tile_is_not_sparse(t: TileFill, ctx: TileCtx)
    requires
        ctx.running == t.draw_area + t.old_area,
        ctx.tile_area == t.tile_area,
        ctx.tile_area > 0,
        ctx.deviation >= 0,
        is_reached(ctx, t.new_area as int),
    ensures
        !t.is_under(ctx.target_density as int, ctx.deviation as int),
{
    let (target, deviation, area) = (ctx.target_density as int, ctx.deviation as int, ctx.tile_area as int);
    assert((target - deviation) * area == target * area - deviation * area) by (nonlinear_arith);
    assert(deviation * area >= 0) by (nonlinear_arith)
        requires
            deviation >= 0,
            area > 0,
    ;
}

proof fn sums_join(a: Seq<TileFill>, b: Seq<TileFill>, n: int)
    requires
        0 <= n <= a.len() + b.len(),
    ensures
        n <= a.len() ==> area_sums(a + b, n) == area_sums(a, n) && all_rects(a + b, n) == all_rects(a, n),
        n >= a.len() ==> ({
            let (s, t, u) = (area_sums(a + b, n), area_sums(a, a.len() as int), area_sums(b, n - a.len()));
            s.0 == t.0 + u.0 && s.1 == t.1 + u.1 && s.2 == t.2 + u.2
        }),
        n >= a.len() ==> all_rects(a + b, n) =~= all_rects(a, a.len() as int) + all_rects(b, n - a.len()),
    decreases n,
{
    if n > 0 {
        sums_join(a, b, n - 1);
        if n <= a.len() {
            assert((a + b)[n - 1] == a[n - 1]);
        } else {
            assert((a + b)[n - 1] == b[n - 1 - a.len()]);
        }
    }
}

/// The totals of two lists of tiles add up, and their fill follows upon each
/// other.
pub proof fn totals_add_up(a: Seq<TileFill>, b: Seq<TileFill>)
    ensures
        ({
            let (s, t, u) = (
                area_sums(a + b, (a + b).len() as int),
                area_sums(a, a.len() as int),
                area_sums(b, b.len() as int),
            );
            s.0 == t.0 + u.0 && s.1 == t.1 + u.1 && s.2 == t.2 + u.2
        }),
        all_rects(a + b, (a + b).len() as int) == all_rects(a, a.len() as int) + all_rects(b, b.len() as int),
{
    sums_join(a, b, (a.len() + b.len()) as int);
}

/// The totals of one tile are its areas, and its fill is its own.
pub proof fn totals_of_one(t: TileFill)
    ensures
        area_sums(seq![t], 1) == (t.draw_area as int, t.old_area as int, t.new_area as int),
        all_rects(seq![t], 1) == t.rects@,
{
    reveal_with_fuel(area_sums, 2);
    reveal_with_fuel(all_rects, 2);
    assert(Seq::<Rect>::empty() + t.rects@ =~= t.rects@);
}

/// Densities add up over the tiles.
pub proof fn densities_add_up(a: Seq<TileDensity>, b: Seq<TileDensity>, n: int)
    requires
        0 <= n <= a.len() + b.len(),
    ensures
        n <= a.len() ==> density_sums(a + b, n) == density_sums(a, n),
        n >= a.len() ==> ({
            let (s, t, u) = (density_sums(a + b, n), density_sums(a, a.len() as int), density_sums(b, n - a.len()));
            s.0 == t.0 + u.0 && s.1 == t.1 + u.1
        }),
    decreases n,
{
    if n > 0 {
        densities_add_up(a, b, n - 1);
        if n <= a.len() {
            assert((a + b)[n - 1] == a[n - 1]);
        } else {
            assert((a + b)[n - 1] == b[n - 1 - a.len()]);
        }
    }
}

/// The density of one tile is its areas.
pub proof fn density_of_one(t: TileDensity)
    ensures
        density_sums(seq![t], 1) == (t.draw_area as int, t.fill_area as int),
{
    reveal_with_fuel(density_sums, 2);
}

/// The reference area adds up over the boundary polygons.
pub proof fn reference_areas_add_up(a: Seq<Shape>, b: Seq<Shape>, n: int)
    requires
        0 <= n <= a.len() + b.len(),
    ensures
        n <= a.len() ==> outer_area2(a + b, n) == outer_area2(a, n),
        n >= a.len() ==> outer_area2(a + b, n) == outer_area2(a, a.len() as int) + outer_area2(b, n - a.len()),
    decreases n,
{
    if n > 0 {
        reference_areas_add_up(a, b, n - 1);
        if n <= a.len() {
            assert((a + b)[n - 1] == a[n - 1]);
        } else {
            assert((a + b)[n - 1] == b[n - 1 - a.len()]);
        }
    }
}

/// The reference area of one polygon is that inside its exterior, whichever way it
/// runs and whatever its holes.
pub proof fn reference_area_of_one(s: Shape)
    ensures
        outer_area2(seq![s], 1) == abs_of(ring_area2(s.exterior)),
{
    reveal_with_fuel(outer_area2, 2);
}

} // verus!
