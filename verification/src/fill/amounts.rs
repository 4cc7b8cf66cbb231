//! Amounts of fill: what a tile lacks, what rectangles cover, and which sizes
//! there are on the grid.

use crate::fill::fill_area;
use crate::fill::overlap::clamp_between;
use crate::fill::overlap::round_down;
use crate::fill::overlap::round_near;
use crate::fill::rect_area_sum;
use crate::fill::sizing::round_up;
use crate::fill::AREA_CAP;
use crate::fill::TileCtx;
use crate::geom::abs_of;
use crate::geom::Rect;
use crate::pdk::units_of;
use vstd::arithmetic::div_mod::lemma_fundamental_div_mod;
use vstd::prelude::*;

verus! {

/// The doubled areas of the rectangles, summed.
pub open spec fn covered(rects: Seq<Rect>) -> int
    decreases rects.len(),
{
    if rects.len() == 0 {
        0
    } else {
        covered(rects.drop_last()) + 2 * ((rects.last().x1 - rects.last().x0) * (rects.last().y1 - rects.last().y0))
    }
}

/// The widths of the rectangles, summed.
pub open spec fn widths(rects: Seq<Rect>) -> int
    decreases rects.len(),
{
    if rects.len() == 0 {
        0
    } else {
        widths(rects.drop_last()) + (rects.last().x1 - rects.last().x0)
    }
}

/// How far `area`, doubled, is from what the tile lacks: target density less
/// what is covered so far, of the area of the tile.  Both are in millionths of
/// a percent of it.
pub open spec fn shortfall(ctx: TileCtx, area: int) -> int {
    ctx.target_density * ctx.tile_area - 100_000_000 * (ctx.running + area)
}

/// The tile lacks more than half the deviation.
pub open spec fn lacks_fill(ctx: TileCtx) -> bool {
    2 * shortfall(ctx, 0) > ctx.deviation * ctx.tile_area
}

/// With `area`, doubled, more the tile is at most half the deviation below the
/// target.
pub open spec fn is_reached(ctx: TileCtx, area: int) -> bool {
    2 * shortfall(ctx, area) <= ctx.deviation * ctx.tile_area
}

/// With `area`, doubled, more the tile is within half the deviation of the
/// target.
pub open spec fn is_met(ctx: TileCtx, area: int) -> bool {
    2 * abs_of(shortfall(ctx, area)) <= ctx.deviation * ctx.tile_area
}

proof fn sum_is_covered_to(rects: Seq<Rect>, n: int)
    requires
        0 <= n <= rects.len(),
    ensures
        rect_area_sum(rects, n) == covered(rects.take(n)),
    decreases n,
{
    if n > 0 {
        sum_is_covered_to(rects, n - 1);
        assert(rects.take(n).drop_last() =~= rects.take(n - 1));
        let r = rects[n - 1];
        assert(r.spec_area() == (r.x1 - r.x0) * (r.y1 - r.y0));
    }
}

/// The sum over the rectangles is what they cover.
pub proof fn sum_is_covered(rects: Seq<Rect>)
    ensures
        rect_area_sum(rects, rects.len() as int) == covered(rects),
{
    sum_is_covered_to(rects, rects.len() as int);
    assert(rects.take(rects.len() as int) =~= rects);
}

/// Measured areas are what the rectangles cover, up to a bound beyond what any
/// tile can lack.
pub proof fn area_is_covered(ctx: TileCtx, rects: Seq<Rect>)
    requires
        ctx.valid(),
    ensures
        fill_area(rects) <= covered(rects),
        fill_area(rects) == covered(rects) || fill_area(rects) == AREA_CAP,
        is_reached(ctx, fill_area(rects)) == is_reached(ctx, covered(rects)),
{
    sum_is_covered(rects);
    let (t, d, a) = (ctx.target_density as int, ctx.deviation as int, ctx.tile_area as int);
    assert(t * a <= 0x400_0000_0000_0000_0000_0000_0000) by (nonlinear_arith)
        requires
            t <= 0x100_0000_0000,
            0 <= a <= 0x4_0000_0000_0000_0000,
    ;
    assert(d * a >= -0x400_0000_0000_0000_0000_0000_0000) by (nonlinear_arith)
        requires
            d >= -0x100_0000_0000,
            0 <= a <= 0x4_0000_0000_0000_0000,
    ;
}

/// What two lists cover together.
pub proof fn covered_adds_up(a: Seq<Rect>, b: Seq<Rect>)
    ensures
        covered(a + b) == covered(a) + covered(b),
    decreases b.len(),
{
    if b.len() == 0 {
        assert(a + b =~= a);
    } else {
        covered_adds_up(a, b.drop_last());
        assert((a + b).drop_last() =~= a + b.drop_last());
        assert((a + b).last() == b.last());
    }
}

pub open spec fn is_multiple(s: int, step: int) -> bool {
    s % step == 0
}

/// A multiple of the step within the bounds.
pub open spec fn is_size(s: int, lo: int, hi: int, step: int) -> bool {
    is_multiple(s, step) && lo <= s <= hi
}

/// `s` is nearer to `wanted` than `other`, or as near and not smaller.
pub open spec fn is_nearer(s: int, other: int, wanted: int) -> bool {
    abs_of(s - wanted) < abs_of(other - wanted) || (abs_of(s - wanted) == abs_of(other - wanted) && other <= s)
}

/// `s` is the multiple of the step within the bounds that is nearest to `wanted`,
/// the larger one of two.
pub open spec fn is_closest(s: int, wanted: int, lo: int, hi: int, step: int) -> bool {
    is_size(s, lo, hi, step) && forall|other: int| #[trigger] is_size(other, lo, hi, step) ==> is_nearer(s, other, wanted)
}

/// There is at most one closest size.
pub proof fn closest_is_unique(s: int, t: int, wanted: int, lo: int, hi: int, step: int)
    requires
        is_closest(s, wanted, lo, hi, step),
        is_closest(t, wanted, lo, hi, step),
    ensures
        s == t,
{
    assert(is_size(s, lo, hi, step));
    assert(is_size(t, lo, hi, step));
}

/// Rounding up gives the least multiple at or above a length, rounding down the
/// greatest at or below it.
pub proof fn rounding_is_tight(length: int, step: int)
    requires
        step > 0,
    ensures
        is_multiple(round_up(length, step), step),
        length <= round_up(length, step) < length + step,
        is_multiple(round_down(length, step), step),
        length - step < round_down(length, step) <= length,
        forall|s: int| #[trigger] is_multiple(s, step) && length <= s ==> round_up(length, step) <= s,
        forall|s: int| #[trigger] is_multiple(s, step) && s <= length ==> s <= round_down(length, step),
{
    let up = (length + step - 1) / step;
    let down = length / step;
    lemma_fundamental_div_mod(length + step - 1, step);
    lemma_fundamental_div_mod(length, step);
    vstd::arithmetic::div_mod::lemma_mod_multiples_basic(up, step);
    vstd::arithmetic::div_mod::lemma_mod_multiples_basic(down, step);
    assert(up * step == step * up) by (nonlinear_arith);
    assert(down * step == step * down) by (nonlinear_arith);
    assert forall|s: int| #[trigger] is_multiple(s, step) && length <= s implies round_up(length, step) <= s by {
        lemma_fundamental_div_mod(s, step);
        let k = s / step;
        assert(up <= k) by (nonlinear_arith)
            requires
                step > 0,
                step * up < length + step,
                length <= step * k,
        ;
        assert(step * up <= step * k) by (nonlinear_arith)
            requires
                step > 0,
                up <= k,
        ;
    }
    assert forall|s: int| #[trigger] is_multiple(s, step) && s <= length implies s <= round_down(length, step) by {
        lemma_fundamental_div_mod(s, step);
        let k = s / step;
        assert(k <= down) by (nonlinear_arith)
            requires
                step > 0,
                length < step * down + step,
                step * k <= length,
        ;
        assert(step * k <= step * down) by (nonlinear_arith)
            requires
                step > 0,
                k <= down,
        ;
    }
}

/// The nearest multiple of the step, moved between the outermost ones within the
/// bounds, is the closest size.
pub proof fn clamped_is_closest(wanted: int, lo: int, hi: int, step: int)
    requires
        step > 0,
        round_up(lo, step) <= round_down(hi, step),
    ensures
        is_closest(
            clamp_between(round_near(wanted, step), round_up(lo, step), round_down(hi, step)),
            wanted,
            lo,
            hi,
            step,
        ),
{
    rounding_is_tight(lo, step);
    rounding_is_tight(hi, step);
    let (least, greatest) = (round_up(lo, step), round_down(hi, step));
    let near = round_near(wanted, step);
    let q = (2 * wanted + step) / (2 * step);
    lemma_fundamental_div_mod(2 * wanted + step, 2 * step);
    vstd::arithmetic::div_mod::lemma_mod_multiples_basic(q, step);
    assert((2 * step) * q == 2 * near) by (nonlinear_arith)
        requires
            near == q * step,
    ;
    assert(2 * near <= 2 * wanted + step && 2 * wanted < 2 * near + step);
    let s = clamp_between(near, least, greatest);
    assert forall|other: int| #[trigger] is_size(other, lo, hi, step) implies is_nearer(s, other, wanted) by {
        assert(least <= other <= greatest);
        lemma_fundamental_div_mod(other, step);
        let k = other / step;
        if near < other {
            assert(q < k) by (nonlinear_arith)
                requires
                    q * step < step * k,
                    step > 0,
            ;
            assert(near + step <= other) by (nonlinear_arith)
                requires
                    near == q * step,
                    other == step * k,
                    q + 1 <= k,
                    step > 0,
            ;
        } else if other < near {
            assert(k < q) by (nonlinear_arith)
                requires
                    step * k < q * step,
                    step > 0,
            ;
            assert(other + step <= near) by (nonlinear_arith)
                requires
                    near == q * step,
                    other == step * k,
                    k + 1 <= q,
                    step > 0,
            ;
        }
    }
    assert(is_size(s, lo, hi, step));
}

/// Layout units are half database units: a length is off by at most half of one
/// when it is rounded to them.
pub proof fn units_are_nearest(nm: int, db_unit: int)
    requires
        0 <= nm,
        1 <= db_unit,
    ensures
        2 * abs_of(units_of(nm, db_unit) * db_unit - 2 * nm) <= db_unit,
{
    let u = units_of(nm, db_unit);
    lemma_fundamental_div_mod(4 * nm + db_unit, 2 * db_unit);
    assert((2 * db_unit) * u == 2 * (u * db_unit)) by (nonlinear_arith);
}

} // verus!
