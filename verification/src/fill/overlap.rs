//! Overlap fill: rectangles over the fill of another layer.

use crate::fill::amounts::clamped_is_closest;
use crate::fill::amounts::closest_is_unique;
use crate::fill::amounts::covered;
use crate::fill::amounts::is_closest;
use crate::fill::amounts::is_multiple;
use crate::fill::amounts::lacks_fill;
use crate::fill::amounts::rounding_is_tight;
use crate::fill::amounts::shortfall;
use crate::fill::amounts::widths;
use crate::fill::are_fill_rects;
use crate::fill::is_fill_rect;
use crate::fill::sizing::round_up;
use crate::fill::sizing::snap_up;
use crate::fill::TileCtx;
use crate::geom::min_i64;
use crate::geom::min_of;
use crate::geom::Rect;
use crate::num::floor_div;
use crate::num::floor_div_wide;
use crate::pdk::to_units;
use crate::pdk::units_bounds;
use crate::pdk::units_of;
use crate::pdk::FULL;
use crate::pdk::OverlapParams;
use crate::touch::any_touches;
use crate::touch::is_blocked;
use crate::touch::keepouts_in_reach;
use crate::touch::keepouts_of;
use crate::touch::Keepout;
use crate::touch::KeepoutShape;
use vstd::arithmetic::div_mod::lemma_fundamental_div_mod;
use vstd::prelude::*;

verus! {

/// The largest multiple of `step` that is at most `length`.
pub open spec fn round_down(length: int, step: int) -> int {
    length / step * step
}

/// The multiple of `step` nearest to `length`, the larger one of two.
pub open spec fn round_near(length: int, step: int) -> int {
    (2 * length + step) / (2 * step) * step
}

pub open spec fn clamp_between(v: int, lo: int, hi: int) -> int {
    if v < lo {
        lo
    } else if v > hi {
        hi
    } else {
        v
    }
}

/// The bounds of an overlap fill, in layout units.
#[derive(Clone, Copy, Debug)]
pub struct OverlapSizes {
    pub min_width: i64,
    pub max_width: i64,
    pub extension: i64,
    pub step: i64,
}

/// All are ordered and in range.
pub open spec fn are_layout_rects(rects: Seq<Rect>) -> bool {
    forall|i: int| 0 <= i < rects.len() ==> (#[trigger] rects[i]).ordered() && rects[i].in_range()
}

/// The rectangle of the given even size with the centre of `a`, rounded down
/// to whole units.
pub open spec fn centered_on(a: Rect, w: int, h: int) -> Rect {
    Rect {
        x0: ((a.x0 + a.x1) / 2 - w / 2) as i64,
        y0: ((a.y0 + a.y1) / 2 - h / 2) as i64,
        x1: ((a.x0 + a.x1) / 2 + w / 2) as i64,
        y1: ((a.y0 + a.y1) / 2 + h / 2) as i64,
    }
}

impl OverlapSizes {
    /// The sizes of the given parameters.
    pub open spec fn of(op: OverlapParams, ctx: TileCtx) -> OverlapSizes {
        OverlapSizes {
            min_width: units_of(op.min_width as int, ctx.db_unit_nm as int) as i64,
            max_width: units_of(op.max_width as int, ctx.db_unit_nm as int) as i64,
            extension: units_of(op.min_extension as int, ctx.db_unit_nm as int) as i64,
            step: ctx.step() as i64,
        }
    }

    /// Bounded, with a step that is a multiple of four.
    pub open spec fn valid(self) -> bool {
        &&& 0 <= self.min_width <= 0x8000_0001
        &&& 0 <= self.max_width <= 0x8000_0001
        &&& 0 <= self.extension <= 0x8000_0001
        &&& 0 < self.step <= 0x1_0000_0000
        &&& self.step % 4 == 0
    }

    /// The least size on the step grid.
    pub open spec fn low(self) -> int {
        round_up(self.min_width as int, self.step as int)
    }

    /// The greatest size on the step grid.
    pub open spec fn high(self) -> int {
        round_down(self.max_width as int, self.step as int)
    }

    /// The width of the stripe over `a`: wider by the extension on both sides.
    pub open spec fn stripe_width(self, a: Rect) -> int {
        clamp_between(round_near(a.width() + 2 * self.extension, self.step as int), self.low(), self.high())
    }

    /// The greatest height of the stripe over `a`: lower by the extension on
    /// both sides.
    pub open spec fn stripe_height(self, a: Rect) -> int {
        round_down(min_of(a.height() - 2 * self.extension, self.max_width as int), self.step as int)
    }

    /// The highest stripe over `a`.
    pub open spec fn highest_stripe(self, a: Rect) -> Rect {
        centered_on(a, self.stripe_width(a), self.stripe_height(a))
    }

    /// `a` takes a stripe: one of the least height fits, and the highest one
    /// touches no keep-out.
    pub open spec fn takes_stripe(self, keepouts: Seq<KeepoutShape>, a: Rect) -> bool {
        self.stripe_height(a) >= self.low() && !is_blocked(keepouts, self.highest_stripe(a))
    }

    /// The first `n` references that take a stripe.
    pub open spec fn carriers(self, keepouts: Seq<KeepoutShape>, refs: Seq<Rect>, n: int) -> Seq<Rect>
        decreases n,
    {
        if n <= 0 {
            Seq::empty()
        } else if self.takes_stripe(keepouts, refs[n - 1]) {
            self.carriers(keepouts, refs, n - 1).push(refs[n - 1])
        } else {
            self.carriers(keepouts, refs, n - 1)
        }
    }

    /// The widths of the first `n` stripes, summed.
    pub open spec fn width_sum(self, carriers: Seq<Rect>, n: int) -> int
        decreases n,
    {
        if n <= 0 {
            0
        } else {
            self.width_sum(carriers, n - 1) + self.stripe_width(carriers[n - 1])
        }
    }

    /// The least of the greatest heights of the first `n` stripes.
    pub open spec fn height_cap(self, carriers: Seq<Rect>, n: int) -> int
        decreases n,
    {
        if n <= 1 {
            self.stripe_height(carriers[0])
        } else {
            min_of(self.height_cap(carriers, n - 1), self.stripe_height(carriers[n - 1]))
        }
    }

    /// The common height of the stripes: what the density wanted asks of them,
    /// on the step grid and within the bounds.
    pub open spec fn common_height(self, ctx: TileCtx, carriers: Seq<Rect>) -> int {
        let n = carriers.len() as int;
        let twice = (ctx.need() / (FULL as int)) / self.width_sum(carriers, n);
        clamp_between((twice + self.step) / (2 * self.step) * self.step, self.low(), self.height_cap(carriers, n))
    }

    /// The stripes over the references.
    pub open spec fn stripes(self, ctx: TileCtx, keepouts: Seq<KeepoutShape>, refs: Seq<Rect>) -> Seq<Rect> {
        let carriers = self.carriers(keepouts, refs, refs.len() as int);
        let h = self.common_height(ctx, carriers);
        Seq::new(carriers.len(), |i: int| centered_on(carriers[i], self.stripe_width(carriers[i]), h))
    }

    /// The references grown by the extension that touch no keep-out.
    pub open spec fn covers(self, keepouts: Seq<KeepoutShape>, refs: Seq<Rect>, n: int) -> Seq<Rect>
        decreases n,
    {
        if n <= 0 {
            Seq::empty()
        } else {
            let grown = refs[n - 1].spec_grown(self.extension as int);
            if is_blocked(keepouts, grown) {
                self.covers(keepouts, refs, n - 1)
            } else {
                self.covers(keepouts, refs, n - 1).push(grown)
            }
        }
    }

    /// Bounds on the stripe over an in-range reference.
    proof fn stripe_in_bounds(self, a: Rect)
        requires
            self.valid(),
            self.low() <= self.high(),
            a.ordered(),
            a.in_range(),
        ensures
            0 <= self.low() <= 0x1_8000_0001,
            self.high() <= self.max_width,
            self.low() <= self.stripe_width(a) <= self.high(),
            self.stripe_width(a) % 2 == 0,
            self.low() % 2 == 0,
            self.min_width > 0 ==> self.low() > 0,
            self.stripe_height(a) <= self.max_width,
            self.stripe_height(a) % 2 == 0,
            -0x2_0000_0004 <= self.stripe_height(a),
    {
        let step = self.step as int;
        multiple_is_even((self.min_width + step - 1) / step, step);
        multiple_is_even(self.max_width as int / step, step);
        let raw = a.width() + 2 * self.extension;
        multiple_is_even((2 * raw + step) / (2 * step), step);
        let h = min_of(a.height() - 2 * self.extension, self.max_width as int);
        multiple_is_even(h / step, step);
        lemma_fundamental_div_mod(self.min_width + step - 1, step);
        lemma_fundamental_div_mod(self.max_width as int, step);
        lemma_fundamental_div_mod(h, step);
        assert(h / step * step == step * (h / step)) by (nonlinear_arith);
        assert(self.max_width as int / step * step == step * (self.max_width as int / step)) by (nonlinear_arith);
        assert((self.min_width + step - 1) / step * step == step * ((self.min_width + step - 1) / step))
            by (nonlinear_arith);
    }

    /// The width of the stripe over `a`.
    fn width_over(&self, a: &Rect) -> (w: i64)
        requires
            self.valid(),
            self.low() <= self.high(),
            a.ordered(),
            a.in_range(),
        ensures
            w == self.stripe_width(*a),
    {
        let raw = a.x1 - a.x0 + 2 * self.extension;
        proof {
            self.stripe_in_bounds(*a);
            let step = self.step as int;
            lemma_fundamental_div_mod(2 * raw + step, 2 * step);
            let q = (2 * raw + step) / (2 * step);
            assert(0 <= q * step <= 2 * raw + step) by (nonlinear_arith)
                requires
                    (2 * step) * q <= 2 * raw + step,
                    q == (2 * raw + step) / (2 * step),
                    2 * raw + step >= 0,
                    step > 0,
            ;
        }
        let w: i64 = (2 * raw + self.step) / (2 * self.step) * self.step;
        let lo = snap_up(self.min_width, self.step);
        let hi = self.snap_max();
        if w < lo {
            lo
        } else if w > hi {
            hi
        } else {
            w
        }
    }

    /// The greatest size on the step grid.
    fn snap_max(&self) -> (h: i64)
        requires
            self.valid(),
        ensures
            h == self.high(),
    {
        proof {
            lemma_fundamental_div_mod(self.max_width as int, self.step as int);
            let q = self.max_width as int / self.step as int;
            assert(0 <= q * self.step <= self.max_width) by (nonlinear_arith)
                requires
                    self.step * q <= self.max_width,
                    q == self.max_width as int / self.step as int,
                    self.max_width >= 0,
                    self.step > 0,
            ;
        }
        self.max_width / self.step * self.step
    }

    /// The greatest height of the stripe over `a`.
    fn height_over(&self, a: &Rect) -> (h: i64)
        requires
            self.valid(),
            self.low() <= self.high(),
            a.ordered(),
            a.in_range(),
        ensures
            h == self.stripe_height(*a),
    {
        let room = min_i64(a.y1 - a.y0 - 2 * self.extension, self.max_width);
        proof {
            self.stripe_in_bounds(*a);
            assert(-0x8_0000_0000 <= room as int / self.step as int <= 0x8_0000_0000) by (nonlinear_arith)
                requires
                    -0x8_0000_0000 <= room <= 0x8_0000_0000,
                    self.step >= 1,
            ;
        }
        let q = floor_div(room, self.step);
        q * self.step
    }
}

proof fn multiple_is_even(k: int, step: int)
    requires
        step % 4 == 0,
    ensures
        (k * step) % 2 == 0,
{
    let h = step / 2;
    assert(step == 2 * h);
    assert(k * step == 2 * (k * h)) by (nonlinear_arith)
        requires
            step == 2 * h,
    ;
}

/// The rectangle of the given even size centred on `a`.
fn center_on(a: &Rect, w: i64, h: i64) -> (r: Rect)
    requires
        a.in_range(),
        0 <= w <= 0x4_0000_0000,
        0 <= h <= 0x4_0000_0000,
    ensures
        r == centered_on(*a, w as int, h as int),
        is_fill_rect(r),
{
    let cx = floor_div(a.x0 + a.x1, 2);
    let cy = floor_div(a.y0 + a.y1, 2);
    let half_w = w / 2;
    let half_h = h / 2;
    Rect { x0: cx - half_w, y0: cy - half_h, x1: cx + half_w, y1: cy + half_h }
}

/// The references grown by the extension, where they touch no keep-out.
fn cover_refs(keepout: &Vec<Keepout>, sizes: &OverlapSizes, refs: &Vec<Rect>) -> (out: Vec<Rect>)
    requires
        sizes.valid(),
        are_layout_rects(refs@),
        keepouts_in_reach(keepouts_of(keepout@)),
    ensures
        out@ == sizes.covers(keepouts_of(keepout@), refs@, refs@.len() as int),
        are_fill_rects(out@),
{
    let ghost kos = keepouts_of(keepout@);
    let mut out: Vec<Rect> = Vec::new();
    let mut i: usize = 0;
    while i < refs.len()
        invariant
            i <= refs@.len(),
            sizes.valid(),
            are_layout_rects(refs@),
            kos == keepouts_of(keepout@),
            keepouts_in_reach(kos),
            out@ == sizes.covers(kos, refs@, i as int),
            are_fill_rects(out@),
        decreases refs@.len() - i,
    {
        let a = refs[i];
        assert(refs@[i as int].in_range());
        let e = sizes.extension;
        let grown = Rect { x0: a.x0 - e, y0: a.y0 - e, x1: a.x1 + e, y1: a.y1 + e };
        assert(grown == a.spec_grown(e as int));
        if !any_touches(keepout, &grown) {
            out.push(grown);
        }
        i = i + 1;
    }
    out
}

/// Stripes of one common height over the references.
#[verifier::rlimit(30)]
fn stripe_refs(keepout: &Vec<Keepout>, sizes: &OverlapSizes, refs: &Vec<Rect>, ctx: &TileCtx) -> (out: Vec<Rect>)
    requires
        sizes.valid(),
        sizes.low() <= sizes.high(),
        sizes.min_width > 0,
        are_layout_rects(refs@),
        ctx.valid(),
        keepouts_in_reach(keepouts_of(keepout@)),
    ensures
        out@ == sizes.stripes(*ctx, keepouts_of(keepout@), refs@),
        are_fill_rects(out@),
{
    let ghost kos = keepouts_of(keepout@);
    let low = snap_up(sizes.min_width, sizes.step);
    let mut carriers: Vec<Rect> = Vec::new();
    let mut sum: i128 = 0;
    let mut cap: i64 = 0;
    let mut i: usize = 0;
    while i < refs.len()
        invariant
            i <= refs@.len(),
            sizes.valid(),
            sizes.low() <= sizes.high(),
            sizes.min_width > 0,
            low == sizes.low(),
            low > 0,
            are_layout_rects(refs@),
            kos == keepouts_of(keepout@),
            keepouts_in_reach(kos),
            carriers@ == sizes.carriers(kos, refs@, i as int),
            are_layout_rects(carriers@),
            carriers@.len() <= i,
            sum == sizes.width_sum(carriers@, carriers@.len() as int),
            0 <= sum <= carriers@.len() * 0x8000_0001,
            carriers@.len() > 0 ==> sum > 0,
            carriers@.len() > 0 ==> cap == sizes.height_cap(carriers@, carriers@.len() as int),
            carriers@.len() > 0 ==> low <= cap <= 0x8000_0001,
        decreases refs@.len() - i,
    {
        let a = refs[i];
        assert(refs@[i as int].in_range() && refs@[i as int].ordered());
        proof {
            sizes.stripe_in_bounds(a);
        }
        let max_h = sizes.height_over(&a);
        if max_h >= low {
            let w = sizes.width_over(&a);
            let test = center_on(&a, w, max_h);
            if !any_touches(keepout, &test) {
                let ghost before = carriers@;
                let n = carriers.len();
                carriers.push(a);
                proof {
                    width_sum_same(*sizes, before, carriers@, n as int);
                    height_cap_same(*sizes, before, carriers@, n as int);
                    assert(carriers@[n as int] == a);
                }
                sum = sum + w as i128;
                cap = if n == 0 {
                    max_h
                } else {
                    min_i64(cap, max_h)
                };
            }
        }
        i = i + 1;
    }
    let ghost all = sizes.carriers(kos, refs@, refs@.len() as int);
    let mut out: Vec<Rect> = Vec::new();
    if carriers.len() == 0 {
        assert(out@ =~= sizes.stripes(*ctx, kos, refs@));
        return out;
    }
    let need = ctx.missing();
    let budget = floor_div_wide(need, FULL as i128);
    let twice = floor_div_wide(budget, sum);
    proof {
        let (b, s, t) = (budget as int, sum as int, twice as int);
        assert(-0x1000_0000_0000_0000_0000_0000_0000_0000 <= b <= 0x1000_0000_0000_0000_0000_0000_0000_0000)
            by (nonlinear_arith)
            requires
                b == need as int / 100_000_000int,
                -0x1000_0000_0000_0000_0000_0000_0000_0000 <= need <= 0x1000_0000_0000_0000_0000_0000_0000_0000,
        ;
        assert(-0x1000_0000_0000_0000_0000_0000_0000_0000 <= t <= 0x1000_0000_0000_0000_0000_0000_0000_0000)
            by (nonlinear_arith)
            requires
                t == b / s,
                s >= 1,
                -0x1000_0000_0000_0000_0000_0000_0000_0000 <= b <= 0x1000_0000_0000_0000_0000_0000_0000_0000,
        ;
        lemma_fundamental_div_mod(t + sizes.step, 2 * sizes.step);
        let q = (t + sizes.step) / (2 * sizes.step);
        assert(-0x1000_0000_0000_0000_0000_0000_0000_0000 - 0x4_0000_0000 <= q * sizes.step
            <= 0x1000_0000_0000_0000_0000_0000_0000_0000 + 0x4_0000_0000) by (nonlinear_arith)
            requires
                q == (t + sizes.step) / (2 * sizes.step),
                t + sizes.step == (2 * sizes.step) * q + (t + sizes.step) % (2 * sizes.step),
                0 <= (t + sizes.step) % (2 * sizes.step) < 2 * sizes.step,
                0 < sizes.step <= 0x1_0000_0000,
                -0x1000_0000_0000_0000_0000_0000_0000_0000 <= t <= 0x1000_0000_0000_0000_0000_0000_0000_0000,
        ;
    }
    let steps: i128 = floor_div_wide(twice + sizes.step as i128, 2 * sizes.step as i128);
    let wanted: i128 = steps * sizes.step as i128;
    let h: i64 = if wanted < low as i128 {
        low
    } else if wanted > cap as i128 {
        cap
    } else {
        wanted as i64
    };
    assert(h == sizes.common_height(*ctx, all));
    let mut i: usize = 0;
    while i < carriers.len()
        invariant
            i <= carriers@.len(),
            sizes.valid(),
            sizes.low() <= sizes.high(),
            are_layout_rects(carriers@),
            0 <= h <= 0x8000_0001,
            out@.len() == i,
            forall|j: int|
                0 <= j < i ==> (#[trigger] out@[j]) == centered_on(
                    carriers@[j],
                    sizes.stripe_width(carriers@[j]),
                    h as int,
                ),
            are_fill_rects(out@),
        decreases carriers@.len() - i,
    {
        let a = carriers[i];
        assert(carriers@[i as int].in_range() && carriers@[i as int].ordered());
        proof {
            sizes.stripe_in_bounds(a);
        }
        let w = sizes.width_over(&a);
        out.push(center_on(&a, w, h));
        i = i + 1;
    }
    assert(out@ =~= sizes.stripes(*ctx, kos, refs@));
    out
}

proof fn width_sum_same(sizes: OverlapSizes, a: Seq<Rect>, b: Seq<Rect>, n: int)
    requires
        0 <= n <= a.len(),
        n <= b.len(),
        forall|i: int| 0 <= i < n ==> a[i] == b[i],
    ensures
        sizes.width_sum(a, n) == sizes.width_sum(b, n),
    decreases n,
{
    if n > 0 {
        width_sum_same(sizes, a, b, n - 1);
    }
}

proof fn height_cap_same(sizes: OverlapSizes, a: Seq<Rect>, b: Seq<Rect>, n: int)
    requires
        0 <= n <= a.len(),
        n <= b.len(),
        forall|i: int| 0 <= i < n ==> a[i] == b[i],
    ensures
        n > 0 ==> sizes.height_cap(a, n) == sizes.height_cap(b, n),
    decreases n,
{
    if n > 1 {
        height_cap_same(sizes, a, b, n - 1);
    }
}

/// The overlap fill of a tile.
pub open spec fn overlap_fill(
    keepouts: Seq<KeepoutShape>,
    op: OverlapParams,
    refs: Seq<Rect>,
    ctx: TileCtx,
) -> Seq<Rect> {
    let sizes = OverlapSizes::of(op, ctx);
    if refs.len() == 0 || !ctx.wants_fill() {
        Seq::empty()
    } else if op.cover {
        sizes.covers(keepouts, refs, refs.len() as int)
    } else {
        sizes.stripes(ctx, keepouts, refs)
    }
}

/// A stripe of some width on the step grid exists.
pub open spec fn has_stripe_width(op: OverlapParams, ctx: TileCtx) -> bool {
    OverlapSizes::of(op, ctx).low() <= OverlapSizes::of(op, ctx).high() && OverlapSizes::of(op, ctx).min_width > 0
}

/// Fill a tile over the fill of a reference layer: with `cover`, each
/// reference grown by the extension; else stripes of one common height, chosen
/// to reach the target density.  Candidates that touch a keep-out are left
/// out.  Nothing is placed without references, or if no more than half the
/// deviation is missing from the target.
pub fn fill_overlap_tile(keepout: &Vec<Keepout>, op: &OverlapParams, ref_rects: &Vec<Rect>, ctx: &TileCtx) -> (out: Vec<
    Rect,
>)
    requires
        ref_rects@.len() > 0 ==> op.usable() && (op.cover || has_stripe_width(*op, *ctx)),
        are_layout_rects(ref_rects@),
        ctx.valid(),
        keepouts_in_reach(keepouts_of(keepout@)),
    ensures
        out@ == overlap_fill(keepouts_of(keepout@), *op, ref_rects@, *ctx),
        are_fill_rects(out@),
{
    if ref_rects.len() == 0 || !ctx.is_below_target() {
        return Vec::new();
    }
    let db = ctx.db_unit_nm;
    let sizes = OverlapSizes {
        min_width: to_units(op.min_width, db),
        max_width: to_units(op.max_width, db),
        extension: to_units(op.min_extension, db),
        step: 4 * ctx.grid_dbu,
    };
    if op.cover {
        cover_refs(keepout, &sizes, ref_rects)
    } else {
        stripe_refs(keepout, &sizes, ref_rects, ctx)
    }
}

impl OverlapSizes {
    proof fn carriers_are_refs(self, keepouts: Seq<KeepoutShape>, refs: Seq<Rect>, n: int)
        requires
            0 <= n <= refs.len(),
        ensures
            forall|a: int|
                0 <= a < self.carriers(keepouts, refs, n).len() ==> refs.contains(
                    #[trigger] self.carriers(keepouts, refs, n)[a],
                ) && self.takes_stripe(keepouts, self.carriers(keepouts, refs, n)[a]),
        decreases n,
    {
        if n > 0 {
            self.carriers_are_refs(keepouts, refs, n - 1);
            let before = self.carriers(keepouts, refs, n - 1);
            let now = self.carriers(keepouts, refs, n);
            assert forall|a: int| 0 <= a < now.len() implies refs.contains(#[trigger] now[a]) && self.takes_stripe(
                keepouts,
                now[a],
            ) by {
                if a < before.len() {
                    assert(now[a] == before[a]);
                } else {
                    assert(now[a] == refs[n - 1]);
                }
            }
        }
    }

    proof fn cap_is_least(self, carriers: Seq<Rect>, n: int)
        requires
            0 < n <= carriers.len(),
        ensures
            forall|a: int| 0 <= a < n ==> self.height_cap(carriers, n) <= self.stripe_height(#[trigger] carriers[a]),
            exists|a: int| 0 <= a < n && self.height_cap(carriers, n) == self.stripe_height(#[trigger] carriers[a]),
        decreases n,
    {
        if n > 1 {
            self.cap_is_least(carriers, n - 1);
            let a = choose|a: int|
                0 <= a < n - 1 && self.height_cap(carriers, n - 1) == self.stripe_height(#[trigger] carriers[a]);
            assert(self.height_cap(carriers, n) == self.stripe_height(carriers[a]) || self.height_cap(carriers, n)
                == self.stripe_height(carriers[n - 1]));
        } else {
            assert(self.height_cap(carriers, n) == self.stripe_height(carriers[0]));
        }
    }

    /// All stripes have one height, not below the least, and each lies within
    /// the highest stripe over its reference, which touches no keep-out.
    pub proof fn stripes_are_legal(self, ctx: TileCtx, keepouts: Seq<KeepoutShape>, refs: Seq<Rect>)
        requires
            self.valid(),
            self.low() <= self.high(),
            are_layout_rects(refs),
        ensures
            forall|a: int|
                0 <= a < self.stripes(ctx, keepouts, refs).len() ==> self.is_legal_stripe(
                    keepouts,
                    refs,
                    self.common_height(ctx, self.carriers(keepouts, refs, refs.len() as int)),
                    #[trigger] self.stripes(ctx, keepouts, refs)[a],
                ),
    {
        let carriers = self.carriers(keepouts, refs, refs.len() as int);
        let h = self.common_height(ctx, carriers);
        self.carriers_are_refs(keepouts, refs, refs.len() as int);
        let out = self.stripes(ctx, keepouts, refs);
        assert forall|a: int| 0 <= a < out.len() implies self.is_legal_stripe(keepouts, refs, h, #[trigger] out[a]) by {
            let c = carriers[a];
            assert(refs.contains(c));
            assert(c.ordered() && c.in_range());
            self.stripe_in_bounds(c);
            self.cap_is_least(carriers, carriers.len() as int);
            let least = choose|b: int|
                0 <= b < carriers.len() && self.height_cap(carriers, carriers.len() as int) == self.stripe_height(
                    #[trigger] carriers[b],
                );
            assert(self.takes_stripe(keepouts, carriers[least]));
            assert(self.low() <= h <= self.stripe_height(c));
            let big = self.highest_stripe(c);
            assert(!is_blocked(keepouts, big));
            assert(big.spec_encloses(out[a]));
        }
    }

    /// `r` is a stripe of height `h` within the highest one over a reference.
    pub open spec fn is_legal_stripe(self, keepouts: Seq<KeepoutShape>, refs: Seq<Rect>, h: int, r: Rect) -> bool {
        &&& h >= self.low()
        &&& r.ordered()
        &&& exists|c: Rect|
            #[trigger] refs.contains(c) && r == centered_on(c, self.stripe_width(c), h) && !is_blocked(
                keepouts,
                self.highest_stripe(c),
            ) && self.highest_stripe(c).spec_encloses(r)
    }

    /// Each covering rectangle encloses its reference, reaches the extension
    /// past it, and touches no keep-out.
    pub proof fn covers_are_legal(self, keepouts: Seq<KeepoutShape>, refs: Seq<Rect>, n: int)
        requires
            self.valid(),
            are_layout_rects(refs),
            0 <= n <= refs.len(),
        ensures
            forall|a: int|
                0 <= a < self.covers(keepouts, refs, n).len() ==> self.is_legal_cover(
                    keepouts,
                    refs,
                    #[trigger] self.covers(keepouts, refs, n)[a],
                ),
        decreases n,
    {
        if n > 0 {
            self.covers_are_legal(keepouts, refs, n - 1);
            let before = self.covers(keepouts, refs, n - 1);
            let now = self.covers(keepouts, refs, n);
            assert forall|a: int| 0 <= a < now.len() implies self.is_legal_cover(keepouts, refs, #[trigger] now[a]) by {
                if a < before.len() {
                    assert(now[a] == before[a]);
                } else {
                    assert(refs.contains(refs[n - 1]));
                    assert(refs[n - 1].in_range());
                }
            }
        }
    }

    /// `r` is a reference grown by the extension that touches no keep-out.
    pub open spec fn is_legal_cover(self, keepouts: Seq<KeepoutShape>, refs: Seq<Rect>, r: Rect) -> bool {
        &&& !is_blocked(keepouts, r)
        &&& exists|c: Rect|
            #[trigger] refs.contains(c) && r.x0 == c.x0 - self.extension && r.y0 == c.y0 - self.extension && r.x1
                == c.x1 + self.extension && r.y1 == c.y1 + self.extension && r.spec_encloses(c)
    }
}

/// `r` has the centre of `c`, rounded down to whole units.
pub open spec fn is_centered(r: Rect, c: Rect) -> bool {
    &&& r.x0 + r.x1 <= c.x0 + c.x1 <= r.x0 + r.x1 + 1
    &&& r.y0 + r.y1 <= c.y0 + c.y1 <= r.y0 + r.y1 + 1
}

/// `r` is a stripe across `c`: centred on it, as near as the grid and the bounds
/// allow to reaching the extension past both sides of it, and not nearer than the
/// extension to its upper and lower end.
pub open spec fn is_across(op: OverlapParams, ctx: TileCtx, r: Rect, c: Rect) -> bool {
    let db = ctx.db_unit_nm as int;
    let (least, most) = (units_of(op.min_width as int, db), units_of(op.max_width as int, db));
    let past = units_of(op.min_extension as int, db);
    &&& is_centered(r, c)
    &&& is_closest(r.x1 - r.x0, c.x1 - c.x0 + 2 * past, least, most, 4 * ctx.grid_dbu)
    &&& is_multiple(r.y1 - r.y0, 4 * ctx.grid_dbu)
    &&& least <= r.y1 - r.y0 <= most
    &&& r.y1 - r.y0 <= c.y1 - c.y0 - 2 * past
}

/// A stripe across `c` that is one step higher than `r` would be too high for it.
pub open spec fn is_highest(op: OverlapParams, ctx: TileCtx, r: Rect, c: Rect) -> bool {
    let db = ctx.db_unit_nm as int;
    let higher = r.y1 - r.y0 + 4 * ctx.grid_dbu;
    higher > units_of(op.max_width as int, db) || higher > c.y1 - c.y0 - 2 * units_of(op.min_extension as int, db)
}

/// What stripes are made from.
pub open spec fn can_stripe(op: OverlapParams, refs: Seq<Rect>, ctx: TileCtx) -> bool {
    &&& op.usable()
    &&& !op.cover
    &&& has_stripe_width(op, ctx)
    &&& are_layout_rects(refs)
    &&& ctx.valid()
}

proof fn sizes_of_usable(op: OverlapParams, ctx: TileCtx)
    requires
        op.usable(),
        ctx.valid(),
    ensures
        OverlapSizes::of(op, ctx).valid(),
{
    let db = ctx.db_unit_nm as int;
    units_bounds(op.min_width as int, db);
    units_bounds(op.max_width as int, db);
    units_bounds(op.min_extension as int, db);
}

/// A stripe of a height between the bounds has its width, its height and its
/// centre.
proof fn stripe_is_across(op: OverlapParams, ctx: TileCtx, c: Rect, h: int)
    requires
        op.usable(),
        ctx.valid(),
        has_stripe_width(op, ctx),
        c.ordered(),
        c.in_range(),
        OverlapSizes::of(op, ctx).low() <= h <= OverlapSizes::of(op, ctx).stripe_height(c),
        is_multiple(h, 4 * ctx.grid_dbu),
    ensures
        ({
            let sizes = OverlapSizes::of(op, ctx);
            let r = centered_on(c, sizes.stripe_width(c), h);
            &&& is_across(op, ctx, r, c)
            &&& r.x1 - r.x0 == sizes.stripe_width(c)
            &&& r.y1 - r.y0 == h
        }),
{
    sizes_of_usable(op, ctx);
    let db = ctx.db_unit_nm as int;
    units_bounds(op.min_width as int, db);
    units_bounds(op.max_width as int, db);
    units_bounds(op.min_extension as int, db);
    let sizes = OverlapSizes::of(op, ctx);
    let step = sizes.step as int;
    sizes.stripe_in_bounds(c);
    rounding_is_tight(sizes.min_width as int, step);
    rounding_is_tight(min_of(c.height() - 2 * sizes.extension, sizes.max_width as int), step);
    clamped_is_closest(c.width() + 2 * sizes.extension, sizes.min_width as int, sizes.max_width as int, step);
    let k = h / step;
    lemma_fundamental_div_mod(h, step);
    multiple_is_even(k, step);
    assert(k * step == step * k) by (nonlinear_arith);
}

/// Every stripe lies across a reference, and all stripes have one height.
pub proof fn stripes_lie_across(keepouts: Seq<KeepoutShape>, op: OverlapParams, refs: Seq<Rect>, ctx: TileCtx, a: int)
    requires
        can_stripe(op, refs, ctx),
        0 <= a < overlap_fill(keepouts, op, refs, ctx).len(),
    ensures
        ({
            let out = overlap_fill(keepouts, op, refs, ctx);
            &&& out[a].y1 - out[a].y0 == out[0].y1 - out[0].y0
            &&& exists|c: Rect| #[trigger] refs.contains(c) && is_across(op, ctx, out[a], c)
        }),
{
    let sizes = OverlapSizes::of(op, ctx);
    let carriers = sizes.carriers(keepouts, refs, refs.len() as int);
    let out = overlap_fill(keepouts, op, refs, ctx);
    common_height_is_held(keepouts, op, refs, ctx, 0);
    common_height_is_held(keepouts, op, refs, ctx, a);
    assert(refs.contains(carriers[a]));
}

/// The stripe at a position is the one across the carrier at that position.
proof fn common_height_is_held(keepouts: Seq<KeepoutShape>, op: OverlapParams, refs: Seq<Rect>, ctx: TileCtx, a: int)
    requires
        can_stripe(op, refs, ctx),
        0 <= a < overlap_fill(keepouts, op, refs, ctx).len(),
    ensures
        ({
            let out = overlap_fill(keepouts, op, refs, ctx);
            let sizes = OverlapSizes::of(op, ctx);
            let carriers = sizes.carriers(keepouts, refs, refs.len() as int);
            let h = sizes.common_height(ctx, carriers);
            &&& out.len() == carriers.len()
            &&& refs.contains(carriers[a])
            &&& is_across(op, ctx, out[a], carriers[a])
            &&& out[a].x1 - out[a].x0 == sizes.stripe_width(carriers[a])
            &&& out[a].y1 - out[a].y0 == h
            &&& sizes.low() <= h <= sizes.height_cap(carriers, carriers.len() as int)
        }),
{
    sizes_of_usable(op, ctx);
    let sizes = OverlapSizes::of(op, ctx);
    let step = sizes.step as int;
    let carriers = sizes.carriers(keepouts, refs, refs.len() as int);
    let n = carriers.len() as int;
    let h = sizes.common_height(ctx, carriers);
    sizes.carriers_are_refs(keepouts, refs, refs.len() as int);
    sizes.cap_is_least(carriers, n);
    let least = choose|b: int|
        0 <= b < n && sizes.height_cap(carriers, n) == sizes.stripe_height(#[trigger] carriers[b]);
    assert(sizes.takes_stripe(keepouts, carriers[least]));
    assert(sizes.low() <= h <= sizes.height_cap(carriers, n));
    let c = carriers[a];
    assert(refs.contains(c));
    assert(c.ordered() && c.in_range());
    rounding_is_tight(sizes.min_width as int, step);
    rounding_is_tight(min_of(carriers[least].height() - 2 * sizes.extension, sizes.max_width as int), step);
    let twice = (ctx.need() / (FULL as int)) / sizes.width_sum(carriers, n);
    vstd::arithmetic::div_mod::lemma_mod_multiples_basic((twice + step) / (2 * step), step);
    assert(is_multiple(h, step));
    stripe_is_across(op, ctx, c, h);
}

/// A reference gets its stripe: where the tile lacks fill, a stripe across it has
/// the greatest height on the grid, and that one touches no keep-out.
pub proof fn every_reference_is_striped(
    keepouts: Seq<KeepoutShape>,
    op: OverlapParams,
    refs: Seq<Rect>,
    ctx: TileCtx,
    c: Rect,
    high: Rect,
)
    requires
        can_stripe(op, refs, ctx),
        lacks_fill(ctx),
        refs.contains(c),
        is_across(op, ctx, high, c),
        is_highest(op, ctx, high, c),
        !is_blocked(keepouts, high),
    ensures
        exists|a: int|
            0 <= a < overlap_fill(keepouts, op, refs, ctx).len() && is_across(
                op,
                ctx,
                #[trigger] overlap_fill(keepouts, op, refs, ctx)[a],
                c,
            ) && overlap_fill(keepouts, op, refs, ctx)[a].x0 == high.x0,
{
    sizes_of_usable(op, ctx);
    let sizes = OverlapSizes::of(op, ctx);
    let step = sizes.step as int;
    let db = ctx.db_unit_nm as int;
    units_bounds(op.min_width as int, db);
    units_bounds(op.max_width as int, db);
    units_bounds(op.min_extension as int, db);
    let out = overlap_fill(keepouts, op, refs, ctx);
    assert(c.ordered() && c.in_range());
    let room = min_of(c.height() - 2 * sizes.extension, sizes.max_width as int);
    rounding_is_tight(room, step);
    rounding_is_tight(sizes.min_width as int, step);
    let h = high.y1 - high.y0;
    assert(is_multiple(h, step));
    let tall = sizes.stripe_height(c);
    assert(h <= tall < h + step || tall == h);
    assert(tall == h) by {
        lemma_fundamental_div_mod(h, step);
        lemma_fundamental_div_mod(tall, step);
        let (i, j) = (h / step, tall / step);
        assert(i == j) by (nonlinear_arith)
            requires
                step > 0,
                step * i <= step * j < step * i + step,
        ;
    }
    stripe_is_across(op, ctx, c, h);
    let mine = sizes.highest_stripe(c);
    closest_is_unique(
        high.x1 - high.x0,
        mine.x1 - mine.x0,
        c.x1 - c.x0 + 2 * sizes.extension,
        sizes.min_width as int,
        sizes.max_width as int,
        step,
    );
    sizes.stripe_in_bounds(c);
    assert(mine == high);
    assert(sizes.takes_stripe(keepouts, c));
    let k = choose|k: int| 0 <= k < refs.len() && refs[k] == c;
    let a = sizes.taker_is_carrier(keepouts, refs, refs.len() as int, k);
    let carriers = sizes.carriers(keepouts, refs, refs.len() as int);
    assert(out.len() == carriers.len());
    common_height_is_held(keepouts, op, refs, ctx, a);
    assert(is_across(op, ctx, out[a], c));
    assert(out[a].x0 == high.x0);
}

impl OverlapSizes {
    proof fn taker_is_carrier(self, keepouts: Seq<KeepoutShape>, refs: Seq<Rect>, n: int, k: int) -> (a: int)
        requires
            0 <= k < n <= refs.len(),
            self.takes_stripe(keepouts, refs[k]),
        ensures
            0 <= a < self.carriers(keepouts, refs, n).len(),
            self.carriers(keepouts, refs, n)[a] == refs[k],
        decreases n,
    {
        if k == n - 1 {
            self.carriers(keepouts, refs, n - 1).len() as int
        } else {
            self.taker_is_carrier(keepouts, refs, n - 1, k)
        }
    }

    /// Stripes of the widths of the carriers have their summed width, and cover
    /// twice that times their height.
    proof fn stripes_cover(self, carriers: Seq<Rect>, out: Seq<Rect>, h: int, n: int)
        requires
            0 <= n <= carriers.len(),
            n <= out.len(),
            forall|a: int|
                0 <= a < n ==> (#[trigger] out[a]).x1 - out[a].x0 == self.stripe_width(carriers[a]) && out[a].y1
                    - out[a].y0 == h,
        ensures
            widths(out.take(n)) == self.width_sum(carriers, n),
            covered(out.take(n)) == 2 * (widths(out.take(n)) * h),
        decreases n,
    {
        if n > 0 {
            self.stripes_cover(carriers, out, h, n - 1);
            assert(out.take(n).drop_last() =~= out.take(n - 1));
            let w = out[n - 1].x1 - out[n - 1].x0;
            let before = widths(out.take(n - 1));
            assert((before + w) * h == before * h + w * h) by (nonlinear_arith);
        }
    }
}

/// The stripes together have the area that is missing, to half a step of their
/// height and whole units: more only where they are of the least height, less
/// only where one of them is as high as its reference allows.
pub proof fn stripes_have_the_missing_area(
    keepouts: Seq<KeepoutShape>,
    op: OverlapParams,
    refs: Seq<Rect>,
    ctx: TileCtx,
)
    requires
        can_stripe(op, refs, ctx),
        overlap_fill(keepouts, op, refs, ctx).len() > 0,
    ensures
        ({
            let out = overlap_fill(keepouts, op, refs, ctx);
            let step = 4 * ctx.grid_dbu;
            let over = 100_000_000 * (widths(out) * step);
            let least = units_of(op.min_width as int, ctx.db_unit_nm as int);
            ||| out[0].y1 - out[0].y0 < least + step
            ||| shortfall(ctx, covered(out)) >= -over
        }),
        ({
            let out = overlap_fill(keepouts, op, refs, ctx);
            let step = 4 * ctx.grid_dbu;
            let under = 100_000_000 * (widths(out) * (step + 1) + 1);
            ||| exists|a: int, c: Rect|
                0 <= a < out.len() && refs.contains(c) && #[trigger] is_across(op, ctx, out[a], c) && is_highest(
                    op,
                    ctx,
                    out[a],
                    c,
                )
            ||| shortfall(ctx, covered(out)) <= under
        }),
{
    let out = overlap_fill(keepouts, op, refs, ctx);
    let sizes = OverlapSizes::of(op, ctx);
    let step = sizes.step as int;
    let carriers = sizes.carriers(keepouts, refs, refs.len() as int);
    let n = carriers.len() as int;
    let h = sizes.common_height(ctx, carriers);
    common_height_is_held(keepouts, op, refs, ctx, 0);
    assert forall|a: int| 0 <= a < n implies (#[trigger] out[a]).x1 - out[a].x0 == sizes.stripe_width(carriers[a])
        && out[a].y1 - out[a].y0 == h by {
        common_height_is_held(keepouts, op, refs, ctx, a);
    }
    sizes.stripes_cover(carriers, out, h, n);
    assert(out.take(n) =~= out);
    let w = widths(out);
    sizes_of_usable(op, ctx);
    sizes.widths_are_positive(keepouts, refs, n);
    let need = ctx.need();
    let budget = need / (FULL as int);
    let twice = budget / w;
    let q = (twice + step) / (2 * step);
    lemma_fundamental_div_mod(need, FULL as int);
    lemma_fundamental_div_mod(budget, w);
    lemma_fundamental_div_mod(twice + step, 2 * step);
    let wanted = q * step;
    assert((2 * step) * q == 2 * wanted) by (nonlinear_arith)
        requires
            wanted == q * step,
    ;
    assert(2 * wanted <= twice + step && twice + step < 2 * wanted + 2 * step);
    assert(w * twice <= budget < w * twice + w);
    assert(covered(out) == 2 * (w * h));
    rounding_is_tight(sizes.min_width as int, step);
    let db = ctx.db_unit_nm as int;
    units_bounds(op.min_width as int, db);
    units_bounds(op.max_width as int, db);
    units_bounds(op.min_extension as int, db);
    if h >= units_of(op.min_width as int, db) + step {
        assert(h <= wanted);
        assert(2 * (w * h) <= w * twice + w * step) by (nonlinear_arith)
            requires
                w > 0,
                2 * h <= twice + step,
        ;
    }
    sizes.cap_is_least(carriers, n);
    let b = choose|b: int|
        0 <= b < n && sizes.height_cap(carriers, n) == sizes.stripe_height(#[trigger] carriers[b]);
    if h < wanted {
        common_height_is_held(keepouts, op, refs, ctx, b);
        let c = carriers[b];
        rounding_is_tight(min_of(c.height() - 2 * sizes.extension, sizes.max_width as int), step);
        assert(is_across(op, ctx, out[b], c) && is_highest(op, ctx, out[b], c));
    } else {
        assert(2 * (w * h) >= w * twice - w * step) by (nonlinear_arith)
            requires
                w > 0,
                2 * h >= twice - step,
        ;
        assert(w * (step + 1) == w * step + w) by (nonlinear_arith);
        assert(budget <= 2 * (w * h) + w * (step + 1));
    }
}

impl OverlapSizes {
    proof fn widths_are_positive(self, keepouts: Seq<KeepoutShape>, refs: Seq<Rect>, n: int)
        requires
            self.valid(),
            self.low() <= self.high(),
            self.min_width > 0,
            are_layout_rects(refs),
            0 <= n <= self.carriers(keepouts, refs, refs.len() as int).len(),
        ensures
            self.width_sum(self.carriers(keepouts, refs, refs.len() as int), n) >= n,
        decreases n,
    {
        if n > 0 {
            self.widths_are_positive(keepouts, refs, n - 1);
            self.carriers_are_refs(keepouts, refs, refs.len() as int);
            let c = self.carriers(keepouts, refs, refs.len() as int)[n - 1];
            assert(refs.contains(c));
            assert(c.ordered() && c.in_range());
            self.stripe_in_bounds(c);
        }
    }

    proof fn clear_cover_is_kept(self, keepouts: Seq<KeepoutShape>, refs: Seq<Rect>, n: int, k: int) -> (a: int)
        requires
            0 <= k < n <= refs.len(),
            !is_blocked(keepouts, refs[k].spec_grown(self.extension as int)),
        ensures
            0 <= a < self.covers(keepouts, refs, n).len(),
            self.covers(keepouts, refs, n)[a] == refs[k].spec_grown(self.extension as int),
        decreases n,
    {
        if k == n - 1 {
            self.covers(keepouts, refs, n - 1).len() as int
        } else {
            self.clear_cover_is_kept(keepouts, refs, n - 1, k)
        }
    }
}

/// `r` reaches the extension past `c` on all four sides.
pub open spec fn is_over(op: OverlapParams, ctx: TileCtx, r: Rect, c: Rect) -> bool {
    let past = units_of(op.min_extension as int, ctx.db_unit_nm as int);
    r.x0 == c.x0 - past && r.y0 == c.y0 - past && r.x1 == c.x1 + past && r.y1 == c.y1 + past
}

/// Where the tile lacks fill, covering places the references that it can, grown by
/// the extension, and nothing else: every one that touches no keep-out.
pub proof fn every_reference_is_covered(
    keepouts: Seq<KeepoutShape>,
    op: OverlapParams,
    refs: Seq<Rect>,
    ctx: TileCtx,
    c: Rect,
    r: Rect,
)
    requires
        op.usable(),
        op.cover,
        are_layout_rects(refs),
        ctx.valid(),
        lacks_fill(ctx),
        refs.contains(c),
        is_over(op, ctx, r, c),
    ensures
        overlap_fill(keepouts, op, refs, ctx).contains(r) == !is_blocked(keepouts, r),
{
    sizes_of_usable(op, ctx);
    units_bounds(op.min_extension as int, ctx.db_unit_nm as int);
    let sizes = OverlapSizes::of(op, ctx);
    let out = overlap_fill(keepouts, op, refs, ctx);
    let k = choose|k: int| 0 <= k < refs.len() && refs[k] == c;
    assert(refs[k].in_range());
    assert(c.spec_grown(sizes.extension as int) == r);
    if !is_blocked(keepouts, r) {
        let a = sizes.clear_cover_is_kept(keepouts, refs, refs.len() as int, k);
        assert(out[a] == r);
    }
    sizes.covers_are_legal(keepouts, refs, refs.len() as int);
    if out.contains(r) {
        let a = choose|a: int| 0 <= a < out.len() && out[a] == r;
        assert(sizes.is_legal_cover(keepouts, refs, out[a]));
    }
}

/// Everything that covering places reaches the extension past a reference.
pub proof fn covers_lie_over(keepouts: Seq<KeepoutShape>, op: OverlapParams, refs: Seq<Rect>, ctx: TileCtx, a: int)
    requires
        op.usable(),
        op.cover,
        are_layout_rects(refs),
        ctx.valid(),
        0 <= a < overlap_fill(keepouts, op, refs, ctx).len(),
    ensures
        exists|c: Rect| #[trigger] refs.contains(c) && is_over(op, ctx, overlap_fill(keepouts, op, refs, ctx)[a], c),
{
    sizes_of_usable(op, ctx);
    units_bounds(op.min_extension as int, ctx.db_unit_nm as int);
    let sizes = OverlapSizes::of(op, ctx);
    let out = overlap_fill(keepouts, op, refs, ctx);
    sizes.covers_are_legal(keepouts, refs, refs.len() as int);
    assert(sizes.is_legal_cover(keepouts, refs, out[a]));
    let c = choose|c: Rect|
        #[trigger] refs.contains(c) && out[a].x0 == c.x0 - sizes.extension && out[a].y0 == c.y0 - sizes.extension
            && out[a].x1 == c.x1 + sizes.extension && out[a].y1 == c.y1 + sizes.extension;
    assert(is_over(op, ctx, out[a], c));
}

/// Nothing is placed in a tile that lacks no more than half the deviation.
pub proof fn overlap_stops_at_the_target(
    keepouts: Seq<KeepoutShape>,
    op: OverlapParams,
    refs: Seq<Rect>,
    ctx: TileCtx,
)
    requires
        !lacks_fill(ctx),
    ensures
        overlap_fill(keepouts, op, refs, ctx).len() == 0,
{
}

} // verus!
