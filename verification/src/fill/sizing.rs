//! Size and space of the fill squares for a target density.
//!
//! Squares of side `size` at gaps `space` cover `(size / (size + space))^2` of
//! the plane.  The largest feasible pitch is wanted: the largest squares that
//! stay within the target at the widest gap, and the narrowest gap that keeps
//! the widest squares within the target.

use crate::geom::max_of;
use vstd::arithmetic::div_mod::lemma_fundamental_div_mod;
use vstd::arithmetic::div_mod::lemma_mod_multiples_basic;
use vstd::prelude::*;

verus! {

/// A coverage of one.
pub const ONE: i64 = 1_000_000_000_000;

/// Largest width or space, in layout units.
pub const WIDTH_LIMIT: i64 = 0x8000_0001;

/// Bounds on size and space, and the step that both are multiples of.
#[derive(Clone, Copy, Debug)]
pub struct Sizing {
    pub min_width: i64,
    pub max_width: i64,
    pub min_space: i64,
    pub max_space: i64,
    pub step: i64,
}

/// Squares with these doubled sides and gaps cover at most `coverage`.
pub open spec fn covers_at_most(side2: int, gap2: int, coverage: int) -> bool {
    side2 * side2 * ONE <= coverage * ((side2 + gap2) * (side2 + gap2))
}

/// Squares with these doubled sides and gaps cover at least `coverage`.
pub open spec fn covers_at_least(side2: int, gap2: int, coverage: int) -> bool {
    coverage * ((side2 + gap2) * (side2 + gap2)) <= side2 * side2 * ONE
}

/// The smallest multiple of `step` that is at least `length`.
pub open spec fn round_up(length: int, step: int) -> int {
    (length + step - 1) / step * step
}

impl Sizing {
    /// The bounds are ordered and not negative.
    pub open spec fn valid(self) -> bool {
        &&& 0 <= self.min_width <= self.max_width <= WIDTH_LIMIT
        &&& 0 <= self.min_space <= self.max_space <= WIDTH_LIMIT
        &&& 0 < self.step <= 0x1_0000_0000
        &&& self.step % 4 == 0
    }

    /// The wanted side is at least half of `side2`.
    pub open spec fn side_reaches(self, coverage: int, side2: int) -> bool {
        side2 <= 2 * self.min_width || (side2 <= 2 * self.max_width && covers_at_most(
            side2,
            2 * self.max_space,
            coverage,
        ))
    }

    /// The wanted gap is at least half of `gap2`.
    pub open spec fn gap_reaches(self, coverage: int, gap2: int) -> bool {
        gap2 <= 2 * self.min_space || (gap2 <= 2 * self.max_space && covers_at_least(
            2 * self.max_width,
            gap2,
            coverage,
        ))
    }

    /// The wanted side in steps, rounded to the nearest, if it is not above `k`.
    pub open spec fn side_steps(self, coverage: int, k: int) -> int
        decreases k,
    {
        if k <= 0 {
            0
        } else if self.side_reaches(coverage, (2 * k - 1) * self.step) {
            k
        } else {
            self.side_steps(coverage, k - 1)
        }
    }

    /// The wanted gap in steps, rounded to the nearest, if it is not above `k`.
    pub open spec fn gap_steps(self, coverage: int, k: int) -> int
        decreases k,
    {
        if k <= 0 {
            0
        } else if self.gap_reaches(coverage, (2 * k - 1) * self.step) {
            k
        } else {
            self.gap_steps(coverage, k - 1)
        }
    }

    /// The side of the squares for a coverage: the wanted side on the step
    /// grid, not below the minimum.
    pub open spec fn side(self, coverage: int) -> int {
        max_of(
            self.side_steps(coverage, self.max_width as int / self.step as int + 1) * self.step,
            round_up(self.min_width as int, self.step as int),
        )
    }

    /// The gap between squares for a coverage: the wanted gap on the step grid,
    /// not below the minimum.
    pub open spec fn gap(self, coverage: int) -> int {
        max_of(
            self.gap_steps(coverage, self.max_space as int / self.step as int + 1) * self.step,
            round_up(self.min_space as int, self.step as int),
        )
    }

    /// Wanted sides below a reached one are reached.
    proof fn side_monotone(self, coverage: int, a: int, b: int)
        requires
            self.valid(),
            0 <= coverage,
            a <= b,
            self.side_reaches(coverage, b),
        ensures
            self.side_reaches(coverage, a),
    {
        if a > 2 * self.min_width && a < b {
            let s = 2 * self.max_space;
            assert(b > 2 * self.min_width);
            assert(covers_at_most(b, s, coverage));
            smaller_covers_less(a, b, s, coverage);
        }
    }

    /// Wanted gaps below a reached one are reached.
    proof fn gap_monotone(self, coverage: int, a: int, b: int)
        requires
            self.valid(),
            0 <= coverage,
            a <= b,
            self.gap_reaches(coverage, b),
        ensures
            self.gap_reaches(coverage, a),
    {
        if a > 2 * self.min_space && a < b {
            let w = 2 * self.max_width;
            assert(covers_at_least(w, b, coverage));
            assert(coverage * ((w + a) * (w + a)) <= coverage * ((w + b) * (w + b))) by (nonlinear_arith)
                requires
                    0 <= coverage,
                    0 <= w + a <= w + b,
            ;
        }
    }

    proof fn side_steps_is(self, coverage: int, k: int, top: int)
        requires
            self.valid(),
            0 <= coverage,
            0 <= k <= top,
            k == 0 || self.side_reaches(coverage, (2 * k - 1) * self.step),
            k == top || !self.side_reaches(coverage, (2 * k + 1) * self.step),
        ensures
            self.side_steps(coverage, top) == k,
        decreases top,
    {
        if k < top {
            assert((2 * k + 1) * self.step <= (2 * top - 1) * self.step) by (nonlinear_arith)
                requires
                    k < top,
                    self.step > 0,
            ;
            if self.side_reaches(coverage, (2 * top - 1) * self.step) {
                self.side_monotone(coverage, (2 * k + 1) * self.step, (2 * top - 1) * self.step);
            }
            self.side_steps_is(coverage, k, top - 1);
        }
    }

    proof fn gap_steps_is(self, coverage: int, k: int, top: int)
        requires
            self.valid(),
            0 <= coverage,
            0 <= k <= top,
            k == 0 || self.gap_reaches(coverage, (2 * k - 1) * self.step),
            k == top || !self.gap_reaches(coverage, (2 * k + 1) * self.step),
        ensures
            self.gap_steps(coverage, top) == k,
        decreases top,
    {
        if k < top {
            assert((2 * k + 1) * self.step <= (2 * top - 1) * self.step) by (nonlinear_arith)
                requires
                    k < top,
                    self.step > 0,
            ;
            if self.gap_reaches(coverage, (2 * top - 1) * self.step) {
                self.gap_monotone(coverage, (2 * k + 1) * self.step, (2 * top - 1) * self.step);
            }
            self.gap_steps_is(coverage, k, top - 1);
        }
    }

    proof fn steps_in_bounds(self, coverage: int, k: int)
        requires
            0 <= k,
        ensures
            0 <= self.side_steps(coverage, k) <= k,
            0 <= self.gap_steps(coverage, k) <= k,
        decreases k,
    {
        if k > 0 {
            self.steps_in_bounds(coverage, k - 1);
        }
    }

    proof fn side_steps_bracket(self, coverage: int, top: int)
        requires
            0 <= top,
        ensures
            ({
                let k = self.side_steps(coverage, top);
                &&& 0 <= k <= top
                &&& k == 0 || self.side_reaches(coverage, (2 * k - 1) * self.step)
                &&& k == top || !self.side_reaches(coverage, (2 * k + 1) * self.step)
            }),
        decreases top,
    {
        if top > 0 && !self.side_reaches(coverage, (2 * top - 1) * self.step) {
            self.side_steps_bracket(coverage, top - 1);
        }
    }

    proof fn gap_steps_bracket(self, coverage: int, top: int)
        requires
            0 <= top,
        ensures
            ({
                let k = self.gap_steps(coverage, top);
                &&& 0 <= k <= top
                &&& k == 0 || self.gap_reaches(coverage, (2 * k - 1) * self.step)
                &&& k == top || !self.gap_reaches(coverage, (2 * k + 1) * self.step)
            }),
        decreases top,
    {
        if top > 0 && !self.gap_reaches(coverage, (2 * top - 1) * self.step) {
            self.gap_steps_bracket(coverage, top - 1);
        }
    }

    /// The side is the one at which squares with the widest gaps have the
    /// coverage, to half a step: narrower by half a step they cover no more than
    /// it, wider by half a step more than it, unless a bound stops them.
    pub proof fn side_gives_coverage(self, coverage: int)
        requires
            self.valid(),
            0 <= coverage <= ONE,
        ensures
            ({
                let (narrow, wide) = (2 * self.side(coverage) - self.step, 2 * self.side(coverage) + self.step);
                let gaps = 2 * self.max_space;
                &&& self.side(coverage) >= self.min_width + self.step ==> narrow * narrow * 1_000_000_000_000 <= coverage
                    * ((narrow + gaps) * (narrow + gaps))
                &&& wide <= 2 * self.max_width ==> wide * wide * 1_000_000_000_000 > coverage * ((wide + gaps) * (wide
                    + gaps))
            }),
    {
        let step = self.step as int;
        let top = self.max_width as int / step + 1;
        lemma_fundamental_div_mod(self.max_width as int, step);
        assert(self.max_width as int / step >= 0) by (nonlinear_arith)
            requires
                self.max_width >= 0,
                step > 0,
        ;
        let k = self.side_steps(coverage, top);
        self.side_steps_bracket(coverage, top);
        round_up_bounds(self.min_width as int, step);
        assert((2 * k - 1) * step == 2 * (k * step) - step && (2 * k + 1) * step == 2 * (k * step) + step)
            by (nonlinear_arith);
        assert(top * step == step * (top - 1) + step) by (nonlinear_arith);
        let (narrow, wide) = (2 * self.side(coverage) - step, 2 * self.side(coverage) + step);
        if self.side(coverage) >= self.min_width + step {
            assert(self.side(coverage) == k * step);
            assert(k != 0) by (nonlinear_arith)
                requires
                    k * step > 0,
            ;
            assert(self.side_reaches(coverage, narrow));
            assert(covers_at_most(narrow, 2 * self.max_space, coverage));
        }
        if wide <= 2 * self.max_width {
            assert(k < top);
            if self.side_reaches(coverage, wide) {
                self.side_monotone(coverage, (2 * k + 1) * step, wide);
            }
            assert(!covers_at_most(wide, 2 * self.max_space, coverage));
        }
    }

    /// The gap is the one at which the widest squares have the coverage, to half a
    /// step: narrower by half a step they cover no less than it, wider by half a
    /// step less than it, unless a bound stops it.
    pub proof fn gap_gives_coverage(self, coverage: int)
        requires
            self.valid(),
            0 <= coverage <= ONE,
        ensures
            ({
                let (narrow, wide) = (2 * self.gap(coverage) - self.step, 2 * self.gap(coverage) + self.step);
                let sides = 2 * self.max_width;
                &&& self.gap(coverage) >= self.min_space + self.step ==> coverage * ((sides + narrow) * (sides + narrow))
                    <= sides * sides * 1_000_000_000_000
                &&& wide <= 2 * self.max_space ==> coverage * ((sides + wide) * (sides + wide)) > sides * sides
                    * 1_000_000_000_000
            }),
    {
        let step = self.step as int;
        let top = self.max_space as int / step + 1;
        lemma_fundamental_div_mod(self.max_space as int, step);
        assert(self.max_space as int / step >= 0) by (nonlinear_arith)
            requires
                self.max_space >= 0,
                step > 0,
        ;
        let k = self.gap_steps(coverage, top);
        self.gap_steps_bracket(coverage, top);
        round_up_bounds(self.min_space as int, step);
        assert((2 * k - 1) * step == 2 * (k * step) - step && (2 * k + 1) * step == 2 * (k * step) + step)
            by (nonlinear_arith);
        assert(top * step == step * (top - 1) + step) by (nonlinear_arith);
        let (narrow, wide) = (2 * self.gap(coverage) - step, 2 * self.gap(coverage) + step);
        if self.gap(coverage) >= self.min_space + step {
            assert(self.gap(coverage) == k * step);
            assert(k != 0) by (nonlinear_arith)
                requires
                    k * step > 0,
            ;
            assert(self.gap_reaches(coverage, narrow));
            assert(covers_at_least(2 * self.max_width, narrow, coverage));
        }
        if wide <= 2 * self.max_space {
            assert(k < top);
            if self.gap_reaches(coverage, wide) {
                self.gap_monotone(coverage, (2 * k + 1) * step, wide);
            }
            assert(!covers_at_least(2 * self.max_width, wide, coverage));
        }
    }

    /// Sides and gaps are multiples of the step, bounded, and neither is below
    /// its minimum.  Half a side is on the manufacturing grid.
    pub proof fn sizes_in_bounds(self, coverage: int)
        requires
            self.valid(),
        ensures
            self.min_width <= self.side(coverage) <= 0x2_0000_0000,
            self.min_space <= self.gap(coverage) <= 0x2_0000_0000,
            self.side(coverage) % 2 == 0,
            self.side(coverage) % (self.step as int) == 0,
            self.gap(coverage) % (self.step as int) == 0,
    {
        let step = self.step as int;
        lemma_mod_multiples_basic(self.side_steps(coverage, self.max_width as int / step + 1), step);
        lemma_mod_multiples_basic(self.gap_steps(coverage, self.max_space as int / step + 1), step);
        lemma_mod_multiples_basic((self.min_width + step - 1) / step, step);
        lemma_mod_multiples_basic((self.min_space + step - 1) / step, step);
        let (p, q) = (self.max_width as int / step + 1, self.max_space as int / step + 1);
        top_fits(self.max_width as int, step);
        top_fits(self.max_space as int, step);
        self.steps_in_bounds(coverage, p);
        self.steps_in_bounds(coverage, q);
        scaled_fits(self.side_steps(coverage, p), p, step);
        scaled_fits(self.gap_steps(coverage, q), q, step);
        even_multiple(self.side_steps(coverage, p), step);
        round_up_bounds(self.min_width as int, step);
        round_up_bounds(self.min_space as int, step);
    }

    /// Is the wanted side at least half of `side2`?
    fn test_side(&self, coverage: i64, side2: i128) -> (b: bool)
        requires
            self.valid(),
            0 <= coverage <= ONE,
            0 <= side2 <= 0x8_0000_0000,
        ensures
            b == self.side_reaches(coverage as int, side2 as int),
    {
        if side2 <= 2 * self.min_width as i128 {
            return true;
        }
        if side2 > 2 * self.max_width as i128 {
            return false;
        }
        let sum: i128 = side2 + 2 * self.max_space as i128;
        proof {
            products_fit(side2 as int, sum as int, coverage as int);
        }
        side2 * side2 * ONE as i128 <= coverage as i128 * (sum * sum)
    }

    /// Is the wanted gap at least half of `gap2`?
    fn test_gap(&self, coverage: i64, gap2: i128) -> (b: bool)
        requires
            self.valid(),
            0 <= coverage <= ONE,
            0 <= gap2 <= 0x8_0000_0000,
        ensures
            b == self.gap_reaches(coverage as int, gap2 as int),
    {
        if gap2 <= 2 * self.min_space as i128 {
            return true;
        }
        if gap2 > 2 * self.max_space as i128 {
            return false;
        }
        let w: i128 = 2 * self.max_width as i128;
        let sum: i128 = w + gap2;
        proof {
            products_fit(w as int, sum as int, coverage as int);
        }
        coverage as i128 * (sum * sum) <= w * w * ONE as i128
    }

    /// The wanted side in steps, by bisection.
    fn find_side_steps(&self, coverage: i64) -> (k: i64)
        requires
            self.valid(),
            0 <= coverage <= ONE,
        ensures
            k == self.side_steps(coverage as int, self.max_width as int / self.step as int + 1),
            0 <= k <= self.max_width as int / self.step as int + 1,
    {
        let top = self.max_width / self.step + 1;
        proof {
            top_fits(self.max_width as int, self.step as int);
        }
        let mut lo: i64 = 0;
        let mut hi: i64 = top + 1;
        while lo + 1 < hi
            invariant
                self.valid(),
                0 <= coverage <= ONE,
                top == self.max_width as int / self.step as int + 1,
                0 <= lo < hi <= top + 1,
                top <= 0x8000_0002,
                (2 * top - 1) * self.step <= 0x8_0000_0000,
                lo == 0 || self.side_reaches(coverage as int, (2 * lo - 1) * self.step),
                hi == top + 1 || !self.side_reaches(coverage as int, (2 * hi - 1) * self.step),
            decreases hi - lo,
        {
            let mid = lo + (hi - lo) / 2;
            proof {
                assert(0 <= (2 * mid - 1) * self.step <= (2 * top - 1) * self.step) by (nonlinear_arith)
                    requires
                        1 <= mid <= top,
                        self.step > 0,
                ;
            }
            if self.test_side(coverage, (2 * mid as i128 - 1) * self.step as i128) {
                lo = mid;
            } else {
                hi = mid;
            }
        }
        proof {
            self.side_steps_is(coverage as int, lo as int, top as int);
        }
        lo
    }

    /// The wanted gap in steps, by bisection.
    fn find_gap_steps(&self, coverage: i64) -> (k: i64)
        requires
            self.valid(),
            0 <= coverage <= ONE,
        ensures
            k == self.gap_steps(coverage as int, self.max_space as int / self.step as int + 1),
            0 <= k <= self.max_space as int / self.step as int + 1,
    {
        let top = self.max_space / self.step + 1;
        proof {
            top_fits(self.max_space as int, self.step as int);
        }
        let mut lo: i64 = 0;
        let mut hi: i64 = top + 1;
        while lo + 1 < hi
            invariant
                self.valid(),
                0 <= coverage <= ONE,
                top == self.max_space as int / self.step as int + 1,
                0 <= lo < hi <= top + 1,
                top <= 0x8000_0002,
                (2 * top - 1) * self.step <= 0x8_0000_0000,
                lo == 0 || self.gap_reaches(coverage as int, (2 * lo - 1) * self.step),
                hi == top + 1 || !self.gap_reaches(coverage as int, (2 * hi - 1) * self.step),
            decreases hi - lo,
        {
            let mid = lo + (hi - lo) / 2;
            proof {
                assert(0 <= (2 * mid - 1) * self.step <= (2 * top - 1) * self.step) by (nonlinear_arith)
                    requires
                        1 <= mid <= top,
                        self.step > 0,
                ;
            }
            if self.test_gap(coverage, (2 * mid as i128 - 1) * self.step as i128) {
                lo = mid;
            } else {
                hi = mid;
            }
        }
        proof {
            self.gap_steps_is(coverage as int, lo as int, top as int);
        }
        lo
    }

    /// Side and gap of the fill squares for a coverage.
    pub fn analytical_params(&self, coverage: i64) -> (r: (i64, i64))
        requires
            self.valid(),
            0 <= coverage <= ONE,
        ensures
            r.0 == self.side(coverage as int),
            r.1 == self.gap(coverage as int),
            0 <= r.0 <= 0x2_0000_0000,
            0 <= r.1 <= 0x2_0000_0000,
            r.0 % 2 == 0,
            r.0 >= self.min_width,
            r.1 >= self.min_space,
    {
        let k = self.find_side_steps(coverage);
        let m = self.find_gap_steps(coverage);
        proof {
            top_fits(self.max_width as int, self.step as int);
            top_fits(self.max_space as int, self.step as int);
            scaled_fits(k as int, self.max_width as int / self.step as int + 1, self.step as int);
            scaled_fits(m as int, self.max_space as int / self.step as int + 1, self.step as int);
        }
        let side = k * self.step;
        let gap = m * self.step;
        let low_side = snap_up(self.min_width, self.step);
        let low_gap = snap_up(self.min_space, self.step);
        proof {
            even_multiple(k as int, self.step as int);
        }
        (crate::geom::max_i64(side, low_side), crate::geom::max_i64(gap, low_gap))
    }
}

proof fn round_up_bounds(length: int, step: int)
    requires
        0 <= length <= WIDTH_LIMIT,
        0 < step <= 0x1_0000_0000,
        step % 4 == 0,
    ensures
        length <= round_up(length, step) < length + step,
        round_up(length, step) % 2 == 0,
{
    let q = (length + step - 1) / step;
    lemma_fundamental_div_mod(length + step - 1, step);
    assert(q * step == step * q) by (nonlinear_arith);
    even_multiple(q, step);
}

proof fn even_multiple(k: int, step: int)
    requires
        step % 4 == 0,
    ensures
        (k * step) % 2 == 0,
{
    let h = step / 2;
    assert(step == 2 * h);
    assert(k * step == 2 * (k * h)) by (nonlinear_arith)
        requires
            step == 2 * h,
    ;
}

proof fn scaled_fits(k: int, top: int, step: int)
    requires
        0 <= k <= top,
        0 < step,
        top * step <= 0x2_0000_0000,
    ensures
        0 <= k * step <= 0x2_0000_0000,
{
    assert(0 <= k * step <= top * step) by (nonlinear_arith)
        requires
            0 <= k <= top,
            step > 0,
    ;
}

proof fn top_fits(width: int, step: int)
    requires
        0 <= width <= WIDTH_LIMIT,
        0 < step <= 0x1_0000_0000,
    ensures
        0 <= width / step <= width,
        (width / step + 1) * step <= 0x2_0000_0000,
        (2 * (width / step + 1) - 1) * step <= 0x8_0000_0000,
{
    let q = width / step;
    lemma_fundamental_div_mod(width, step);
    assert(0 <= q) by (nonlinear_arith)
        requires
            q == width / step,
            width >= 0,
            step > 0,
    ;
    assert(q <= width) by (nonlinear_arith)
        requires
            step * q <= width,
            step >= 1,
            q >= 0,
    ;
    assert((q + 1) * step == step * q + step) by (nonlinear_arith);
    assert((2 * (q + 1) - 1) * step == 2 * (step * q) + step) by (nonlinear_arith);
}

proof fn products_fit(a: int, sum: int, coverage: int)
    requires
        0 <= a <= 0x8_0000_0000,
        0 <= sum <= 0x10_0000_0000,
        0 <= coverage <= ONE,
    ensures
        0 <= a * a <= 0x40_0000_0000_0000_0000,
        0 <= a * a * ONE <= 0x100_0000_0000 * 0x40_0000_0000_0000_0000,
        0 <= sum * sum <= 0x100_0000_0000_0000_0000,
        0 <= coverage * (sum * sum) <= 0x100_0000_0000 * 0x100_0000_0000_0000_0000,
{
    assert(0 <= a * a <= 0x40_0000_0000_0000_0000) by (nonlinear_arith)
        requires
            0 <= a <= 0x8_0000_0000,
    ;
    assert(0 <= sum * sum <= 0x100_0000_0000_0000_0000) by (nonlinear_arith)
        requires
            0 <= sum <= 0x10_0000_0000,
    ;
    let s2 = sum * sum;
    assert(0 <= coverage * s2 <= 0x100_0000_0000 * 0x100_0000_0000_0000_0000) by (nonlinear_arith)
        requires
            0 <= coverage <= 0x100_0000_0000,
            0 <= s2 <= 0x100_0000_0000_0000_0000,
    ;
}

/// At a fixed gap, smaller squares cover less.
proof fn smaller_covers_less(a: int, b: int, gap2: int, coverage: int)
    requires
        0 <= a <= b,
        0 < b,
        0 <= gap2,
        0 <= coverage,
        covers_at_most(b, gap2, coverage),
    ensures
        covers_at_most(a, gap2, coverage),
{
    let (p, q) = (a + gap2, b + gap2);
    assert(p * b >= q * a) by (nonlinear_arith)
        requires
            p == a + gap2,
            q == b + gap2,
            a <= b,
            gap2 >= 0,
    ;
    let (x, y) = (p * b, q * a);
    assert(y >= 0) by (nonlinear_arith)
        requires
            y == q * a,
            q >= 0,
            a >= 0,
    ;
    assert(x * x >= y * y) by (nonlinear_arith)
        requires
            x >= y >= 0,
    ;
    assert(x * x == (p * p) * (b * b)) by (nonlinear_arith)
        requires
            x == p * b,
    ;
    assert(y * y == (q * q) * (a * a)) by (nonlinear_arith)
        requires
            y == q * a,
    ;
    let (pp, qq, aa, bb) = (p * p, q * q, a * a, b * b);
    assert(aa >= 0 && bb > 0) by (nonlinear_arith)
        requires
            aa == a * a,
            bb == b * b,
            b > 0,
    ;
    // coverage * pp * bb >= coverage * qq * aa >= bb * ONE * aa
    let one = ONE as int;
    assert(coverage * (pp * bb) >= coverage * (qq * aa)) by (nonlinear_arith)
        requires
            pp * bb >= qq * aa,
            coverage >= 0,
    ;
    assert((coverage * qq) * aa >= (bb * one) * aa) by (nonlinear_arith)
        requires
            bb * one <= coverage * qq,
            aa >= 0,
    ;
    assert((coverage * pp) * bb >= (aa * one) * bb) by (nonlinear_arith)
        requires
            coverage * (pp * bb) >= coverage * (qq * aa),
            (coverage * qq) * aa >= (bb * one) * aa,
    ;
    assert(coverage * pp >= aa * one) by (nonlinear_arith)
        requires
            (coverage * pp) * bb >= (aa * one) * bb,
            bb > 0,
    ;
}

/// The smallest multiple of `step` that is at least `length`.
pub fn snap_up(length: i64, step: i64) -> (r: i64)
    requires
        0 <= length <= WIDTH_LIMIT,
        0 < step <= 0x1_0000_0000,
    ensures
        r == round_up(length as int, step as int),
        length <= r < length + step,
        step % 4 == 0 ==> r % 2 == 0,
{
    let q = (length + step - 1) / step;
    proof {
        lemma_fundamental_div_mod(length + step - 1, step as int);
        assert(q * step == step * q) by (nonlinear_arith);
        if step % 4 == 0 {
            even_multiple(q as int, step as int);
        }
    }
    q * step
}

} // verus!
