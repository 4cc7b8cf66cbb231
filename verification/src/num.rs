//! Integer arithmetic: rounding division and square roots.

use vstd::arithmetic::div_mod::lemma_fundamental_div_mod;
use vstd::arithmetic::div_mod::lemma_fundamental_div_mod_converse;
use vstd::prelude::*;

verus! {

/// floor(a / b) for positive `b`.
pub fn floor_div(a: i64, b: i64) -> (q: i64)
    requires
        b > 0,
    ensures
        q == a as int / b as int,
{
    if a >= 0 {
        a / b
    } else {
        let q: i64 = -((-(a + 1)) / b) - 1;
        proof {
            let m = -(a + 1);
            lemma_fundamental_div_mod(m as int, b as int);
            let (d, r) = (m as int / b as int, m as int % b as int);
            assert(a == b * (-d - 1) + (b - 1 - r)) by (nonlinear_arith)
                requires
                    m == b * d + r,
                    m == -(a + 1),
            ;
            lemma_fundamental_div_mod_converse(a as int, b as int, -d - 1, b - 1 - r);
        }
        q
    }
}

/// floor(a / b) for positive `b`.
pub fn floor_div_wide(a: i128, b: i128) -> (q: i128)
    requires
        b > 0,
    ensures
        q == a as int / b as int,
{
    if a >= 0 {
        a / b
    } else {
        let q: i128 = -((-(a + 1)) / b) - 1;
        proof {
            let m = -(a + 1);
            lemma_fundamental_div_mod(m as int, b as int);
            let (d, r) = (m as int / b as int, m as int % b as int);
            assert(a == b * (-d - 1) + (b - 1 - r)) by (nonlinear_arith)
                requires
                    m == b * d + r,
                    m == -(a + 1),
            ;
            lemma_fundamental_div_mod_converse(a as int, b as int, -d - 1, b - 1 - r);
        }
        q
    }
}

/// The square root of `n`, rounded down.
pub open spec fn isqrt(n: int) -> int
    decreases n,
{
    if n <= 0 {
        0
    } else {
        let r = isqrt(n - 1);
        if (r + 1) * (r + 1) <= n {
            r + 1
        } else {
            r
        }
    }
}

/// `isqrt` is the square root, rounded down.
pub proof fn isqrt_brackets(n: int)
    requires
        n >= 0,
    ensures
        isqrt(n) >= 0,
        isqrt(n) * isqrt(n) <= n < (isqrt(n) + 1) * (isqrt(n) + 1),
    decreases n,
{
    if n > 0 {
        isqrt_brackets(n - 1);
        let r = isqrt(n - 1);
        assert((r + 1 + 1) * (r + 1 + 1) > (r + 1) * (r + 1)) by (nonlinear_arith)
            requires
                r >= 0,
        ;
    }
}

/// Only one number is the square root of `n`, rounded down.
pub proof fn isqrt_is(n: int, r: int)
    requires
        r >= 0,
        r * r <= n < (r + 1) * (r + 1),
    ensures
        isqrt(n) == r,
{
    assert(n >= 0) by (nonlinear_arith)
        requires
            r * r <= n,
    ;
    isqrt_brackets(n);
    let q = isqrt(n);
    assert(q == r) by (nonlinear_arith)
        requires
            r >= 0,
            q >= 0,
            r * r <= n < (r + 1) * (r + 1),
            q * q <= n < (q + 1) * (q + 1),
    ;
}

/// The square root of `n`, rounded down, by bisection.
pub fn isqrt_of(n: i128) -> (r: i128)
    requires
        0 <= n <= 0x4000_0000_0000_0000_0000_0000_0000_0000,
    ensures
        r == isqrt(n as int),
        0 <= r <= 0x8000_0000_0000_0000,
{
    let mut lo: i128 = 0;
    let mut hi: i128 = 0x8000_0000_0000_0001;
    assert(0x8000_0000_0000_0001 * 0x8000_0000_0000_0001 > 0x4000_0000_0000_0000_0000_0000_0000_0000) by (nonlinear_arith);
    while lo + 1 < hi
        invariant
            0 <= n <= 0x4000_0000_0000_0000_0000_0000_0000_0000,
            0 <= lo < hi <= 0x8000_0000_0000_0001,
            lo * lo <= n,
            n < hi * hi,
        decreases hi - lo,
    {
        let mid: i128 = lo + (hi - lo) / 2;
        assert(0 <= mid * mid <= 0x4000_0000_0000_0000_0000_0000_0000_0000) by (nonlinear_arith)
            requires
                0 <= mid <= 0x8000_0000_0000_0000,
        ;
        if mid * mid <= n {
            lo = mid;
        } else {
            hi = mid;
        }
    }
    proof {
        isqrt_is(n as int, lo as int);
    }
    lo
}

/// The component `e` of a vector with squared length `m`, once the vector is
/// scaled to length `a`: `a * e / sqrt(m)`, rounded to the nearest integer.
pub open spec fn scaled(e: int, a: int, m: int) -> int {
    let k = (isqrt((2 * a * e) * (2 * a * e) / m) + 1) / 2;
    if e < 0 {
        -k
    } else {
        k
    }
}

/// A component of a vector scaled to length `a` is at most `a`; it is `a` if
/// the vector has no other component.
pub proof fn scaled_bounds(e: int, a: int, m: int)
    requires
        m > 0,
        a >= 0,
        e * e <= m,
    ensures
        -a <= scaled(e, a, m) <= a,
        e == 0 ==> scaled(e, a, m) == 0,
        e * e == m && e > 0 ==> scaled(e, a, m) == a,
        e * e == m && e < 0 ==> scaled(e, a, m) == -a,
{
    let x = (2 * a * e) * (2 * a * e);
    let c = 4 * (a * a);
    assert(x == c * (e * e)) by (nonlinear_arith)
        requires
            x == (2 * a * e) * (2 * a * e),
            c == 4 * (a * a),
    ;
    let ee = e * e;
    assert(c >= 0 && ee >= 0) by (nonlinear_arith)
        requires
            c == 4 * (a * a),
            ee == e * e,
    ;
    assert(0 <= c * ee / m <= c) by (nonlinear_arith)
        requires
            0 <= ee <= m,
            c >= 0,
            m > 0,
    ;
    let q = c * ee / m;
    isqrt_brackets(q);
    let r = isqrt(q);
    assert(r <= 2 * a) by (nonlinear_arith)
        requires
            r * r <= q,
            q <= 4 * (a * a),
            r >= 0,
            a >= 0,
    ;
    if ee == m {
        assert(c * ee / m == c) by (nonlinear_arith)
            requires
                ee == m,
                m > 0,
        ;
        assert((2 * a) * (2 * a) == c && c < (2 * a + 1) * (2 * a + 1)) by (nonlinear_arith)
            requires
                c == 4 * (a * a),
                a >= 0,
        ;
        isqrt_is(c, 2 * a);
    }
    if e == 0 {
        assert(c * ee == 0) by (nonlinear_arith)
            requires
                ee == 0,
        ;
        assert(0int / m == 0) by (nonlinear_arith)
            requires
                m > 0,
        ;
        isqrt_is(0, 0);
    }
}

/// `a * e / sqrt(m)`, rounded to the nearest integer.
pub fn scale_component(e: i64, a: i64, m: i128) -> (r: i64)
    requires
        0 <= a,
        -0x8000_0000_0000_0000 <= 2 * a * e <= 0x8000_0000_0000_0000,
        0 < m,
        e * e <= m,
    ensures
        r == scaled(e as int, a as int, m as int),
        -a <= r <= a,
{
    proof {
        scaled_bounds(e as int, a as int, m as int);
        assert(-0x1_0000_0000_0000_0000 <= a * e <= 0x1_0000_0000_0000_0000) by (nonlinear_arith)
            requires
                -0x8000_0000_0000_0000 <= 2 * a * e <= 0x8000_0000_0000_0000,
        ;
        assert(2 * a * e == 2 * (a * e)) by (nonlinear_arith);
    }
    let t: i128 = 2 * (a as i128 * e as i128);
    proof {
        assert(0 <= t * t <= 0x4000_0000_0000_0000_0000_0000_0000_0000) by (nonlinear_arith)
            requires
                -0x8000_0000_0000_0000 <= t <= 0x8000_0000_0000_0000,
        ;
        let tt = t * t;
        assert(0 <= tt / (m as int) <= tt) by (nonlinear_arith)
            requires
                tt >= 0,
                m >= 1,
        ;
    }
    let k: i128 = (isqrt_of(t * t / m) + 1) / 2;
    if e < 0 {
        -(k as i64)
    } else {
        k as i64
    }
}

} // verus!
