//! Where placements and arrays of cells take a point.

use crate::geom::abs_of;
use crate::layout::ArrayRef;
use crate::layout::Strans;
use crate::transform::array_shift;
use crate::transform::instance_count;
use crate::transform::instance_placing;
use crate::transform::nth_placing;
use crate::transform::units_from_fixed;
use crate::transform::Affine;
use vstd::arithmetic::div_mod::lemma_fundamental_div_mod;
use vstd::arithmetic::div_mod::lemma_fundamental_div_mod_converse;
use vstd::prelude::*;

verus! {

/// A placement reflects first, about the x axis, then turns and magnifies, then
/// moves.
pub proof fn placement_reflects_turns_and_moves(s: Strans, tx: int, ty: int, x: int, y: int)
    ensures
        ({
            let v = if s.reflected {
                -y
            } else {
                y
            };
            Affine::placing(Some(s), tx, ty).fixed(x, y) == (s.cos * x - s.sin * v + tx, s.sin * x + s.cos * v + ty)
        }),
        Affine::placing(None, tx, ty).fixed(x, y) == (0x1_0000_0000 * x + tx, 0x1_0000_0000 * y + ty),
{
    let (c, n) = (s.cos as int, s.sin as int);
    assert(-(n * (-y)) == n * y && c * (-y) == -(c * y)) by (nonlinear_arith);
    assert((-n) * y == -(n * y) && (-c) * y == -(c * y)) by (nonlinear_arith);
    assert(0 * y == 0 && 0 * x == 0) by (nonlinear_arith);
}

/// A placement that does not magnify keeps distances, and one that magnifies
/// multiplies all of them alike.
pub proof fn placement_keeps_shapes(s: Strans, tx: int, ty: int, x: int, y: int, u: int, v: int)
    ensures
        ({
            let t = Affine::placing(Some(s), tx, ty);
            let (p, q) = (t.fixed(x, y), t.fixed(u, v));
            let (dx, dy) = (p.0 - q.0, p.1 - q.1);
            dx * dx + dy * dy == (s.cos * s.cos + s.sin * s.sin) * ((x - u) * (x - u) + (y - v) * (y - v))
        }),
{
    placement_reflects_turns_and_moves(s, tx, ty, x, y);
    placement_reflects_turns_and_moves(s, tx, ty, u, v);
    let (c, n) = (s.cos as int, s.sin as int);
    let t = Affine::placing(Some(s), tx, ty);
    let (p, q) = (t.fixed(x, y), t.fixed(u, v));
    let (a, b) = (
        x - u,
        if s.reflected {
            -(y - v)
        } else {
            y - v
        },
    );
    let (dx, dy) = (p.0 - q.0, p.1 - q.1);
    assert(c * x - c * u == c * a && n * x - n * u == n * a) by (nonlinear_arith)
        requires
            a == x - u,
    ;
    assert(n * (-y) - n * (-v) == n * (-(y - v)) && c * (-y) - c * (-v) == c * (-(y - v))) by (nonlinear_arith);
    assert(n * y - n * v == n * (y - v) && c * y - c * v == c * (y - v)) by (nonlinear_arith);
    assert(dx == c * a - n * b && dy == n * a + c * b);
    let (e, f, g, h) = (c * a, n * b, n * a, c * b);
    let (cc, nn, aa, bb) = (c * c, n * n, a * a, b * b);
    assert((e - f) * (e - f) == e * e - 2 * (e * f) + f * f) by (nonlinear_arith);
    assert((g + h) * (g + h) == g * g + 2 * (g * h) + h * h) by (nonlinear_arith);
    assert((c * a) * (n * b) == (n * a) * (c * b)) by (nonlinear_arith);
    assert((c * a) * (c * a) == (c * c) * (a * a)) by (nonlinear_arith);
    assert((n * b) * (n * b) == (n * n) * (b * b)) by (nonlinear_arith);
    assert((n * a) * (n * a) == (n * n) * (a * a)) by (nonlinear_arith);
    assert((c * b) * (c * b) == (c * c) * (b * b)) by (nonlinear_arith);
    assert((cc + nn) * (aa + bb) == cc * aa + cc * bb + nn * aa + nn * bb) by (nonlinear_arith);
    assert(dx * dx + dy * dy == (cc + nn) * (aa + bb));
    assert(b * b == (y - v) * (y - v)) by (nonlinear_arith)
        requires
            b == y - v || b == -(y - v),
    ;
}

/// A point is put on the nearest layout unit, of which two make a database unit.
pub proof fn points_are_nearest(t: Affine, x: int, y: int)
    ensures
        2 * abs_of(0x8000_0000 * t.point(x, y).0 - t.fixed(x, y).0) <= 0x8000_0000,
        2 * abs_of(0x8000_0000 * t.point(x, y).1 - t.fixed(x, y).1) <= 0x8000_0000,
{
    let p = t.fixed(x, y);
    lemma_fundamental_div_mod(p.0 + 0x4000_0000, 0x8000_0000);
    lemma_fundamental_div_mod(p.1 + 0x4000_0000, 0x8000_0000);
    assert(units_from_fixed(p.0) == (p.0 + 0x4000_0000) / 0x8000_0000);
}

/// The instance of an array in its first column and row is at its origin.
pub proof fn array_starts_at_its_origin(a: ArrayRef)
    requires
        a.cols > 0,
        a.rows > 0,
    ensures
        instance_placing(a, 0, 0) == Affine::placing(a.strans, a.origin.0 * 0x1_0000_0000, a.origin.1 * 0x1_0000_0000),
{
    no_shift(a.origin.0 as int, a.col_end.0 as int, a.cols as int);
    no_shift(a.origin.1 as int, a.col_end.1 as int, a.cols as int);
    no_shift(a.origin.0 as int, a.row_end.0 as int, a.rows as int);
    no_shift(a.origin.1 as int, a.row_end.1 as int, a.rows as int);
}

proof fn no_shift(origin: int, end: int, count: int)
    requires
        count > 0,
    ensures
        array_shift(0, origin, end, count) == 0,
{
    assert(0 * (end - origin) * 0x1_0000_0000 == 0) by (nonlinear_arith);
    lemma_fundamental_div_mod_converse(count, 2 * count, 0, count);
}

proof fn shift_is_even(i: int, origin: int, end: int, count: int)
    requires
        count > 0,
    ensures
        2 * abs_of(count * array_shift(i, origin, end, count) - i * (end - origin) * 0x1_0000_0000) <= count,
{
    let n = i * (end - origin) * 0x1_0000_0000;
    let q = array_shift(i, origin, end, count);
    lemma_fundamental_div_mod(2 * n + count, 2 * count);
    assert((2 * count) * q == 2 * (count * q)) by (nonlinear_arith);
}

/// The instances of an array stand evenly between its origin and its ends: column
/// `col` of `cols` is, to half a unit of 2^-32, that part of the way from the
/// origin to the column end, and likewise for the rows.
pub proof fn instances_are_evenly_spaced(a: ArrayRef, col: int, row: int)
    requires
        a.cols > 0,
        a.rows > 0,
    ensures
        ({
            let p = instance_placing(a, col, 0);
            let (x, y) = (p.tx - a.origin.0 * 0x1_0000_0000, p.ty - a.origin.1 * 0x1_0000_0000);
            &&& 2 * abs_of(a.cols * x - col * (a.col_end.0 - a.origin.0) * 0x1_0000_0000) <= a.cols
            &&& 2 * abs_of(a.cols * y - col * (a.col_end.1 - a.origin.1) * 0x1_0000_0000) <= a.cols
        }),
        ({
            let p = instance_placing(a, 0, row);
            let (x, y) = (p.tx - a.origin.0 * 0x1_0000_0000, p.ty - a.origin.1 * 0x1_0000_0000);
            &&& 2 * abs_of(a.rows * x - row * (a.row_end.0 - a.origin.0) * 0x1_0000_0000) <= a.rows
            &&& 2 * abs_of(a.rows * y - row * (a.row_end.1 - a.origin.1) * 0x1_0000_0000) <= a.rows
        }),
{
    no_shift(a.origin.0 as int, a.col_end.0 as int, a.cols as int);
    no_shift(a.origin.1 as int, a.col_end.1 as int, a.cols as int);
    no_shift(a.origin.0 as int, a.row_end.0 as int, a.rows as int);
    no_shift(a.origin.1 as int, a.row_end.1 as int, a.rows as int);
    shift_is_even(col, a.origin.0 as int, a.col_end.0 as int, a.cols as int);
    shift_is_even(col, a.origin.1 as int, a.col_end.1 as int, a.cols as int);
    shift_is_even(row, a.origin.0 as int, a.row_end.0 as int, a.rows as int);
    shift_is_even(row, a.origin.1 as int, a.row_end.1 as int, a.rows as int);
}

/// An instance is moved by its column and by its row, and turned as the array is.
pub proof fn columns_and_rows_add_up(a: ArrayRef, col: int, row: int)
    requires
        a.cols > 0,
        a.rows > 0,
    ensures
        ({
            let (p, c, r, o) = (
                instance_placing(a, col, row),
                instance_placing(a, col, 0),
                instance_placing(a, 0, row),
                instance_placing(a, 0, 0),
            );
            &&& p.tx - o.tx == (c.tx - o.tx) + (r.tx - o.tx)
            &&& p.ty - o.ty == (c.ty - o.ty) + (r.ty - o.ty)
            &&& p == Affine::placing(a.strans, p.tx, p.ty)
        }),
{
    array_starts_at_its_origin(a);
    no_shift(a.origin.0 as int, a.col_end.0 as int, a.cols as int);
    no_shift(a.origin.1 as int, a.col_end.1 as int, a.cols as int);
    no_shift(a.origin.0 as int, a.row_end.0 as int, a.rows as int);
    no_shift(a.origin.1 as int, a.row_end.1 as int, a.rows as int);
}

/// Every column and row of an array has its one instance.
pub proof fn every_instance_is_placed(a: ArrayRef, col: int, row: int)
    requires
        0 <= col < a.cols,
        0 <= row < a.rows,
    ensures
        instance_count(a) == a.cols * a.rows,
        0 <= col * a.rows + row < instance_count(a),
        nth_placing(a, col * a.rows + row) == instance_placing(a, col, row),
{
    let (cols, rows) = (a.cols as int, a.rows as int);
    let i = col * rows + row;
    assert(0 <= i < cols * rows) by (nonlinear_arith)
        requires
            i == col * rows + row,
            0 <= row < rows,
            0 <= col < cols,
    ;
    lemma_fundamental_div_mod_converse(i, rows, col, row);
}

} // verus!
