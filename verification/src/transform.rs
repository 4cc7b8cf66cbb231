//! Placement transforms.

use crate::geom::abs_of;
use crate::geom::Point;
use crate::layout::ArrayRef;
use crate::layout::Strans;
use crate::layout::StructRef;
use crate::num::floor_div_wide;
use crate::offset::nearest;
use vstd::arithmetic::div_mod::lemma_fundamental_div_mod;
use vstd::arithmetic::div_mod::lemma_fundamental_div_mod_converse;
use vstd::prelude::*;

verus! {

/// One, in the fixed-point numbers of transforms.
pub const FIX: i128 = 0x1_0000_0000;

/// Largest magnitude of a matrix entry, in units of 2^-32.
pub const MATRIX_LIMIT: i128 = 0x1_0000_0000_0000;

/// Largest magnitude of a translation, in units of 2^-32 database units.
pub const SHIFT_LIMIT: i128 = 0x100_0000_0000_0000_0000;

/// A linear map followed by a translation:
///
/// ```text
/// [x']   [a  b] [x]   [tx]
/// [y'] = [c  d] [y] + [ty]
/// ```
///
/// All numbers are in units of 2^-32.
#[derive(Clone, Copy, Debug)]
pub struct AffineTransform {
    pub a: i128,
    pub b: i128,
    pub c: i128,
    pub d: i128,
    pub tx: i128,
    pub ty: i128,
}

/// The numbers of a transform.
pub struct Affine {
    pub a: int,
    pub b: int,
    pub c: int,
    pub d: int,
    pub tx: int,
    pub ty: int,
}

impl View for AffineTransform {
    type V = Affine;

    open spec fn view(&self) -> Affine {
        Affine {
            a: self.a as int,
            b: self.b as int,
            c: self.c as int,
            d: self.d as int,
            tx: self.tx as int,
            ty: self.ty as int,
        }
    }
}

/// `|v| <= limit`
pub open spec fn within(v: int, limit: int) -> bool {
    -limit <= v <= limit
}

/// A product of two fixed-point numbers, rounded to one.
pub open spec fn rescale(v: int) -> int {
    (v + FIX / 2) / (FIX as int)
}

/// A fixed-point number of database units in layout units, rounded to the
/// nearest.
pub open spec fn units_from_fixed(v: int) -> int {
    (v + FIX / 4) / (FIX as int / 2)
}

impl Affine {
    /// The numbers are within the limits.
    pub open spec fn valid(self) -> bool {
        &&& within(self.a, MATRIX_LIMIT as int)
        &&& within(self.b, MATRIX_LIMIT as int)
        &&& within(self.c, MATRIX_LIMIT as int)
        &&& within(self.d, MATRIX_LIMIT as int)
        &&& within(self.tx, SHIFT_LIMIT as int)
        &&& within(self.ty, SHIFT_LIMIT as int)
    }

    /// The transform that changes nothing.
    pub open spec fn identity() -> Affine {
        Affine { a: FIX as int, b: 0, c: 0, d: FIX as int, tx: 0, ty: 0 }
    }

    /// Where a point in database units goes, as fixed-point numbers.
    pub open spec fn fixed(self, x: int, y: int) -> (int, int) {
        (self.a * x + self.b * y + self.tx, self.c * x + self.d * y + self.ty)
    }

    /// Where a point in database units goes, in layout units.
    pub open spec fn point(self, x: int, y: int) -> (int, int) {
        let p = self.fixed(x, y);
        (units_from_fixed(p.0), units_from_fixed(p.1))
    }

    /// This transform after `inner`.
    pub open spec fn after(self, inner: Affine) -> Affine {
        Affine {
            a: rescale(self.a * inner.a + self.b * inner.c),
            b: rescale(self.a * inner.b + self.b * inner.d),
            c: rescale(self.c * inner.a + self.d * inner.c),
            d: rescale(self.c * inner.b + self.d * inner.d),
            tx: rescale(self.a * inner.tx + self.b * inner.ty) + self.tx,
            ty: rescale(self.c * inner.tx + self.d * inner.ty) + self.ty,
        }
    }

    /// The transform of a placement: optional reflection about the x axis, then
    /// rotation and magnification, then translation.
    pub open spec fn placing(strans: Option<Strans>, tx: int, ty: int) -> Affine {
        match strans {
            None => Affine { a: FIX as int, b: 0, c: 0, d: FIX as int, tx, ty },
            Some(s) => if s.reflected {
                Affine { a: s.cos as int, b: s.sin as int, c: s.sin as int, d: -s.cos, tx, ty }
            } else {
                Affine { a: s.cos as int, b: -s.sin, c: s.sin as int, d: s.cos as int, tx, ty }
            },
        }
    }

    /// All matrix entries are whole numbers.
    pub open spec fn is_whole(self) -> bool {
        &&& self.a % (FIX as int) == 0
        &&& self.b % (FIX as int) == 0
        &&& self.c % (FIX as int) == 0
        &&& self.d % (FIX as int) == 0
    }
}

/// Is `|v| <= limit`?
fn check_within(v: i128, limit: i128) -> (b: bool)
    requires
        limit >= 0,
    ensures
        b == within(v as int, limit as int),
{
    -limit <= v && v <= limit
}

/// `a * p + b * q`
fn dot(a: i128, b: i128, p: i128, q: i128) -> (v: i128)
    requires
        within(a as int, MATRIX_LIMIT as int),
        within(b as int, MATRIX_LIMIT as int),
        within(p as int, SHIFT_LIMIT as int),
        within(q as int, SHIFT_LIMIT as int),
    ensures
        v == a * p + b * q,
        within(v as int, 0x200_0000_0000_0000_0000_0000_0000_0000),
{
    proof {
        product_fits(a as int, p as int);
        product_fits(b as int, q as int);
    }
    a * p + b * q
}

proof fn product_fits(a: int, p: int)
    requires
        within(a, MATRIX_LIMIT as int),
        within(p, SHIFT_LIMIT as int),
    ensures
        within(a * p, 0x100_0000_0000_0000_0000_0000_0000_0000),
{
    assert(-0x100_0000_0000_0000_0000_0000_0000_0000 <= a * p <= 0x100_0000_0000_0000_0000_0000_0000_0000)
        by (nonlinear_arith)
        requires
            -0x1_0000_0000_0000 <= a <= 0x1_0000_0000_0000,
            -0x100_0000_0000_0000_0000 <= p <= 0x100_0000_0000_0000_0000,
    ;
}

/// A product of two fixed-point numbers, rounded to one.
fn rescale_of(v: i128) -> (r: i128)
    requires
        within(v as int, 0x200_0000_0000_0000_0000_0000_0000_0000),
    ensures
        r == rescale(v as int),
        within(r as int, 0x200_0000_0000_0000_0000_0001),
{
    floor_div_wide(v + FIX / 2, FIX)
}

impl AffineTransform {
    /// The transform that changes nothing.
    pub fn identity() -> (t: AffineTransform)
        ensures
            t@ == Affine::identity(),
            t@.valid(),
    {
        AffineTransform { a: FIX, b: 0, c: 0, d: FIX, tx: 0, ty: 0 }
    }

    /// The transform of a placement at a translation in units of 2^-32.
    pub fn from_strans_xy(strans: &Option<Strans>, tx: i128, ty: i128) -> (t: AffineTransform)
        ensures
            t@ == Affine::placing(*strans, tx as int, ty as int),
    {
        match strans {
            None => AffineTransform { a: FIX, b: 0, c: 0, d: FIX, tx, ty },
            Some(s) => {
                let cos = s.cos as i128;
                let sin = s.sin as i128;
                if s.reflected {
                    AffineTransform { a: cos, b: sin, c: sin, d: -cos, tx, ty }
                } else {
                    AffineTransform { a: cos, b: -sin, c: sin, d: cos, tx, ty }
                }
            },
        }
    }

    /// The transform of a cell placement.
    pub fn from_sref(r: &StructRef) -> (t: AffineTransform)
        ensures
            t@ == Affine::placing(r.strans, r.xy.0 * FIX, r.xy.1 * FIX),
    {
        Self::from_strans_xy(&r.strans, r.xy.0 as i128 * FIX, r.xy.1 as i128 * FIX)
    }

    /// Are all numbers within the limits?
    pub fn check(&self) -> (b: bool)
        ensures
            b == self@.valid(),
    {
        check_within(self.a, MATRIX_LIMIT) && check_within(self.b, MATRIX_LIMIT) && check_within(self.c, MATRIX_LIMIT)
            && check_within(self.d, MATRIX_LIMIT) && check_within(self.tx, SHIFT_LIMIT) && check_within(
            self.ty,
            SHIFT_LIMIT,
        )
    }

    /// Where a point in database units goes, as fixed-point numbers.
    pub fn apply_fixed(&self, x: i32, y: i32) -> (p: (i128, i128))
        requires
            self@.valid(),
        ensures
            p.0 == self@.fixed(x as int, y as int).0,
            p.1 == self@.fixed(x as int, y as int).1,
            within(p.0 as int, 0x2_0000_0000_0000_0000_0000),
            within(p.1 as int, 0x2_0000_0000_0000_0000_0000),
    {
        let fx: i128 = dot(self.a, self.b, x as i128, y as i128);
        let fy: i128 = dot(self.c, self.d, x as i128, y as i128);
        proof {
            assert(within(fx as int, 0x1_0000_0000_0000_0000_0000)) by (nonlinear_arith)
                requires
                    fx == self.a * x + self.b * y,
                    -0x1_0000_0000_0000 <= self.a <= 0x1_0000_0000_0000,
                    -0x1_0000_0000_0000 <= self.b <= 0x1_0000_0000_0000,
                    -0x8000_0000 <= x <= 0x8000_0000,
                    -0x8000_0000 <= y <= 0x8000_0000,
            ;
            assert(within(fy as int, 0x1_0000_0000_0000_0000_0000)) by (nonlinear_arith)
                requires
                    fy == self.c * x + self.d * y,
                    -0x1_0000_0000_0000 <= self.c <= 0x1_0000_0000_0000,
                    -0x1_0000_0000_0000 <= self.d <= 0x1_0000_0000_0000,
                    -0x8000_0000 <= x <= 0x8000_0000,
                    -0x8000_0000 <= y <= 0x8000_0000,
            ;
        }
        (fx + self.tx, fy + self.ty)
    }

    /// Where a point in database units goes, in layout units.
    pub fn apply(&self, x: i32, y: i32) -> (p: Point)
        requires
            self@.valid(),
        ensures
            p.x == self@.point(x as int, y as int).0,
            p.y == self@.point(x as int, y as int).1,
    {
        let (fx, fy) = self.apply_fixed(x, y);
        let ux = floor_div_wide(fx + FIX / 4, FIX / 2);
        let uy = floor_div_wide(fy + FIX / 4, FIX / 2);
        Point { x: ux as i64, y: uy as i64 }
    }

    /// This transform after `inner`, `None` if it leaves the limits.
    pub fn compose(&self, inner: &AffineTransform) -> (t: Option<AffineTransform>)
        requires
            self@.valid(),
            inner@.valid(),
        ensures
            t is Some <==> self@.after(inner@).valid(),
            t matches Some(r) ==> r@ == self@.after(inner@),
    {
        let a = rescale_of(dot(self.a, self.b, inner.a, inner.c));
        let b = rescale_of(dot(self.a, self.b, inner.b, inner.d));
        let c = rescale_of(dot(self.c, self.d, inner.a, inner.c));
        let d = rescale_of(dot(self.c, self.d, inner.b, inner.d));
        let tx = rescale_of(dot(self.a, self.b, inner.tx, inner.ty)) + self.tx;
        let ty = rescale_of(dot(self.c, self.d, inner.tx, inner.ty)) + self.ty;
        let t = AffineTransform { a, b, c, d, tx, ty };
        if t.check() {
            Some(t)
        } else {
            None
        }
    }
}

proof fn rescale_whole(k: int)
    ensures
        rescale(k * FIX) == k,
        rescale(FIX * k) == k,
{
    assert(FIX * k == k * FIX) by (nonlinear_arith);
    lemma_fundamental_div_mod_converse(k * FIX + FIX / 2, FIX as int, k, FIX as int / 2);
}

/// Composing with the identity, on either side, changes nothing.
pub proof fn identity_is_neutral(t: Affine)
    ensures
        Affine::identity().after(t) == t,
        t.after(Affine::identity()) == t,
{
    rescale_whole(t.a);
    rescale_whole(t.b);
    rescale_whole(t.c);
    rescale_whole(t.d);
    rescale_whole(t.tx);
    rescale_whole(t.ty);
    rescale_whole(0);
    let i = Affine::identity();
    assert(forall|v: int| #[trigger] (i.b * v) == 0) by (nonlinear_arith)
        requires
            i.b == 0,
    ;
    assert(forall|v: int| #[trigger] (i.c * v) == 0) by (nonlinear_arith)
        requires
            i.c == 0,
    ;
    assert(forall|v: int| #[trigger] (v * i.b) == 0) by (nonlinear_arith)
        requires
            i.b == 0,
    ;
    assert(forall|v: int| #[trigger] (v * i.c) == 0) by (nonlinear_arith)
        requires
            i.c == 0,
    ;
    assert(forall|v: int| #[trigger] (v * i.tx) == 0) by (nonlinear_arith)
        requires
            i.tx == 0,
    ;
    assert(forall|v: int| #[trigger] (v * i.ty) == 0) by (nonlinear_arith)
        requires
            i.ty == 0,
    ;
}

/// An outer transform with whole entries, applied to fixed-point coordinates.
pub open spec fn apply_whole(outer: Affine, p: (int, int)) -> (int, int) {
    let f = FIX as int;
    (outer.a / f * p.0 + outer.b / f * p.1 + outer.tx, outer.c / f * p.0 + outer.d / f * p.1 + outer.ty)
}

proof fn row_composes(a: int, b: int, t: int, inner: Affine, x: int, y: int)
    requires
        a % (FIX as int) == 0,
        b % (FIX as int) == 0,
    ensures
        rescale(a * inner.a + b * inner.c) * x + rescale(a * inner.b + b * inner.d) * y + (rescale(
            a * inner.tx + b * inner.ty,
        ) + t) == a / (FIX as int) * inner.fixed(x, y).0 + b / (FIX as int) * inner.fixed(x, y).1 + t,
{
    let f = FIX as int;
    let (ka, kb) = (a / f, b / f);
    lemma_fundamental_div_mod(a, f);
    lemma_fundamental_div_mod(b, f);
    assert(a * inner.a + b * inner.c == (ka * inner.a + kb * inner.c) * f) by (nonlinear_arith)
        requires
            a == f * ka,
            b == f * kb,
    ;
    assert(a * inner.b + b * inner.d == (ka * inner.b + kb * inner.d) * f) by (nonlinear_arith)
        requires
            a == f * ka,
            b == f * kb,
    ;
    assert(a * inner.tx + b * inner.ty == (ka * inner.tx + kb * inner.ty) * f) by (nonlinear_arith)
        requires
            a == f * ka,
            b == f * kb,
    ;
    rescale_whole(ka * inner.a + kb * inner.c);
    rescale_whole(ka * inner.b + kb * inner.d);
    rescale_whole(ka * inner.tx + kb * inner.ty);
    assert((ka * inner.a + kb * inner.c) * x == ka * (inner.a * x) + kb * (inner.c * x)) by (nonlinear_arith);
    assert((ka * inner.b + kb * inner.d) * y == ka * (inner.b * y) + kb * (inner.d * y)) by (nonlinear_arith);
    let (p, q) = (inner.a * x, inner.b * y);
    assert(ka * (p + q + inner.tx) == ka * p + ka * q + ka * inner.tx) by (nonlinear_arith);
    let (r, t2) = (inner.c * x, inner.d * y);
    assert(kb * (r + t2 + inner.ty) == kb * r + kb * t2 + kb * inner.ty) by (nonlinear_arith);
}

/// Composition is application after application: for an outer transform with
/// whole entries (reflections and quarter turns), the composed transform takes
/// every point exactly where the outer one takes the image under the inner one.
pub proof fn composition_is_application(outer: Affine, inner: Affine, x: int, y: int)
    requires
        outer.is_whole(),
    ensures
        outer.after(inner).fixed(x, y) == apply_whole(outer, inner.fixed(x, y)),
{
    row_composes(outer.a, outer.b, outer.tx, inner, x, y);
    row_composes(outer.c, outer.d, outer.ty, inner, x, y);
}

/// A point in database units under the identity: twice as many layout units.
pub proof fn identity_keeps_points(x: int, y: int)
    ensures
        Affine::identity().point(x, y) == (2 * x, 2 * y),
{
    let h = FIX as int / 2;
    let i = Affine::identity();
    assert(i.a * x == x * FIX && i.b * y == 0 && i.c * x == 0 && i.d * y == y * FIX) by (nonlinear_arith)
        requires
            i.a == FIX,
            i.b == 0,
            i.c == 0,
            i.d == FIX,
    ;
    assert(2 * x * h == x * FIX && 2 * y * h == y * FIX) by (nonlinear_arith)
        requires
            2 * h == FIX,
    ;
    lemma_fundamental_div_mod_converse(x * FIX + FIX / 4, h, 2 * x, FIX as int / 4);
    lemma_fundamental_div_mod_converse(y * FIX + FIX / 4, h, 2 * y, FIX as int / 4);
}

/// How far instance `i` of `count` lies from the first one, between `origin`
/// and `end`, as a fixed-point number.
pub open spec fn array_shift(i: int, origin: int, end: int, count: int) -> int {
    nearest(i * (end - origin) * FIX, count)
}

/// The transform of the array instance in the given column and row.
pub open spec fn instance(a: ArrayRef, parent: Affine, col: int, row: int) -> Affine {
    parent.after(instance_placing(a, col, row))
}

/// The placement of the array instance in the given column and row.
pub open spec fn instance_placing(a: ArrayRef, col: int, row: int) -> Affine {
    let tx = a.origin.0 * FIX + array_shift(col, a.origin.0 as int, a.col_end.0 as int, a.cols as int) + array_shift(
        row,
        a.origin.0 as int,
        a.row_end.0 as int,
        a.rows as int,
    );
    let ty = a.origin.1 * FIX + array_shift(col, a.origin.1 as int, a.col_end.1 as int, a.cols as int) + array_shift(
        row,
        a.origin.1 as int,
        a.row_end.1 as int,
        a.rows as int,
    );
    Affine::placing(a.strans, tx, ty)
}

/// The number of instances of an array.
pub open spec fn instance_count(a: ArrayRef) -> int {
    if a.cols <= 0 || a.rows <= 0 {
        0
    } else {
        a.cols * a.rows
    }
}

/// Instance number `i`, column by column.
pub open spec fn nth_instance(a: ArrayRef, parent: Affine, i: int) -> Affine {
    instance(a, parent, i / (a.rows as int), i % (a.rows as int))
}

/// Placement number `i`, column by column.
pub open spec fn nth_placing(a: ArrayRef, i: int) -> Affine {
    instance_placing(a, i / (a.rows as int), i % (a.rows as int))
}

/// Placements and their transforms are within the limits.
pub open spec fn instances_valid(a: ArrayRef, parent: Affine) -> bool {
    forall|i: int|
        0 <= i < instance_count(a) ==> (#[trigger] nth_placing(a, i)).valid() && nth_instance(a, parent, i).valid()
}

fn shift_of(i: i64, origin: i32, end: i32, count: i64) -> (s: i128)
    requires
        0 <= i < count <= 0x8000,
    ensures
        s == array_shift(i as int, origin as int, end as int, count as int),
        within(s as int, 0x1_0000_0000_0000_0000_0000),
{
    let step: i64 = end as i64 - origin as i64;
    proof {
        assert(within(i * step, 0x1_0000_0000_0000)) by (nonlinear_arith)
            requires
                0 <= i <= 0x8000,
                -0x1_0000_0000 <= step <= 0x1_0000_0000,
        ;
    }
    let n: i128 = i as i128 * step as i128 * FIX;
    proof {
        let (c, m) = (count as int, n as int);
        assert(i * (end - origin) * FIX == n);
        lemma_fundamental_div_mod(2 * m + c, 2 * c);
        let (q, r) = ((2 * m + c) / (2 * c), (2 * m + c) % (2 * c));
        assert(-0x1_0000_0000_0000_0000_0000 <= q <= 0x1_0000_0000_0000_0000_0000) by (nonlinear_arith)
            requires
                2 * m + c == (2 * c) * q + r,
                0 <= r < 2 * c,
                1 <= c <= 0x8000,
                -0x1_0000_0000_0000_0000_0000 <= m <= 0x1_0000_0000_0000_0000_0000,
        ;
    }
    floor_div_wide(2 * n + count as i128, 2 * count as i128)
}

/// The transforms of all instances of an array, column by column, `None` if
/// one leaves the limits.
pub fn aref_instance_transforms(a: &ArrayRef, parent: &AffineTransform) -> (out: Option<Vec<AffineTransform>>)
    requires
        parent@.valid(),
    ensures
        out is Some <==> instances_valid(*a, parent@),
        out matches Some(v) ==> v@.len() == instance_count(*a) && forall|i: int|
            0 <= i < v@.len() ==> (#[trigger] v@[i])@ == nth_instance(*a, parent@, i) && v@[i]@.valid(),
{
    let mut out: Vec<AffineTransform> = Vec::new();
    if a.cols <= 0 || a.rows <= 0 {
        return Some(out);
    }
    let cols = a.cols as i64;
    let rows = a.rows as i64;
    let ghost total = instance_count(*a);
    let mut col: i64 = 0;
    while col < cols
        invariant
            parent@.valid(),
            cols == a.cols,
            rows == a.rows,
            0 < cols <= 0x8000,
            0 < rows <= 0x8000,
            total == instance_count(*a),
            0 <= col <= cols,
            out@.len() == col * rows,
            forall|i: int|
                0 <= i < out@.len() ==> (#[trigger] out@[i])@ == nth_instance(*a, parent@, i) && out@[i]@.valid()
                    && nth_placing(*a, i).valid(),
        decreases cols - col,
    {
        let mut row: i64 = 0;
        while row < rows
            invariant
                parent@.valid(),
                cols == a.cols,
                rows == a.rows,
                0 < cols <= 0x8000,
                0 < rows <= 0x8000,
                total == instance_count(*a),
                0 <= col < cols,
                0 <= row <= rows,
                out@.len() == col * rows + row,
                forall|i: int|
                    0 <= i < out@.len() ==> (#[trigger] out@[i])@ == nth_instance(*a, parent@, i) && out@[i]@.valid()
                        && nth_placing(*a, i).valid(),
            decreases rows - row,
        {
            let ghost k = col * rows + row;
            proof {
                assert(0 <= k < total) by (nonlinear_arith)
                    requires
                        k == col * rows + row,
                        total == cols * rows,
                        0 <= col < cols,
                        0 <= row < rows,
                ;
                lemma_fundamental_div_mod_converse(k, rows as int, col as int, row as int);
            }
            let tx = a.origin.0 as i128 * FIX + shift_of(col, a.origin.0, a.col_end.0, cols) + shift_of(
                row,
                a.origin.0,
                a.row_end.0,
                rows,
            );
            let ty = a.origin.1 as i128 * FIX + shift_of(col, a.origin.1, a.col_end.1, cols) + shift_of(
                row,
                a.origin.1,
                a.row_end.1,
                rows,
            );
            let placing = AffineTransform::from_strans_xy(&a.strans, tx, ty);
            assert(placing@ == nth_placing(*a, k));
            if !placing.check() {
                return None;
            }
            match parent.compose(&placing) {
                Some(t) => {
                    out.push(t);
                },
                None => {
                    assert(!nth_instance(*a, parent@, k).valid());
                    return None;
                },
            }
            row = row + 1;
        }
        assert((col + 1) * rows == col * rows + rows) by (nonlinear_arith);
        col = col + 1;
    }
    proof {
        assert forall|i: int| 0 <= i < instance_count(*a) implies (#[trigger] nth_placing(*a, i)).valid()
            && nth_instance(*a, parent@, i).valid() by {
            assert(out@[i]@ == nth_instance(*a, parent@, i));
        }
    }
    Some(out)
}

impl Affine {
    /// Where the point `(u, v)`, in units of 2^-32, goes, in units of 2^-64.
    pub open spec fn carry(self, u: int, v: int) -> (int, int) {
        (self.a * u + self.b * v + FIX * self.tx, self.c * u + self.d * v + FIX * self.ty)
    }
}

/// A rescaled number is within half a unit of what it stands for.
proof fn rescale_is_near(v: int)
    ensures
        -FIX <= 2 * (FIX * rescale(v) - v) <= FIX,
{
    lemma_fundamental_div_mod(v + FIX / 2, FIX as int);
}

proof fn row_is_near(a: int, b: int, inner: Affine, shift: int, x: int, y: int)
    ensures
        ({
            let (u, v) = inner.fixed(x, y);
            let row = rescale(a * inner.a + b * inner.c) * x + rescale(a * inner.b + b * inner.d) * y + (rescale(
                a * inner.tx + b * inner.ty,
            ) + shift);
            let bound = FIX * (abs_of(x) + abs_of(y) + 1);
            -bound <= 2 * (FIX * row - (a * u + b * v + FIX * shift)) <= bound
        }),
{
    let (p, q, r) = (a * inner.a + b * inner.c, a * inner.b + b * inner.d, a * inner.tx + b * inner.ty);
    rescale_is_near(p);
    rescale_is_near(q);
    rescale_is_near(r);
    let (d, e, f) = (FIX * rescale(p) - p, FIX * rescale(q) - q, FIX * rescale(r) - r);
    let g = FIX as int;
    let (u, v) = inner.fixed(x, y);
    let (ax, bx, cx, dx) = (inner.a * x, inner.b * y, inner.c * x, inner.d * y);
    assert(a * u == a * ax + a * bx + a * inner.tx && b * v == b * cx + b * dx + b * inner.ty) by (nonlinear_arith)
        requires
            u == ax + bx + inner.tx,
            v == cx + dx + inner.ty,
    ;
    assert(p * x == a * ax + b * cx) by (nonlinear_arith)
        requires
            p == a * inner.a + b * inner.c,
            ax == inner.a * x,
            cx == inner.c * x,
    ;
    assert(q * y == a * bx + b * dx) by (nonlinear_arith)
        requires
            q == a * inner.b + b * inner.d,
            bx == inner.b * y,
            dx == inner.d * y,
    ;
    assert(a * u + b * v == p * x + q * y + r);
    let row = rescale(p) * x + rescale(q) * y + (rescale(r) + shift);
    assert(g * row == (p + d) * x + (q + e) * y + (r + f) + g * shift) by (nonlinear_arith)
        requires
            row == rescale(p) * x + rescale(q) * y + (rescale(r) + shift),
            g * rescale(p) == p + d,
            g * rescale(q) == q + e,
            g * rescale(r) == r + f,
    ;
    assert((p + d) * x == p * x + d * x && (q + e) * y == q * y + e * y) by (nonlinear_arith);
    let (m, n) = (abs_of(x), abs_of(y));
    assert(-(g * m) <= 2 * (d * x) <= g * m) by (nonlinear_arith)
        requires
            -g <= 2 * d <= g,
            m == abs_of(x),
    ;
    assert(-(g * n) <= 2 * (e * y) <= g * n) by (nonlinear_arith)
        requires
            -g <= 2 * e <= g,
            n == abs_of(y),
    ;
    assert(g * (m + n + 1) == g * m + g * n + g) by (nonlinear_arith);
}

/// Applying a composed transform is applying one transform after the other, up
/// to `(|x| + |y| + 1) / 2` units of 2^-32 for the point `(x, y)`.
pub proof fn composition_is_near(outer: Affine, inner: Affine, x: int, y: int)
    ensures
        ({
            let (u, v) = inner.fixed(x, y);
            let (p, q) = outer.after(inner).fixed(x, y);
            let bound = FIX * (abs_of(x) + abs_of(y) + 1);
            &&& -bound <= 2 * (FIX * p - outer.carry(u, v).0) <= bound
            &&& -bound <= 2 * (FIX * q - outer.carry(u, v).1) <= bound
        }),
{
    row_is_near(outer.a, outer.b, inner, outer.tx, x, y);
    row_is_near(outer.c, outer.d, inner, outer.ty, x, y);
}

} // verus!
