//! What the search for a square fill finds.

use crate::fill::amounts::is_met;
use crate::fill::amounts::lacks_fill;
use crate::fill::amounts::shortfall;
use crate::fill::amounts::units_are_nearest;
use crate::fill::fill_area;
use crate::fill::lattice::generated_fill;
use crate::fill::lattice::on_node;
use crate::fill::lattice::placed_for;
use crate::fill::lattice::placed_squares;
use crate::fill::lattice::Lattice;
use crate::fill::square::clamp_coverage;
use crate::fill::square::search_is_valid;
use crate::fill::square::ATTEMPTS;
use crate::fill::square::SquareSearch;
use crate::fill::TileCtx;
use crate::geom::abs_of;
use crate::geom::Rect;
use crate::pdk::offset_units_of;
use crate::pdk::units_of;
use crate::pdk::SquareParams;
use crate::touch::is_blocked;
use crate::touch::KeepoutShape;
use vstd::arithmetic::div_mod::lemma_fundamental_div_mod;
use vstd::prelude::*;

verus! {

/// `q` is the quotient of `n` by `m`, rounded down.
pub open spec fn is_share(q: int, n: int, m: int) -> bool {
    q * m <= n < (q + 1) * m
}

proof fn share_is_quotient(q: int, n: int, m: int)
    requires
        m > 0,
        is_share(q, n, m),
    ensures
        n / m == q,
{
    let p = n / m;
    lemma_fundamental_div_mod(n, m);
    assert(p == q) by (nonlinear_arith)
        requires
            m > 0,
            q * m <= n < (q + 1) * m,
            m * p <= n < m * p + m,
    ;
}

/// The coverage, in parts of a million million, that a tile lacks.
pub open spec fn is_missing_share(ctx: TileCtx, c: int) -> bool {
    is_share(c, 10_000 * shortfall(ctx, 0), ctx.tile_area as int)
}

/// The coverage of the widest squares with the narrowest gaps.
pub open spec fn is_densest_share(sq: SquareParams, ctx: TileCtx, d: int) -> bool {
    let w = units_of(sq.max_width as int, ctx.db_unit_nm as int);
    let p = w + units_of(sq.min_space as int, ctx.db_unit_nm as int);
    p > 0 && is_share(d, w * w * 1_000_000_000_000, p * p)
}

/// The two contexts differ at most in how what is missing splits into target and
/// running area.
pub open spec fn lack_the_same(a: TileCtx, b: TileCtx) -> bool {
    &&& shortfall(a, 0) == shortfall(b, 0)
    &&& a.deviation == b.deviation
    &&& a.tile_area == b.tile_area
    &&& a.db_unit_nm == b.db_unit_nm
    &&& a.grid_dbu == b.grid_dbu
    &&& a.chip_corner == b.chip_corner
}

proof fn same_search(
    a: SquareSearch,
    b: SquareSearch,
    keepouts: Seq<KeepoutShape>,
    i: int,
    lo: int,
    hi: int,
    best: Option<Seq<Rect>>,
)
    requires
        a.tile == b.tile,
        a.anchor == b.anchor,
        a.sizing == b.sizing,
        a.clipping == b.clipping,
        lack_the_same(a.ctx, b.ctx),
    ensures
        a.best_from(keepouts, i, lo, hi, best) == b.best_from(keepouts, i, lo, hi, best),
    decreases ATTEMPTS - i,
{
    if i < ATTEMPTS {
        let coverage = if i == 0 {
            a.first_coverage()
        } else {
            (lo + hi) / 2
        };
        assert(a.ctx.need() == b.ctx.need());
        assert(a.first_coverage() == b.first_coverage());
        let rects = a.attempt(keepouts, coverage);
        assert(rects == b.attempt(keepouts, coverage));
        let better = match best {
            Some(r) => if a.miss(rects) < a.miss(r) {
                Some(rects)
            } else {
                best
            },
            None => Some(rects),
        };
        same_search(a, b, keepouts, i + 1, coverage, hi, better);
        same_search(a, b, keepouts, i + 1, lo, coverage, better);
    }
}

/// The fill answers to what is missing: two tiles that lack the same are filled
/// the same, however target and running area split.
pub proof fn fill_answers_to_what_is_missing(
    tile: Rect,
    sq: SquareParams,
    a: TileCtx,
    b: TileCtx,
    keepouts: Seq<KeepoutShape>,
)
    requires
        lack_the_same(a, b),
    ensures
        SquareSearch::of(tile, sq, a).result(keepouts) == SquareSearch::of(tile, sq, b).result(keepouts),
{
    let (p, q) = (SquareSearch::of(tile, sq, a), SquareSearch::of(tile, sq, b));
    assert(p.sizing == q.sizing);
    assert(p.edge_bands() == q.edge_bands());
    same_search(p, q, keepouts + p.edge_bands(), 0, p.first_coverage(), p.densest_coverage(), None);
}

impl SquareSearch {
    /// What an attempt at a coverage places, along with the bands at the edges.
    pub open spec fn attempt_at(self, keepouts: Seq<KeepoutShape>, coverage: int) -> Seq<Rect> {
        self.attempt(keepouts + self.edge_bands(), coverage)
    }

    /// How far the density with these squares is from the target.
    pub open spec fn off(self, rects: Seq<Rect>) -> int {
        abs_of(shortfall(self.ctx, fill_area(rects)))
    }

    /// The squares leave the tile more than half the deviation below the target.
    pub open spec fn is_sparse(self, rects: Seq<Rect>) -> bool {
        2 * shortfall(self.ctx, fill_area(rects)) > self.ctx.deviation * self.ctx.tile_area
    }

    /// The squares bring the tile more than half the deviation above the target.
    pub open spec fn is_dense(self, rects: Seq<Rect>) -> bool {
        -2 * shortfall(self.ctx, fill_area(rects)) > self.ctx.deviation * self.ctx.tile_area
    }

    /// The squares are no further from the target than those of an attempt at
    /// `lo`, which is the first or too sparse, nor than those of an attempt at
    /// `hi`, which is too dense, unless `hi` is the densest one.
    pub open spec fn is_between(
        self,
        keepouts: Seq<KeepoutShape>,
        rects: Seq<Rect>,
        first: int,
        densest: int,
        lo: int,
        hi: int,
    ) -> bool {
        &&& lo == first || self.is_sparse(self.attempt(keepouts, lo))
        &&& self.off(rects) <= self.off(self.attempt(keepouts, lo))
        &&& hi == densest || self.is_dense(self.attempt(keepouts, hi)) && self.off(rects) <= self.off(
            self.attempt(keepouts, hi),
        )
    }

    /// How many times the attempts from number `i` on can divide the coverages.
    spec fn parts_from(i: int) -> int
        decreases ATTEMPTS - i,
    {
        if i >= ATTEMPTS {
            1
        } else {
            2 * Self::parts_from(i + 1)
        }
    }

    proof fn terms_agree(self, rects: Seq<Rect>)
        ensures
            self.off(rects) == self.miss(rects),
            self.is_sparse(rects) == self.too_sparse(rects),
            self.is_dense(rects) == self.too_dense(rects),
            is_met(self.ctx, fill_area(rects)) == (!self.too_sparse(rects) && !self.too_dense(rects)),
    {
    }

    proof fn search_closes_in(
        self,
        keepouts: Seq<KeepoutShape>,
        i: int,
        first: int,
        densest: int,
        lo: int,
        hi: int,
        best: Seq<Rect>,
    )
        requires
            1 <= i <= ATTEMPTS,
            self.is_between(keepouts, best, first, densest, lo, hi),
        ensures
            self.best_from(keepouts, i, lo, hi, Some(best)) is Some,
            ({
                let out = self.best_from(keepouts, i, lo, hi, Some(best))->0;
                let n = Self::parts_from(i);
                &&& self.off(out) <= self.off(best)
                &&& is_met(self.ctx, fill_area(out)) || exists|l: int, h: int|
                    #[trigger] self.is_between(keepouts, out, first, densest, l, h) && n * abs_of(h - l) <= abs_of(
                        hi - lo,
                    ) + n - 1
            }),
        decreases ATTEMPTS - i,
    {
        let n = Self::parts_from(i);
        if i < ATTEMPTS {
            let c = (lo + hi) / 2;
            let rects = self.attempt(keepouts, c);
            self.terms_agree(rects);
            self.terms_agree(best);
            let better = if self.miss(rects) < self.miss(best) {
                rects
            } else {
                best
            };
            self.terms_agree(better);
            if self.is_sparse(rects) {
                assert(self.is_between(keepouts, better, first, densest, c, hi));
                self.search_closes_in(keepouts, i + 1, first, densest, c, hi, better);
                let out = self.best_from(keepouts, i, lo, hi, Some(best))->0;
                if !is_met(self.ctx, fill_area(out)) {
                    let m = Self::parts_from(i + 1);
                    let (l, h) = choose|l: int, h: int|
                        #[trigger] self.is_between(keepouts, out, first, densest, l, h) && m * abs_of(h - l) <= abs_of(
                            hi - c,
                        ) + m - 1;
                    halves(lo, hi, m, abs_of(h - l));
                }
            } else if self.is_dense(rects) {
                assert(self.is_between(keepouts, better, first, densest, lo, c));
                self.search_closes_in(keepouts, i + 1, first, densest, lo, c, better);
                let out = self.best_from(keepouts, i, lo, hi, Some(best))->0;
                if !is_met(self.ctx, fill_area(out)) {
                    let m = Self::parts_from(i + 1);
                    let (l, h) = choose|l: int, h: int|
                        #[trigger] self.is_between(keepouts, out, first, densest, l, h) && m * abs_of(h - l) <= abs_of(
                            c - lo,
                        ) + m - 1;
                    halves(lo, hi, m, abs_of(h - l));
                }
            } else {
                assert(is_met(self.ctx, fill_area(better)));
            }
        } else {
            assert(n * abs_of(hi - lo) == abs_of(hi - lo)) by (nonlinear_arith)
                requires
                    n == 1,
            ;
        }
    }
}

/// Either half of the coverages is at most half as wide, rounded up.
proof fn halves(lo: int, hi: int, m: int, width: int)
    ensures
        ({
            let c = (lo + hi) / 2;
            &&& m * width <= abs_of(hi - c) + m - 1 ==> (2 * m) * width <= abs_of(hi - lo) + 2 * m - 1
            &&& m * width <= abs_of(c - lo) + m - 1 ==> (2 * m) * width <= abs_of(hi - lo) + 2 * m - 1
        }),
{
    assert((2 * m) * width == 2 * (m * width)) by (nonlinear_arith);
}

/// The search of a tile that lacks fill.
pub open spec fn is_searched(tile: Rect, sq: SquareParams, ctx: TileCtx) -> bool {
    &&& tile.in_range()
    &&& tile.ordered()
    &&& sq.usable()
    &&& ctx.valid()
    &&& lacks_fill(ctx)
}

/// The search starts from what is missing: its result is no further from the
/// target than the lattice of that coverage, and is that lattice if it comes
/// within half the deviation of the target.
pub proof fn search_starts_from_what_is_missing(
    tile: Rect,
    sq: SquareParams,
    ctx: TileCtx,
    keepouts: Seq<KeepoutShape>,
    c: int,
)
    requires
        is_searched(tile, sq, ctx),
        is_missing_share(ctx, c),
    ensures
        ({
            let search = SquareSearch::of(tile, sq, ctx);
            let first = search.attempt_at(keepouts, c);
            let out = search.result(keepouts);
            &&& abs_of(shortfall(ctx, fill_area(out))) <= abs_of(shortfall(ctx, fill_area(first)))
            &&& is_met(ctx, fill_area(first)) ==> out == first
        }),
{
    let search = SquareSearch::of(tile, sq, ctx);
    let all = keepouts + search.edge_bands();
    share_is_quotient(c, 10_000 * shortfall(ctx, 0), ctx.tile_area as int);
    assert(search.first_coverage() == c);
    let first = search.attempt(all, c);
    search.terms_agree(first);
    let d = search.densest_coverage();
    if search.is_sparse(first) {
        search.search_closes_in(all, 1, c, d, c, d, first);
    } else if search.is_dense(first) {
        search.search_closes_in(all, 1, c, c, c, c, first);
    }
}

/// The search closes in on the target.  Unless its result is within half the
/// deviation of the target, it ends between two coverages that are at most a
/// thirty-second of those between what is missing and the densest lattice apart:
/// at the lower one the lattice is too sparse, or it is the first, at the upper
/// one too dense, or it is the densest, and the result is no further from the
/// target than what was placed at either.
pub proof fn search_brackets_the_target(
    tile: Rect,
    sq: SquareParams,
    ctx: TileCtx,
    keepouts: Seq<KeepoutShape>,
    c: int,
    d: int,
)
    requires
        is_searched(tile, sq, ctx),
        is_missing_share(ctx, c),
        is_densest_share(sq, ctx, d),
    ensures
        ({
            let search = SquareSearch::of(tile, sq, ctx);
            let out = search.result(keepouts);
            is_met(ctx, fill_area(out)) || exists|lo: int, hi: int|
                #[trigger] search.is_between(keepouts + search.edge_bands(), out, c, d, lo, hi) && 32 * abs_of(hi - lo)
                    <= abs_of(d - c) + 31
        }),
{
    let search = SquareSearch::of(tile, sq, ctx);
    let all = keepouts + search.edge_bands();
    let out = search.result(keepouts);
    let db = ctx.db_unit_nm as int;
    crate::pdk::units_bounds(sq.max_width as int, db);
    crate::pdk::units_bounds(sq.min_space as int, db);
    search_is_valid(tile, sq, ctx);
    let w = units_of(sq.max_width as int, db);
    let p = w + units_of(sq.min_space as int, db);
    assert(p * p > 0) by (nonlinear_arith)
        requires
            p > 0,
    ;
    share_is_quotient(c, 10_000 * shortfall(ctx, 0), ctx.tile_area as int);
    share_is_quotient(d, w * w * 1_000_000_000_000, p * p);
    assert(search.first_coverage() == c);
    assert(search.densest_coverage() == d);
    let first = search.attempt(all, c);
    search.terms_agree(first);
    reveal_with_fuel(SquareSearch::parts_from, 6);
    if search.is_sparse(first) {
        assert(search.is_between(all, first, c, d, c, d));
        search.search_closes_in(all, 1, c, d, c, d, first);
        assert(SquareSearch::parts_from(1) == 32);
    } else if search.is_dense(first) {
        assert(search.is_between(all, first, c, d, c, c));
        search.search_closes_in(all, 1, c, d, c, c, first);
        assert(SquareSearch::parts_from(1) == 32);
    }
}

/// Nothing is placed in a tile that lacks no more than half the deviation.
pub proof fn squares_stop_at_the_target(tile: Rect, sq: SquareParams, ctx: TileCtx, keepouts: Seq<KeepoutShape>)
    requires
        !lacks_fill(ctx),
    ensures
        SquareSearch::of(tile, sq, ctx).result(keepouts).len() == 0,
{
}

impl Lattice {
    proof fn column_holds(self, tile: Rect, clipping: bool, k: int, m: int, n: int)
        requires
            self.pitch() > 0,
            m <= n,
            self.cy(k, n) <= tile.y1 + self.extra(clipping),
        ensures
            self.column(tile, clipping, k, m).contains(self.square(k, n)),
        decreases n - m,
    {
        let all = self.column(tile, clipping, k, m);
        assert(m * self.pitch() <= n * self.pitch()) by (nonlinear_arith)
            requires
                m <= n,
                self.pitch() > 0,
        ;
        if m == n {
            assert(all[0] == self.square(k, n));
        } else {
            self.column_holds(tile, clipping, k, m + 1, n);
            let rest = self.column(tile, clipping, k, m + 1);
            let i = choose|i: int| 0 <= i < rest.len() && rest[i] == self.square(k, n);
            assert(all[i + 1] == rest[i]);
        }
    }

    proof fn columns_hold(self, tile: Rect, clipping: bool, j: int, k: int, n: int)
        requires
            self.pitch() > 0,
            j <= k,
            self.cx(k) <= tile.x1 + self.extra(clipping),
            tile.y0 < self.cy(k, n) <= tile.y1 + self.extra(clipping),
        ensures
            self.columns(tile, clipping, j).contains(self.square(k, n)),
        decreases k - j,
    {
        let all = self.columns(tile, clipping, j);
        assert(j * self.pitch() <= k * self.pitch()) by (nonlinear_arith)
            requires
                j <= k,
                self.pitch() > 0,
        ;
        let first = self.column(tile, clipping, j, self.first_row(tile, j));
        let rest = self.columns(tile, clipping, j + 1);
        if j == k {
            first_is_least(tile.y0 - self.cy(k, 0), self.pitch(), n);
            self.column_holds(tile, clipping, k, self.first_row(tile, k), n);
            let i = choose|i: int| 0 <= i < first.len() && first[i] == self.square(k, n);
            assert(all[i] == first[i]);
        } else {
            self.columns_hold(tile, clipping, j + 1, k, n);
            let i = choose|i: int| 0 <= i < rest.len() && rest[i] == self.square(k, n);
            assert(all[first.len() + i] == rest[i]);
        }
    }

    /// Every square of the lattice with its centre in the tile is listed for it.
    proof fn squares_hold(self, tile: Rect, clipping: bool, k: int, n: int)
        requires
            self.pitch() > 0,
            tile.x0 < self.cx(k) <= tile.x1 + self.extra(clipping),
            tile.y0 < self.cy(k, n) <= tile.y1 + self.extra(clipping),
        ensures
            self.squares(tile, clipping).contains(self.square(k, n)),
    {
        first_is_least(tile.x0 - (self.anchor.x + self.half()), self.pitch(), k);
        self.columns_hold(tile, clipping, self.first_column(tile), k, n);
    }
}

proof fn first_is_least(gap: int, pitch: int, n: int)
    requires
        pitch > 0,
        n * pitch > gap,
    ensures
        gap / pitch + 1 <= n,
{
    let q = gap / pitch;
    lemma_fundamental_div_mod(gap, pitch);
    assert(q + 1 <= n) by (nonlinear_arith)
        requires
            pitch > 0,
            n * pitch > gap,
            pitch * q <= gap,
    ;
}

proof fn placed_holds(
    tile: Rect,
    keepouts: Seq<KeepoutShape>,
    width: int,
    clipping: bool,
    squares: Seq<Rect>,
    n: int,
    i: int,
    r: Rect,
)
    requires
        0 <= i < n <= squares.len(),
        placed_for(tile, keepouts, width, clipping, squares[i]) == Some(r),
    ensures
        placed_squares(tile, keepouts, width, clipping, squares, n).contains(r),
    decreases n,
{
    let before = placed_squares(tile, keepouts, width, clipping, squares, n - 1);
    let now = placed_squares(tile, keepouts, width, clipping, squares, n);
    if i == n - 1 {
        assert(now[before.len() as int] == r);
    } else {
        placed_holds(tile, keepouts, width, clipping, squares, n - 1, i, r);
        let a = choose|a: int| 0 <= a < before.len() && before[a] == r;
        assert(now[a] == r);
    }
}

/// An attempt leaves no room: every square of the lattice of its coverage that is
/// more than the least space inside the tile and touches no keep-out is placed.
pub proof fn attempt_fills_every_clear_node(
    tile: Rect,
    sq: SquareParams,
    ctx: TileCtx,
    keepouts: Seq<KeepoutShape>,
    c: int,
    r: Rect,
    k: int,
    m: int,
)
    requires
        tile.in_range(),
        tile.ordered(),
        sq.usable(),
        ctx.valid(),
        ({
            let lattice = SquareSearch::of(tile, sq, ctx).lattice(c);
            let b = units_of(sq.min_space as int, ctx.db_unit_nm as int);
            &&& lattice.size + lattice.space > 0
            &&& on_node(r, SquareSearch::of(tile, sq, ctx).anchor, lattice.size + lattice.space, k, m)
            &&& r.x1 - r.x0 == lattice.size
            &&& r.y1 - r.y0 == lattice.size
            &&& tile.x0 + b < r.x0 && r.x1 < tile.x1 - b
            &&& tile.y0 + b < r.y0 && r.y1 < tile.y1 - b
        }),
        !is_blocked(keepouts, r),
    ensures
        SquareSearch::of(tile, sq, ctx).attempt_at(keepouts, c).contains(r),
{
    let search = SquareSearch::of(tile, sq, ctx);
    search_is_valid(tile, sq, ctx);
    search.sizing.sizes_in_bounds(clamp_coverage(c));
    let lattice = search.lattice(c);
    let b = search.sizing.min_space as int;
    let all = keepouts + search.edge_bands();
    let clipping = search.clipping;
    let half = lattice.half();
    assert(lattice.size == 2 * half);
    assert(lattice.square(k, m) == r);
    assert(lattice.cx(k) == r.x0 + half && lattice.cy(k, m) == r.y0 + half);
    lattice.squares_hold(tile, clipping, k, m);
    let squares = lattice.squares(tile, clipping);
    let i = choose|i: int| 0 <= i < squares.len() && squares[i] == r;
    assert(!is_blocked(all, r)) by {
        if is_blocked(all, r) {
            let q = choose|q: int| 0 <= q < all.len() && (#[trigger] all[q]).blocks(r);
            if q < keepouts.len() {
                assert(keepouts[q].blocks(r));
            } else {
                assert(all[q] == search.edge_bands()[q - keepouts.len()]);
            }
        }
    }
    let width = search.sizing.min_width as int;
    assert(placed_for(tile, all, width, clipping, squares[i]) == Some(r));
    placed_holds(tile, all, width, clipping, squares, squares.len() as int, i, r);
    assert(search.attempt_at(keepouts, c) == generated_fill(tile, all, lattice, width, clipping));
}

/// The lattice is anchored at the corner of the chip, moved by the origin, to half
/// a unit.
pub proof fn lattice_is_anchored_at_the_origin(tile: Rect, sq: SquareParams, ctx: TileCtx)
    requires
        tile.in_range(),
        tile.ordered(),
        sq.usable(),
        ctx.valid(),
    ensures
        ({
            let anchor = SquareSearch::of(tile, sq, ctx).anchor;
            let db = ctx.db_unit_nm;
            &&& 2 * abs_of((anchor.x - ctx.chip_corner.x) * db - 2 * sq.origin_nm.0) <= db
            &&& 2 * abs_of((anchor.y - ctx.chip_corner.y) * db - 2 * sq.origin_nm.1) <= db
        }),
{
    let db = ctx.db_unit_nm as int;
    search_is_valid(tile, sq, ctx);
    origin_is_nearest(sq.origin_nm.0 as int, db);
    origin_is_nearest(sq.origin_nm.1 as int, db);
}

proof fn origin_is_nearest(nm: int, db: int)
    requires
        db > 0,
    ensures
        2 * abs_of(offset_units_of(nm, db) * db - 2 * nm) <= db,
{
    let u = units_of(abs_of(nm), db);
    units_are_nearest(abs_of(nm), db);
    assert((-u) * db == -(u * db)) by (nonlinear_arith);
}

/// The lattice of a coverage has it, to half a step.  With the widest squares the
/// gap, half a step narrower, gives at least the coverage, and half a step wider
/// less; with the widest gaps the side, half a step narrower, gives at most the
/// coverage, and half a step wider more.  The least and the greatest side and gap
/// stop them.
pub proof fn lattice_has_its_coverage(tile: Rect, sq: SquareParams, ctx: TileCtx, c: int)
    requires
        tile.in_range(),
        tile.ordered(),
        sq.usable(),
        ctx.valid(),
        0 <= c <= 1_000_000_000_000,
    ensures
        ({
            let db = ctx.db_unit_nm as int;
            let step = 4 * ctx.grid_dbu;
            let (side, gap) = (
                SquareSearch::of(tile, sq, ctx).lattice(c).size as int,
                SquareSearch::of(tile, sq, ctx).lattice(c).space as int,
            );
            let (least_side, most_side) = (units_of(sq.min_width as int, db), units_of(sq.max_width as int, db));
            let (least_gap, most_gap) = (units_of(sq.min_space as int, db), units_of(sq.max_space as int, db));
            &&& side >= least_side && side % step == 0
            &&& gap >= least_gap && gap % step == 0
            &&& side >= least_side + step ==> !covers_more(2 * side - step, 2 * most_gap, c)
            &&& 2 * side + step <= 2 * most_side ==> covers_more(2 * side + step, 2 * most_gap, c)
            &&& gap >= least_gap + step ==> !covers_less(2 * most_side, 2 * gap - step, c)
            &&& 2 * gap + step <= 2 * most_gap ==> covers_less(2 * most_side, 2 * gap + step, c)
        }),
{
    let search = SquareSearch::of(tile, sq, ctx);
    search_is_valid(tile, sq, ctx);
    let db = ctx.db_unit_nm as int;
    crate::pdk::units_bounds(sq.max_width as int, db);
    crate::pdk::units_bounds(sq.max_space as int, db);
    search.sizing.sizes_in_bounds(c);
    search.sizing.side_gives_coverage(c);
    search.sizing.gap_gives_coverage(c);
}

/// Squares with this side and gap, both doubled, cover more than `c` parts of a
/// million million.
pub open spec fn covers_more(side: int, gap: int, c: int) -> bool {
    side * side * 1_000_000_000_000 > c * ((side + gap) * (side + gap))
}

/// Squares with this side and gap, both doubled, cover less than `c` parts of a
/// million million.
pub open spec fn covers_less(side: int, gap: int, c: int) -> bool {
    side * side * 1_000_000_000_000 < c * ((side + gap) * (side + gap))
}

/// Every square of a lattice whose centre lies in the tile and that touches no
/// keep-out is placed, cut at the tile edges where that is asked for; what is cut to
/// less than the least width is not.
pub proof fn every_square_in_the_tile_is_placed(
    tile: Rect,
    keepouts: Seq<KeepoutShape>,
    lattice: Lattice,
    width: int,
    clipping: bool,
    k: int,
    m: int,
    r: Rect,
)
    requires
        lattice.valid(),
        tile.in_range(),
        lattice.size + lattice.space > 0,
        ({
            let square = lattice.square(k, m);
            &&& 2 * tile.x0 < square.x0 + square.x1 <= 2 * tile.x1
            &&& 2 * tile.y0 < square.y0 + square.y1 <= 2 * tile.y1
            &&& -0x10_0000_0000 <= k * lattice.pitch() <= 0x10_0000_0000
            &&& -0x10_0000_0000 <= m * lattice.pitch() <= 0x10_0000_0000
            &&& !is_blocked(keepouts, square)
            &&& if clipping {
                r == (Rect {
                    x0: if square.x0 < tile.x0 {
                        tile.x0
                    } else {
                        square.x0
                    },
                    y0: if square.y0 < tile.y0 {
                        tile.y0
                    } else {
                        square.y0
                    },
                    x1: if square.x1 > tile.x1 {
                        tile.x1
                    } else {
                        square.x1
                    },
                    y1: if square.y1 > tile.y1 {
                        tile.y1
                    } else {
                        square.y1
                    },
                })
            } else {
                r == square && tile.spec_encloses(square)
            }
        }),
        r.x1 - r.x0 >= width,
        r.y1 - r.y0 >= width,
    ensures
        generated_fill(tile, keepouts, lattice, width, clipping).contains(r),
{
    let square = lattice.square(k, m);
    let squares = lattice.squares(tile, clipping);
    let half = lattice.half();
    assert(lattice.size == 2 * half);
    assert(0 <= lattice.drift() <= 0x8_0000_0000);
    assert(square.x0 + square.x1 == 2 * lattice.cx(k) && square.y0 + square.y1 == 2 * lattice.cy(k, m));
    lattice.squares_hold(tile, clipping, k, m);
    let i = choose|i: int| 0 <= i < squares.len() && squares[i] == square;
    assert(placed_for(tile, keepouts, width, clipping, squares[i]) == Some(r));
    placed_holds(tile, keepouts, width, clipping, squares, squares.len() as int, i, r);
}

/// Coverages beyond nothing and all are taken for those.
pub proof fn coverage_is_between_nothing_and_all(tile: Rect, sq: SquareParams, ctx: TileCtx, c: int)
    ensures
        c <= 0 ==> SquareSearch::of(tile, sq, ctx).lattice(c) == SquareSearch::of(tile, sq, ctx).lattice(0),
        c >= 1_000_000_000_000 ==> SquareSearch::of(tile, sq, ctx).lattice(c) == SquareSearch::of(
            tile,
            sq,
            ctx,
        ).lattice(1_000_000_000_000),
{
}

impl SquareSearch {
    proof fn best_is_closer_or_kept(self, keepouts: Seq<KeepoutShape>, i: int, lo: int, hi: int, best: Seq<Rect>)
        requires
            1 <= i,
        ensures
            self.best_from(keepouts, i, lo, hi, Some(best)) matches Some(out) && (out == best || self.off(out) < self.off(
                best,
            )),
        decreases ATTEMPTS - i,
    {
        if i < ATTEMPTS {
            let c = (lo + hi) / 2;
            let rects = self.attempt(keepouts, c);
            self.terms_agree(rects);
            self.terms_agree(best);
            let better = if self.miss(rects) < self.miss(best) {
                rects
            } else {
                best
            };
            self.best_is_closer_or_kept(keepouts, i + 1, c, hi, better);
            self.best_is_closer_or_kept(keepouts, i + 1, lo, c, better);
        }
    }
}

/// Of equals the first is taken: the result is the lattice of what is missing, or
/// comes strictly closer to the target.
pub proof fn ties_go_to_the_first(tile: Rect, sq: SquareParams, ctx: TileCtx, keepouts: Seq<KeepoutShape>, c: int)
    requires
        is_searched(tile, sq, ctx),
        is_missing_share(ctx, c),
    ensures
        ({
            let search = SquareSearch::of(tile, sq, ctx);
            let first = search.attempt_at(keepouts, c);
            let out = search.result(keepouts);
            out == first || abs_of(shortfall(ctx, fill_area(out))) < abs_of(shortfall(ctx, fill_area(first)))
        }),
{
    let search = SquareSearch::of(tile, sq, ctx);
    let all = keepouts + search.edge_bands();
    share_is_quotient(c, 10_000 * shortfall(ctx, 0), ctx.tile_area as int);
    let d = search.densest_coverage();
    let first = search.attempt(all, c);
    search.best_is_closer_or_kept(all, 1, c, d, first);
    search.best_is_closer_or_kept(all, 1, c, c, first);
}

} // verus!
