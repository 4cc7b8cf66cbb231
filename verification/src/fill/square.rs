//! Square fill: a checkerboard whose density is searched for.

use crate::fill::are_fill_rects;
use crate::fill::fill_area;
use crate::fill::lattice::all_apart;
use crate::fill::lattice::centered_in;
use crate::fill::lattice::clipped;
use crate::fill::lattice::generate_fill;
use crate::fill::lattice::generated_comes_from;
use crate::fill::lattice::generated_fill;
use crate::fill::lattice::generated_fill_is_legal;
use crate::fill::lattice::in_step;
use crate::fill::lattice::is_legal_fill;
use crate::fill::lattice::is_on_node;
use crate::fill::lattice::lattice_is_ordered;
use crate::fill::lattice::nodes_differ;
use crate::fill::lattice::placed_for;
use crate::fill::lattice::squares_are_on_nodes;
use crate::fill::lattice::Lattice;
use crate::fill::measure;
use crate::fill::sizing::ONE;
use crate::fill::sizing::Sizing;
use crate::fill::TileCtx;
use crate::geom::abs_of;
use crate::geom::Point;
use crate::geom::Rect;
use crate::num::floor_div_wide;
use crate::pdk::offset_to_units;
use crate::pdk::offset_units_of;
use crate::pdk::to_units;
use crate::pdk::units_of;
use crate::pdk::FULL;
use crate::pdk::SquareParams;
use crate::touch::copy_keepouts;
use crate::touch::is_blocked;
use crate::touch::keepouts_in_reach;
use crate::touch::keepouts_of;
use crate::touch::rect_keepout;
use crate::touch::Keepout;
use crate::touch::KeepoutShape;
use vstd::prelude::*;

verus! {

/// Attempts at the target density.
pub const ATTEMPTS: u32 = 6;

/// The coverage closest to `c` among 0 to [`ONE`].
pub open spec fn clamp_coverage(c: int) -> int {
    if c < 0 {
        0
    } else if c > ONE {
        ONE as int
    } else {
        c
    }
}

/// The search for a square fill in one tile.
#[derive(Clone, Copy, Debug)]
pub struct SquareSearch {
    pub tile: Rect,
    /// Anchor of the lattice.
    pub anchor: Point,
    pub sizing: Sizing,
    pub clipping: bool,
    pub ctx: TileCtx,
}

impl SquareSearch {
    /// The search for the given parameters.
    pub open spec fn of(tile: Rect, sq: SquareParams, ctx: TileCtx) -> SquareSearch {
        SquareSearch {
            tile,
            anchor: Point {
                x: (ctx.chip_corner.x + offset_units_of(sq.origin_nm.0 as int, ctx.db_unit_nm as int)) as i64,
                y: (ctx.chip_corner.y + offset_units_of(sq.origin_nm.1 as int, ctx.db_unit_nm as int)) as i64,
            },
            sizing: Sizing {
                min_width: units_of(sq.min_width as int, ctx.db_unit_nm as int) as i64,
                max_width: units_of(sq.max_width as int, ctx.db_unit_nm as int) as i64,
                min_space: units_of(sq.min_space as int, ctx.db_unit_nm as int) as i64,
                max_space: units_of(sq.max_space as int, ctx.db_unit_nm as int) as i64,
                step: ctx.step() as i64,
            },
            clipping: sq.clipping,
            ctx,
        }
    }

    /// Tile, anchor, sizes and context are usable.
    pub open spec fn valid(self) -> bool {
        &&& self.tile.in_range()
        &&& self.tile.ordered()
        &&& (Lattice { anchor: self.anchor, size: 0, space: 0 }).valid()
        &&& self.sizing.valid()
        &&& self.ctx.valid()
    }

    /// The lattice for a coverage.
    pub open spec fn lattice(self, coverage: int) -> Lattice {
        Lattice {
            anchor: self.anchor,
            size: self.sizing.side(clamp_coverage(coverage)) as i64,
            space: self.sizing.gap(clamp_coverage(coverage)) as i64,
        }
    }

    /// The fill that an attempt at a coverage places.
    pub open spec fn attempt(self, keepouts: Seq<KeepoutShape>, coverage: int) -> Seq<Rect> {
        generated_fill(
            self.tile,
            keepouts,
            self.lattice(coverage),
            self.sizing.min_width as int,
            self.clipping,
        )
    }

    /// How far the density of `rects` is from the density wanted.
    pub open spec fn miss(self, rects: Seq<Rect>) -> int {
        abs_of(FULL * fill_area(rects) - self.ctx.need())
    }

    /// `rects` are too sparse by more than half the deviation.
    pub open spec fn too_sparse(self, rects: Seq<Rect>) -> bool {
        2 * (FULL * fill_area(rects)) < 2 * self.ctx.need() - self.ctx.deviation * self.ctx.tile_area
    }

    /// `rects` are too dense by more than half the deviation.
    pub open spec fn too_dense(self, rects: Seq<Rect>) -> bool {
        2 * (FULL * fill_area(rects)) > 2 * self.ctx.need() + self.ctx.deviation * self.ctx.tile_area
    }

    /// The coverage of the first attempt: the density wanted.
    pub open spec fn first_coverage(self) -> int {
        (self.ctx.need() * 10_000) / (self.ctx.tile_area as int)
    }

    /// The coverage of the densest lattice: widest squares, narrowest gaps.
    pub open spec fn densest_coverage(self) -> int {
        let (w, s) = (self.sizing.max_width as int, self.sizing.min_space as int);
        if w + s <= 0 {
            0
        } else {
            (w * w * ONE) / ((w + s) * (w + s))
        }
    }

    /// The best of the attempts from number `i` on and of `best`, the best so
    /// far.  Attempts bisect the coverage between `lo` and `hi`, and end when
    /// one is within half the deviation.
    pub open spec fn best_from(
        self,
        keepouts: Seq<KeepoutShape>,
        i: int,
        lo: int,
        hi: int,
        best: Option<Seq<Rect>>,
    ) -> Option<Seq<Rect>>
        decreases ATTEMPTS - i,
    {
        if i >= ATTEMPTS {
            best
        } else {
            let coverage = if i == 0 {
                self.first_coverage()
            } else {
                (lo + hi) / 2
            };
            let rects = self.attempt(keepouts, coverage);
            let better = match best {
                Some(b) => if self.miss(rects) < self.miss(b) {
                    Some(rects)
                } else {
                    best
                },
                None => Some(rects),
            };
            if self.too_sparse(rects) {
                self.best_from(keepouts, i + 1, coverage, hi, better)
            } else if self.too_dense(rects) {
                self.best_from(keepouts, i + 1, lo, coverage, better)
            } else {
                better
            }
        }
    }

    /// The four bands along the tile edges, as wide as the minimum space, so
    /// that fill keeps its distance from fill in the adjacent tiles.
    pub open spec fn edge_bands(self) -> Seq<KeepoutShape> {
        let b = self.sizing.min_space;
        let t = self.tile;
        seq![
            rect_keepout(Rect { x0: t.x0, y0: t.y0, x1: (t.x0 + b) as i64, y1: t.y1 }),
            rect_keepout(Rect { x0: (t.x1 - b) as i64, y0: t.y0, x1: t.x1, y1: t.y1 }),
            rect_keepout(Rect { x0: t.x0, y0: t.y0, x1: t.x1, y1: (t.y0 + b) as i64 }),
            rect_keepout(Rect { x0: t.x0, y0: (t.y1 - b) as i64, x1: t.x1, y1: t.y1 }),
        ]
    }

    /// The squares of the search: none if the tile wants no fill.
    pub open spec fn result(self, keepouts: Seq<KeepoutShape>) -> Seq<Rect> {
        if !self.ctx.wants_fill() {
            Seq::empty()
        } else {
            match self.best_from(
                keepouts + self.edge_bands(),
                0,
                self.first_coverage(),
                self.densest_coverage(),
                None,
            ) {
                Some(b) => b,
                None => Seq::empty(),
            }
        }
    }

    /// Place the lattice for a coverage.
    fn try_coverage(&self, keepout: &Vec<Keepout>, coverage: i128) -> (rects: Vec<Rect>)
        requires
            self.valid(),
            keepouts_in_reach(keepouts_of(keepout@)),
        ensures
            rects@ == self.attempt(keepouts_of(keepout@), coverage as int),
            are_fill_rects(rects@),
    {
        let c: i64 = if coverage < 0 {
            0
        } else if coverage > ONE as i128 {
            ONE
        } else {
            coverage as i64
        };
        let (size, space) = self.sizing.analytical_params(c);
        let lattice = Lattice { anchor: self.anchor, size, space };
        generate_fill(&self.tile, keepout, &lattice, self.sizing.min_width, self.clipping)
    }

    /// The coverage of the densest lattice.
    fn densest(&self) -> (c: i128)
        requires
            self.valid(),
        ensures
            c == self.densest_coverage(),
            0 <= c <= ONE,
    {
        let w: i128 = self.sizing.max_width as i128;
        let s: i128 = self.sizing.min_space as i128;
        if w + s <= 0 {
            return 0;
        }
        let sum: i128 = w + s;
        proof {
            assert(0 <= w * w <= 0x1_0000_0004_0000_0004 && 0 < sum * sum <= 0x8_0000_0010_0000_0000) by (nonlinear_arith)
                requires
                    0 <= w <= 0x8000_0001,
                    0 < sum <= 0x1_0000_0002,
            ;
            let (ww, ss, one) = (w * w, sum * sum, ONE as int);
            assert(ww <= ss) by (nonlinear_arith)
                requires
                    ww == w * w,
                    ss == sum * sum,
                    0 <= w <= sum,
            ;
            assert(0 <= ww * one <= ss * one) by (nonlinear_arith)
                requires
                    0 <= ww <= ss,
                    one > 0,
            ;
            assert(0 <= (ww * one) / ss <= one) by (nonlinear_arith)
                requires
                    0 <= ww * one <= ss * one,
                    ss > 0,
            ;
        }
        (w * w * ONE as i128) / (sum * sum)
    }

    /// Search for the squares that come closest to the density wanted.
    fn run(&self, keepout: &Vec<Keepout>) -> (best: Vec<Rect>)
        requires
            self.valid(),
            self.ctx.wants_fill(),
            keepouts_in_reach(keepouts_of(keepout@)),
        ensures
            are_fill_rects(best@),
            Some(best@) == self.best_from(
                keepouts_of(keepout@),
                0,
                self.first_coverage(),
                self.densest_coverage(),
                None,
            ),
    {
        let ghost kos = keepouts_of(keepout@);
        let ghost goal = self.best_from(kos, 0, self.first_coverage(), self.densest_coverage(), None);
        let need = self.ctx.missing();
        let slack = self.ctx.slack();
        proof {
            let (n, a) = (need as int, self.ctx.tile_area as int);
            assert(-0x1_0000_0000_0000_0000_0000_0000_0000_000 <= (n * 10_000) / a
                <= 0x1_0000_0000_0000_0000_0000_0000_0000_000) by (nonlinear_arith)
                requires
                    -0x400_0000_0000_0000_0000_0000_0000 <= n <= 0x400_0000_0000_0000_0000_0000_0000,
                    a >= 1,
            ;
        }
        let first: i128 = floor_div_wide(need * 10_000, self.ctx.tile_area);
        let mut lo: i128 = first;
        let mut hi: i128 = self.densest();
        let mut best: Vec<Rect> = Vec::new();
        let mut best_miss: i128 = 0;
        let mut i: u32 = 0;
        let mut done: bool = false;
        while i < ATTEMPTS && !done
            invariant
                self.valid(),
                kos == keepouts_of(keepout@),
                keepouts_in_reach(kos),
                need == self.ctx.need(),
                slack == self.ctx.deviation * self.ctx.tile_area,
                -0x400_0000_0000_0000_0000_0000_0000 <= slack <= 0x400_0000_0000_0000_0000_0000_0000,
                -0x400_0000_0000_0000_0000_0000_0000 <= need <= 0x400_0000_0000_0000_0000_0000_0000,
                first == self.first_coverage(),
                -0x1_0000_0000_0000_0000_0000_0000_0000_000 <= lo <= 0x1_0000_0000_0000_0000_0000_0000_0000_000,
                -0x1_0000_0000_0000_0000_0000_0000_0000_000 <= hi <= 0x1_0000_0000_0000_0000_0000_0000_0000_000,
                -0x1_0000_0000_0000_0000_0000_0000_0000_000 <= first <= 0x1_0000_0000_0000_0000_0000_0000_0000_000,
                i <= ATTEMPTS,
                are_fill_rects(best@),
                i > 0 ==> best_miss == self.miss(best@),
                done ==> goal == Some(best@),
                !done ==> goal == self.best_from(
                    kos,
                    i as int,
                    lo as int,
                    hi as int,
                    if i > 0 {
                        Some(best@)
                    } else {
                        None
                    },
                ),
                done ==> i > 0,
            decreases ATTEMPTS - i,
        {
            let coverage: i128 = if i == 0 {
                first
            } else {
                floor_div_wide(lo + hi, 2)
            };
            let rects = self.try_coverage(keepout, coverage);
            let area = measure(&rects);
            proof {
                assert(0 <= FULL * area <= 0x5f5_e100_0000_0000_0000_0000_0000_0000) by (nonlinear_arith)
                    requires
                        FULL == 0x5f5_e100,
                        0 <= area <= 0x1_0000_0000_0000_0000_0000_0000,
                ;
            }
            let filled: i128 = FULL as i128 * area;
            let miss: i128 = if filled >= need {
                filled - need
            } else {
                need - filled
            };
            let sparse: bool = 2 * filled < 2 * need - slack;
            let dense: bool = 2 * filled > 2 * need + slack;
            if i == 0 || miss < best_miss {
                best_miss = miss;
                best = rects;
            }
            if sparse {
                lo = coverage;
            } else if dense {
                hi = coverage;
            } else {
                done = true;
            }
            i = i + 1;
        }
        best
    }
}

/// Fill a tile with squares.  Nothing is placed if no more than half the
/// deviation is missing from the target.  Otherwise the coverage of the
/// lattice is searched for, at most [`ATTEMPTS`] times, and the attempt whose
/// density comes closest is taken, the first one of equals.
pub fn fill_square_tile(tile: &Rect, keepout: &Vec<Keepout>, sq: &SquareParams, ctx: &TileCtx) -> (out: Vec<Rect>)
    requires
        tile.in_range(),
        tile.ordered(),
        sq.usable(),
        ctx.valid(),
        keepouts_in_reach(keepouts_of(keepout@)),
    ensures
        out@ == SquareSearch::of(*tile, *sq, *ctx).result(keepouts_of(keepout@)),
        are_fill_rects(out@),
{
    if !ctx.is_below_target() {
        return Vec::new();
    }
    let db = ctx.db_unit_nm;
    let search = SquareSearch {
        tile: *tile,
        anchor: Point {
            x: ctx.chip_corner.x + offset_to_units(sq.origin_nm.0, db),
            y: ctx.chip_corner.y + offset_to_units(sq.origin_nm.1, db),
        },
        sizing: Sizing {
            min_width: to_units(sq.min_width, db),
            max_width: to_units(sq.max_width, db),
            min_space: to_units(sq.min_space, db),
            max_space: to_units(sq.max_space, db),
            step: 4 * ctx.grid_dbu,
        },
        clipping: sq.clipping,
        ctx: *ctx,
    };
    proof {
        search_is_valid(*tile, *sq, *ctx);
    }
    let b = search.sizing.min_space;
    let mut local = copy_keepouts(keepout);
    let ghost base = local@;
    local.push(Keepout::of_rect(Rect { x0: tile.x0, y0: tile.y0, x1: tile.x0 + b, y1: tile.y1 }));
    local.push(Keepout::of_rect(Rect { x0: tile.x1 - b, y0: tile.y0, x1: tile.x1, y1: tile.y1 }));
    local.push(Keepout::of_rect(Rect { x0: tile.x0, y0: tile.y0, x1: tile.x1, y1: tile.y0 + b }));
    local.push(Keepout::of_rect(Rect { x0: tile.x0, y0: tile.y1 - b, x1: tile.x1, y1: tile.y1 }));
    proof {
        assert(keepouts_of(local@) =~= keepouts_of(base) + search.edge_bands());
        assert forall|i: int| 0 <= i < keepouts_of(local@).len() implies (#[trigger] keepouts_of(local@)[i]).in_reach() by {
            if i < base.len() {
                assert(keepouts_of(local@)[i] == keepouts_of(keepout@)[i]);
            }
        }
    }
    search.run(&local)
}

impl SquareSearch {
    /// Some attempt at a coverage places `rects`.
    pub open spec fn is_attempt(self, keepouts: Seq<KeepoutShape>, rects: Seq<Rect>) -> bool {
        exists|c: int| #[trigger] self.attempt(keepouts, c) == rects
    }

    proof fn best_is_attempt(
        self,
        keepouts: Seq<KeepoutShape>,
        i: int,
        lo: int,
        hi: int,
        best: Option<Seq<Rect>>,
    )
        requires
            best matches Some(b) ==> self.is_attempt(keepouts, b),
        ensures
            self.best_from(keepouts, i, lo, hi, best) matches Some(b) ==> self.is_attempt(keepouts, b),
        decreases ATTEMPTS - i,
    {
        if i < ATTEMPTS {
            let coverage = if i == 0 {
                self.first_coverage()
            } else {
                (lo + hi) / 2
            };
            let rects = self.attempt(keepouts, coverage);
            assert(self.is_attempt(keepouts, rects));
            let better = match best {
                Some(b) => if self.miss(rects) < self.miss(b) {
                    Some(rects)
                } else {
                    best
                },
                None => Some(rects),
            };
            self.best_is_attempt(keepouts, i + 1, coverage, hi, better);
            self.best_is_attempt(keepouts, i + 1, lo, coverage, better);
        }
    }

    /// The squares placed in a tile are at least the minimum space apart, at
    /// least the minimum width wide and high, more than the minimum space
    /// inside the tile, and touch no keep-out.
    pub proof fn result_is_legal(self, keepouts: Seq<KeepoutShape>)
        requires
            self.valid(),
        ensures
            all_apart(self.result(keepouts), self.sizing.min_space as int),
            forall|a: int|
                0 <= a < self.result(keepouts).len() ==> self.is_clear(keepouts, #[trigger] self.result(keepouts)[a]),
    {
        let all = keepouts + self.edge_bands();
        let out = self.result(keepouts);
        if self.ctx.wants_fill() {
            let (lo, hi) = (self.first_coverage(), self.densest_coverage());
            self.best_is_attempt(all, 0, lo, hi, None);
            if self.best_from(all, 0, lo, hi, None) is Some {
                let c = choose|c: int| #[trigger] self.attempt(all, c) == out;
                self.sizing.sizes_in_bounds(clamp_coverage(c));
                let lattice = self.lattice(c);
                generated_fill_is_legal(self.tile, all, lattice, self.sizing.min_width as int, self.clipping);
                assert forall|i: int, j: int| 0 <= i < j < out.len() implies crate::fill::lattice::apart(
                    #[trigger] out[i],
                    #[trigger] out[j],
                    self.sizing.min_space as int,
                ) by {
                    assert(crate::fill::lattice::apart(out[i], out[j], lattice.space as int));
                }
                assert forall|a: int| 0 <= a < out.len() implies self.is_clear(keepouts, #[trigger] out[a]) by {
                    self.legal_is_clear(keepouts, out[a]);
                }
            }
        }
    }

    /// `r` is wide enough, more than the minimum space inside the tile, and
    /// touches no keep-out.
    pub open spec fn is_clear(self, keepouts: Seq<KeepoutShape>, r: Rect) -> bool {
        let b = self.sizing.min_space;
        &&& r.width() >= self.sizing.min_width
        &&& r.height() >= self.sizing.min_width
        &&& self.tile.x0 + b < r.x0 && r.x1 < self.tile.x1 - b
        &&& self.tile.y0 + b < r.y0 && r.y1 < self.tile.y1 - b
        &&& !is_blocked(keepouts, r)
    }

    proof fn legal_is_clear(self, keepouts: Seq<KeepoutShape>, r: Rect)
        requires
            self.valid(),
            is_legal_fill(
                self.tile,
                keepouts + self.edge_bands(),
                self.sizing.min_width as int,
                self.clipping,
                r,
            ),
        ensures
            self.is_clear(keepouts, r),
    {
        let all = keepouts + self.edge_bands();
        let n = keepouts.len() as int;
        let square = choose|square: Rect|
            !#[trigger] is_blocked(all, square) && square.ordered() && centered_in(self.tile, square) && r == (
            if self.clipping {
                clipped(square, self.tile)
            } else {
                square
            });
        let bands = self.edge_bands();
        assert(all[n] == bands[0] && all[n + 1] == bands[1] && all[n + 2] == bands[2] && all[n + 3] == bands[3]);
        assert(!all[n].blocks(square));
        assert(!all[n + 1].blocks(square));
        assert(!all[n + 2].blocks(square));
        assert(!all[n + 3].blocks(square));
        assert(r == square);
        assert forall|i: int| 0 <= i < keepouts.len() implies !(#[trigger] keepouts[i]).blocks(r) by {
            assert(all[i] == keepouts[i]);
            assert(!all[i].blocks(square));
        }
    }
}

/// Larger lengths are at least as many units.
proof fn units_are_ordered(a: int, b: int, db: int)
    requires
        0 <= a <= b,
        db > 0,
    ensures
        units_of(a, db) <= units_of(b, db),
{
    assert((4 * a + db) / (2 * db) <= (4 * b + db) / (2 * db)) by (nonlinear_arith)
        requires
            a <= b,
            db > 0,
    ;
}

/// Usable parameters make a valid search.
pub proof fn search_is_valid(tile: Rect, sq: SquareParams, ctx: TileCtx)
    requires
        tile.in_range(),
        tile.ordered(),
        sq.usable(),
        ctx.valid(),
    ensures
        SquareSearch::of(tile, sq, ctx).valid(),
        SquareSearch::of(tile, sq, ctx).sizing.min_space == units_of(sq.min_space as int, ctx.db_unit_nm as int),
        SquareSearch::of(tile, sq, ctx).sizing.min_width == units_of(sq.min_width as int, ctx.db_unit_nm as int),
{
    let db = ctx.db_unit_nm as int;
    crate::pdk::units_bounds(sq.min_width as int, db);
    crate::pdk::units_bounds(sq.max_width as int, db);
    crate::pdk::units_bounds(sq.min_space as int, db);
    crate::pdk::units_bounds(sq.max_space as int, db);
    crate::pdk::units_bounds(abs_of(sq.origin_nm.0 as int), db);
    crate::pdk::units_bounds(abs_of(sq.origin_nm.1 as int), db);
    units_are_ordered(sq.min_width as int, sq.max_width as int, db);
    units_are_ordered(sq.min_space as int, sq.max_space as int, db);
}

/// Squares of neighbouring tiles keep more than twice the minimum space from
/// each other: each keeps more than it from the edges of its own tile.
pub proof fn neighbours_keep_apart(
    a: SquareSearch,
    b: SquareSearch,
    a_keepouts: Seq<KeepoutShape>,
    b_keepouts: Seq<KeepoutShape>,
    i: int,
    j: int,
)
    requires
        a.valid(),
        b.valid(),
        a.sizing.min_space == b.sizing.min_space,
        a.tile.x1 <= b.tile.x0 || a.tile.y1 <= b.tile.y0,
        0 <= i < a.result(a_keepouts).len(),
        0 <= j < b.result(b_keepouts).len(),
    ensures
        ({
            let (r, s) = (a.result(a_keepouts)[i], b.result(b_keepouts)[j]);
            s.x0 - r.x1 > 2 * a.sizing.min_space || s.y0 - r.y1 > 2 * a.sizing.min_space
        }),
{
    a.result_is_legal(a_keepouts);
    b.result_is_legal(b_keepouts);
    assert(a.is_clear(a_keepouts, a.result(a_keepouts)[i]));
    assert(b.is_clear(b_keepouts, b.result(b_keepouts)[j]));
}

impl SquareSearch {
    /// The result is what an attempt at this coverage places.
    pub open spec fn is_result_at(self, keepouts: Seq<KeepoutShape>, coverage: int) -> bool {
        self.result(keepouts) == self.attempt(keepouts + self.edge_bands(), coverage)
    }

    /// Every result with a square is placed at some coverage.
    pub proof fn result_has_coverage(self, keepouts: Seq<KeepoutShape>)
        requires
            self.result(keepouts).len() > 0,
        ensures
            exists|c: int| #[trigger] self.is_result_at(keepouts, c),
    {
        let all = keepouts + self.edge_bands();
        self.best_is_attempt(all, 0, self.first_coverage(), self.densest_coverage(), None);
        let c = choose|c: int| #[trigger] self.attempt(all, c) == self.result(keepouts);
        assert(self.is_result_at(keepouts, c));
    }

    proof fn result_is_on_node(self, keepouts: Seq<KeepoutShape>, c: int, a: int)
        requires
            self.valid(),
            self.is_result_at(keepouts, c),
            self.lattice(c).pitch() > 0,
            0 <= a < self.result(keepouts).len(),
        ensures
            is_on_node(self.result(keepouts)[a], self.anchor, self.lattice(c).pitch()),
    {
        let all = keepouts + self.edge_bands();
        let n = keepouts.len() as int;
        let out = self.result(keepouts);
        self.sizing.sizes_in_bounds(clamp_coverage(c));
        let lattice = self.lattice(c);
        let squares = lattice.squares(self.tile, self.clipping);
        let width = self.sizing.min_width as int;
        generated_comes_from(self.tile, all, lattice, width, self.clipping, a);
        squares_are_on_nodes(lattice, self.tile, self.clipping);
        let i = choose|i: int|
            0 <= i < squares.len() && #[trigger] placed_for(self.tile, all, width, self.clipping, squares[i]) == Some(out[a]);
        let square = squares[i];
        let bands = self.edge_bands();
        assert(all[n] == bands[0] && all[n + 1] == bands[1] && all[n + 2] == bands[2] && all[n + 3] == bands[3]);
        assert(!all[n].blocks(square));
        assert(!all[n + 1].blocks(square));
        assert(!all[n + 2].blocks(square));
        assert(!all[n + 3].blocks(square));
        generated_fill_is_legal(self.tile, all, lattice, width, self.clipping);
        assert(square.ordered()) by {
            lattice_is_ordered(lattice, self.tile, self.clipping, i);
        }
        assert(out[a] == square);
        assert(is_on_node(squares[i], lattice.anchor, lattice.pitch()));
    }
}

/// Distinct origins give distinct fill.  Take two results placed on lattices of
/// one pitch, whichever coverage each search chose, with anchors that are not a
/// whole number of pitches apart in x, or are a whole number of double pitches
/// apart in x and not a whole number of pitches in y.  They have no square at the
/// same corner, so that they differ unless both are empty.
pub proof fn origins_move_the_fill(
    a: SquareSearch,
    b: SquareSearch,
    a_keepouts: Seq<KeepoutShape>,
    b_keepouts: Seq<KeepoutShape>,
    a_coverage: int,
    b_coverage: int,
)
    requires
        a.valid(),
        b.valid(),
        a.is_result_at(a_keepouts, a_coverage),
        b.is_result_at(b_keepouts, b_coverage),
        a.lattice(a_coverage).pitch() == b.lattice(b_coverage).pitch() > 0,
        ({
            let pitch = a.lattice(a_coverage).pitch();
            !in_step(b.anchor.x as int, a.anchor.x as int, pitch) || in_step(
                b.anchor.x as int,
                a.anchor.x as int,
                2 * pitch,
            ) && !in_step(b.anchor.y as int, a.anchor.y as int, pitch)
        }),
    ensures
        forall|i: int, j: int|
            0 <= i < a.result(a_keepouts).len() && 0 <= j < b.result(b_keepouts).len() ==> (#[trigger] a.result(
                a_keepouts,
            )[i]) != (#[trigger] b.result(b_keepouts)[j]),
        a.result(a_keepouts).len() > 0 || b.result(b_keepouts).len() > 0 ==> a.result(a_keepouts) != b.result(b_keepouts),
{
    let (r, s) = (a.result(a_keepouts), b.result(b_keepouts));
    assert forall|i: int, j: int| 0 <= i < r.len() && 0 <= j < s.len() implies (#[trigger] r[i]) != (
    #[trigger] s[j]) by {
        a.result_is_on_node(a_keepouts, a_coverage, i);
        b.result_is_on_node(b_keepouts, b_coverage, j);
        nodes_differ(r[i], s[j], a.anchor, b.anchor, a.lattice(a_coverage).pitch());
    }
    if r == s && r.len() > 0 {
        assert(r[0] != s[0]);
    }
}

} // verus!
