//! The checkerboard lattice of fill squares and its placement in a tile.

use crate::fill::are_fill_rects;
use crate::fill::is_fill_rect;
use crate::geom::max_i64;
use crate::geom::max_of;
use crate::geom::min_i64;
use crate::geom::min_of;
use crate::geom::Point;
use crate::geom::Rect;
use crate::num::floor_div;
use crate::touch::any_touches;
use crate::touch::is_blocked;
use crate::touch::keepouts_in_reach;
use crate::touch::keepouts_of;
use crate::touch::Keepout;
use crate::touch::KeepoutShape;
use vstd::arithmetic::div_mod::lemma_fundamental_div_mod;
use vstd::prelude::*;

verus! {

/// A lattice of squares of side `size` with gaps `space`, anchored at a point.
/// Every second column is shifted by half a pitch, rounded up to a whole
/// database unit.
#[derive(Clone, Copy, Debug)]
pub struct Lattice {
    pub anchor: Point,
    pub size: i64,
    pub space: i64,
}

/// Largest lattice size or space.
pub const SIZE_LIMIT: i64 = 0x4_0000_0000;

impl Lattice {
    /// Sizes are even, not negative and bounded, and the pitch is positive.
    pub open spec fn valid(self) -> bool {
        &&& self.anchor.x as int <= 3 * crate::geom::COORD_LIMIT
        &&& self.anchor.y as int <= 3 * crate::geom::COORD_LIMIT
        &&& self.anchor.x as int >= -3 * crate::geom::COORD_LIMIT
        &&& self.anchor.y as int >= -3 * crate::geom::COORD_LIMIT
        &&& 0 <= self.size <= SIZE_LIMIT
        &&& 0 <= self.space <= SIZE_LIMIT
        &&& self.size % 2 == 0
    }

    pub open spec fn pitch(self) -> int {
        self.size + self.space
    }

    pub open spec fn half(self) -> int {
        self.size as int / 2
    }

    /// Half a pitch, rounded up to a whole database unit (two layout units).
    pub open spec fn drift(self) -> int {
        2 * ((self.pitch() + 3) / 4)
    }

    /// The x coordinate of the centres of column `k`.
    pub open spec fn cx(self, k: int) -> int {
        self.anchor.x + self.half() + k * self.pitch()
    }

    /// The y coordinate of the centre of square `m` in column `k`.
    pub open spec fn cy(self, k: int, m: int) -> int {
        self.anchor.y + self.half() + (if k % 2 == 1 {
            self.drift()
        } else {
            0
        }) + m * self.pitch()
    }

    /// Square `m` of column `k`.
    pub open spec fn square(self, k: int, m: int) -> Rect {
        Rect {
            x0: (self.cx(k) - self.half()) as i64,
            y0: (self.cy(k, m) - self.half()) as i64,
            x1: (self.cx(k) + self.half()) as i64,
            y1: (self.cy(k, m) + self.half()) as i64,
        }
    }

    /// How far a centre may lie beyond the upper tile edges.
    pub open spec fn extra(self, clipping: bool) -> int {
        if clipping {
            self.half()
        } else {
            0
        }
    }

    /// The first column with its centres right of the left tile edge.
    pub open spec fn first_column(self, tile: Rect) -> int {
        (tile.x0 - (self.anchor.x + self.half())) / self.pitch() + 1
    }

    /// The first square of column `k` with its centre above the lower tile edge.
    pub open spec fn first_row(self, tile: Rect, k: int) -> int {
        (tile.y0 - self.cy(k, 0)) / self.pitch() + 1
    }

    /// The squares of column `k` from `m` on, up to the upper tile edge.
    pub open spec fn column(self, tile: Rect, clipping: bool, k: int, m: int) -> Seq<Rect>
        decreases max_of(0, tile.y1 + self.extra(clipping) - self.cy(k, m) + 1),
    {
        if self.pitch() <= 0 || self.cy(k, m) > tile.y1 + self.extra(clipping) {
            Seq::empty()
        } else {
            proof {
                self.steps(k, m);
            }
            seq![self.square(k, m)] + self.column(tile, clipping, k, m + 1)
        }
    }

    /// The squares of the columns from `k` on, up to the right tile edge.
    pub open spec fn columns(self, tile: Rect, clipping: bool, k: int) -> Seq<Rect>
        decreases max_of(0, tile.x1 + self.extra(clipping) - self.cx(k) + 1),
    {
        if self.pitch() <= 0 || self.cx(k) > tile.x1 + self.extra(clipping) {
            Seq::empty()
        } else {
            proof {
                self.steps(k, 0);
            }
            self.column(tile, clipping, k, self.first_row(tile, k)) + self.columns(tile, clipping, k + 1)
        }
    }

    /// The squares of the lattice over a tile, column by column.
    pub open spec fn squares(self, tile: Rect, clipping: bool) -> Seq<Rect> {
        if self.pitch() <= 0 {
            Seq::empty()
        } else {
            self.columns(tile, clipping, self.first_column(tile))
        }
    }

    /// The next column and the next square are one pitch further.
    pub proof fn steps(self, k: int, m: int)
        ensures
            self.cx(k + 1) == self.cx(k) + self.pitch(),
            self.cy(k, m + 1) == self.cy(k, m) + self.pitch(),
    {
        assert((k + 1) * self.pitch() == k * self.pitch() + self.pitch()) by (nonlinear_arith);
        assert((m + 1) * self.pitch() == m * self.pitch() + self.pitch()) by (nonlinear_arith);
    }
}

/// `q` is the first multiple of `pitch` above `gap`.
proof fn first_above(gap: int, pitch: int)
    requires
        pitch > 0,
    ensures
        (gap / pitch + 1) * pitch > gap,
        (gap / pitch + 1) * pitch <= gap + pitch,
{
    lemma_fundamental_div_mod(gap, pitch);
    assert((gap / pitch + 1) * pitch == pitch * (gap / pitch) + pitch) by (nonlinear_arith);
}

/// All squares of the lattice over a tile whose centre lies right of the left
/// and above the lower edge, and not beyond the other two; with clipping, half
/// a square further.
pub fn iter_fill_positions(tile: &Rect, lattice: &Lattice, clipping: bool) -> (out: Vec<Rect>)
    requires
        lattice.valid(),
        tile.in_range(),
    ensures
        out@ == lattice.squares(*tile, clipping),
        are_fill_rects(out@),
{
    let mut out: Vec<Rect> = Vec::new();
    let pitch = lattice.size + lattice.space;
    if pitch <= 0 {
        return out;
    }
    let half = lattice.size / 2;
    let drift = 2 * ((pitch + 3) / 4);
    let extra: i64 = if clipping {
        half
    } else {
        0
    };
    let gap_x = tile.x0 - (lattice.anchor.x + half);
    proof {
        first_above(gap_x as int, pitch as int);
        assert(-0x4_0000_0000 <= (gap_x as int / pitch as int) <= 0x4_0000_0000) by (nonlinear_arith)
            requires
                pitch >= 1,
                -0x4_0000_0000 <= gap_x <= 0x4_0000_0000,
        ;
    }
    let k0 = floor_div(gap_x, pitch) + 1;
    let mut k = k0;
    let mut cx: i64 = lattice.anchor.x + half + k * pitch;
    let ghost whole = lattice.squares(*tile, clipping);
    assert(whole =~= out@ + lattice.columns(*tile, clipping, k as int));
    while cx <= tile.x1 + extra
        invariant
            lattice.valid(),
            tile.in_range(),
            pitch == lattice.pitch(),
            pitch > 0,
            half == lattice.half(),
            drift == lattice.drift(),
            extra == lattice.extra(clipping),
            cx == lattice.cx(k as int),
            tile.x0 < cx,
            cx <= tile.x1 + extra + pitch || cx <= tile.x0 + pitch,
            -0x8_0000_0000 <= k,
            k <= k0 + (cx - tile.x0),
            k0 <= 0x4_0000_0001,
            whole == lattice.squares(*tile, clipping),
            whole == out@ + lattice.columns(*tile, clipping, k as int),
            are_fill_rects(out@),
        decreases max_of(0, tile.x1 + extra - cx + 1),
    {
        proof {
            lattice.steps(k as int, 0);
        }
        let shift: i64 = if k - 2 * floor_div(k, 2) == 1 {
            drift
        } else {
            0
        };
        let base: i64 = lattice.anchor.y + half + shift;
        let gap_y = tile.y0 - base;
        proof {
            first_above(gap_y as int, pitch as int);
            assert(-0x8_0000_0000 <= (gap_y as int / pitch as int) <= 0x8_0000_0000) by (nonlinear_arith)
                requires
                    pitch >= 1,
                    -0x8_0000_0000 <= gap_y <= 0x8_0000_0000,
            ;
            assert(base == lattice.cy(k as int, 0));
        }
        let m0 = floor_div(gap_y, pitch) + 1;
        let mut cy: i64 = base + m0 * pitch;
        let ghost mut m = m0 as int;
        let ghost start = out@;
        let ghost col = lattice.column(*tile, clipping, k as int, m0 as int);
        assert(start + col =~= out@ + col);
        while cy <= tile.y1 + extra
            invariant
                lattice.valid(),
                tile.in_range(),
                pitch == lattice.pitch(),
                pitch > 0,
                half == lattice.half(),
                extra == lattice.extra(clipping),
                cx == lattice.cx(k as int),
                tile.x0 < cx <= tile.x1 + extra,
                cy == lattice.cy(k as int, m),
                tile.y0 < cy,
                cy <= tile.y1 + extra + pitch || cy <= tile.y0 + pitch,
                start + col == out@ + lattice.column(*tile, clipping, k as int, m),
                are_fill_rects(out@),
            decreases max_of(0, tile.y1 + extra - cy + 1),
        {
            let r = Rect { x0: cx - half, y0: cy - half, x1: cx + half, y1: cy + half };
            let ghost before = out@;
            out.push(r);
            proof {
                lattice.steps(k as int, m);
                assert(r == lattice.square(k as int, m));
                assert(out@ + lattice.column(*tile, clipping, k as int, m + 1) =~= before + lattice.column(
                    *tile,
                    clipping,
                    k as int,
                    m,
                ));
                m = m + 1;
            }
            cy = cy + pitch;
        }
        proof {
            assert(lattice.column(*tile, clipping, k as int, m) =~= Seq::empty());
            assert(out@ =~= start + col);
            assert(whole =~= out@ + lattice.columns(*tile, clipping, k + 1));
        }
        k = k + 1;
        cx = cx + pitch;
    }
    assert(lattice.columns(*tile, clipping, k as int) =~= Seq::empty());
    assert(out@ =~= whole);
    out
}

/// A rectangle cut at the edges of a tile.
pub open spec fn clipped(r: Rect, tile: Rect) -> Rect {
    let (ax, bx) = (max_of(r.x0 as int, tile.x0 as int), min_of(r.x1 as int, tile.x1 as int));
    let (ay, by) = (max_of(r.y0 as int, tile.y0 as int), min_of(r.y1 as int, tile.y1 as int));
    Rect {
        x0: min_of(ax, bx) as i64,
        y0: min_of(ay, by) as i64,
        x1: max_of(ax, bx) as i64,
        y1: max_of(ay, by) as i64,
    }
}

/// Cut a rectangle at the edges of a tile.
pub fn clip_to_tile(r: &Rect, tile: &Rect) -> (out: Rect)
    ensures
        out == clipped(*r, *tile),
{
    Rect::new(max_i64(r.x0, tile.x0), max_i64(r.y0, tile.y0), min_i64(r.x1, tile.x1), min_i64(r.y1, tile.y1))
}

/// The centre of `r` lies in the tile.
pub open spec fn centered_in(tile: Rect, r: Rect) -> bool {
    2 * tile.x0 <= r.x0 + r.x1 <= 2 * tile.x1 && 2 * tile.y0 <= r.y0 + r.y1 <= 2 * tile.y1
}

/// `fill` may be placed: its centre lies in the tile, without clipping all of
/// it does, and it touches no keep-out.
pub open spec fn valid_placement(tile: Rect, fill: Rect, keepouts: Seq<KeepoutShape>, clipping: bool) -> bool {
    &&& centered_in(tile, fill)
    &&& clipping || tile.spec_encloses(fill)
    &&& !is_blocked(keepouts, fill)
}

/// May `fill` be placed?
pub fn is_valid_placement(tile: &Rect, fill: &Rect, keepout: &Vec<Keepout>, clipping: bool) -> (b: bool)
    requires
        tile.in_range(),
        fill.in_reach(),
        keepouts_in_reach(keepouts_of(keepout@)),
    ensures
        b == valid_placement(*tile, *fill, keepouts_of(keepout@), clipping),
{
    let cx = fill.x0 + fill.x1;
    let cy = fill.y0 + fill.y1;
    if cx < 2 * tile.x0 || cx > 2 * tile.x1 || cy < 2 * tile.y0 || cy > 2 * tile.y1 {
        return false;
    }
    if !clipping && !tile.encloses(fill) {
        return false;
    }
    !any_touches(keepout, fill)
}

/// What becomes of a lattice square: the rectangle placed for it, if any.
pub open spec fn placed_for(
    tile: Rect,
    keepouts: Seq<KeepoutShape>,
    min_width: int,
    clipping: bool,
    square: Rect,
) -> Option<Rect> {
    let r = if clipping {
        clipped(square, tile)
    } else {
        square
    };
    if valid_placement(tile, square, keepouts, clipping) && r.width() >= min_width && r.height() >= min_width {
        Some(r)
    } else {
        None
    }
}

/// The rectangles placed for the first `n` squares.
pub open spec fn placed_squares(
    tile: Rect,
    keepouts: Seq<KeepoutShape>,
    min_width: int,
    clipping: bool,
    squares: Seq<Rect>,
    n: int,
) -> Seq<Rect>
    decreases n,
{
    if n <= 0 {
        Seq::empty()
    } else {
        let before = placed_squares(tile, keepouts, min_width, clipping, squares, n - 1);
        match placed_for(tile, keepouts, min_width, clipping, squares[n - 1]) {
            Some(r) => before.push(r),
            None => before,
        }
    }
}

/// The rectangles placed for the squares of a lattice.
pub open spec fn generated_fill(
    tile: Rect,
    keepouts: Seq<KeepoutShape>,
    lattice: Lattice,
    min_width: int,
    clipping: bool,
) -> Seq<Rect> {
    let squares = lattice.squares(tile, clipping);
    placed_squares(tile, keepouts, min_width, clipping, squares, squares.len() as int)
}

/// Place the squares of a lattice in a tile.  Squares that touch a keep-out
/// are left out; with clipping, squares are cut at the tile edges; what is
/// narrower than `min_width` is dropped.
pub fn generate_fill(tile: &Rect, keepout: &Vec<Keepout>, lattice: &Lattice, min_width: i64, clipping: bool) -> (out: Vec<
    Rect,
>)
    requires
        lattice.valid(),
        tile.in_range(),
        keepouts_in_reach(keepouts_of(keepout@)),
    ensures
        out@ == generated_fill(*tile, keepouts_of(keepout@), *lattice, min_width as int, clipping),
        are_fill_rects(out@),
{
    let squares = iter_fill_positions(tile, lattice, clipping);
    let ghost kos = keepouts_of(keepout@);
    let mut out: Vec<Rect> = Vec::new();
    let mut i: usize = 0;
    while i < squares.len()
        invariant
            i <= squares@.len(),
            tile.in_range(),
            kos == keepouts_of(keepout@),
            keepouts_in_reach(kos),
            are_fill_rects(squares@),
            out@ == placed_squares(*tile, kos, min_width as int, clipping, squares@, i as int),
            are_fill_rects(out@),
        decreases squares@.len() - i,
    {
        let square = squares[i];
        assert(is_fill_rect(squares@[i as int]));
        if is_valid_placement(tile, &square, keepout, clipping) {
            let r = if clipping {
                clip_to_tile(&square, tile)
            } else {
                square
            };
            if r.x1 - r.x0 >= min_width && r.y1 - r.y0 >= min_width {
                out.push(r);
            }
        }
        i = i + 1;
    }
    out
}

/// The rectangles are at least `gap` apart, in x or in y.
pub open spec fn apart(a: Rect, b: Rect, gap: int) -> bool {
    a.x1 + gap <= b.x0 || b.x1 + gap <= a.x0 || a.y1 + gap <= b.y0 || b.y1 + gap <= a.y0
}

/// Any two of the rectangles are at least `gap` apart.
pub open spec fn all_apart(rects: Seq<Rect>, gap: int) -> bool {
    forall|i: int, j: int| 0 <= i < j < rects.len() ==> apart(#[trigger] rects[i], #[trigger] rects[j], gap)
}

/// The squares of a column stand one above the other.
proof fn column_apart(lattice: Lattice, tile: Rect, clipping: bool, k: int, m: int)
    requires
        lattice.valid(),
        tile.in_range(),
        lattice.pitch() > 0,
        tile.x0 < lattice.cx(k) <= tile.x1 + lattice.extra(clipping),
        tile.y0 < lattice.cy(k, m),
    ensures
        all_apart(lattice.column(tile, clipping, k, m), lattice.space as int),
        forall|i: int|
            0 <= i < lattice.column(tile, clipping, k, m).len() ==> (#[trigger] lattice.column(tile, clipping, k, m)[i]).x0
                == lattice.cx(k) - lattice.half() && lattice.column(tile, clipping, k, m)[i].x1 == lattice.cx(k)
                + lattice.half() && lattice.column(tile, clipping, k, m)[i].y0 >= lattice.cy(k, m) - lattice.half(),
    decreases max_of(0, tile.y1 + lattice.extra(clipping) - lattice.cy(k, m) + 1),
{
    let col = lattice.column(tile, clipping, k, m);
    if lattice.cy(k, m) <= tile.y1 + lattice.extra(clipping) {
        lattice.steps(k, m);
        column_apart(lattice, tile, clipping, k, m + 1);
        let rest = lattice.column(tile, clipping, k, m + 1);
        assert(forall|i: int| 0 < i < col.len() ==> (#[trigger] col[i]) == rest[i - 1]);
        assert(col[0] == lattice.square(k, m));
        assert forall|i: int, j: int| 0 <= i < j < col.len() implies apart(
            #[trigger] col[i],
            #[trigger] col[j],
            lattice.space as int,
        ) by {
            if i > 0 {
                assert(apart(rest[i - 1], rest[j - 1], lattice.space as int));
            } else {
                assert(rest[j - 1].y0 >= lattice.cy(k, m + 1) - lattice.half());
            }
        }
    }
}

/// The squares of the columns from `k` on are apart and lie right of column `k - 1`.
proof fn columns_apart(lattice: Lattice, tile: Rect, clipping: bool, k: int)
    requires
        lattice.valid(),
        tile.in_range(),
        lattice.pitch() > 0,
        tile.x0 < lattice.cx(k),
    ensures
        all_apart(lattice.columns(tile, clipping, k), lattice.space as int),
        forall|i: int|
            0 <= i < lattice.columns(tile, clipping, k).len() ==> (#[trigger] lattice.columns(tile, clipping, k)[i]).x0
                >= lattice.cx(k) - lattice.half(),
    decreases max_of(0, tile.x1 + lattice.extra(clipping) - lattice.cx(k) + 1),
{
    let all = lattice.columns(tile, clipping, k);
    if lattice.cx(k) <= tile.x1 + lattice.extra(clipping) {
        lattice.steps(k, 0);
        let m0 = lattice.first_row(tile, k);
        first_above(tile.y0 - lattice.cy(k, 0), lattice.pitch());
        assert(lattice.cy(k, m0) == lattice.cy(k, 0) + m0 * lattice.pitch());
        column_apart(lattice, tile, clipping, k, m0);
        columns_apart(lattice, tile, clipping, k + 1);
        let col = lattice.column(tile, clipping, k, m0);
        let rest = lattice.columns(tile, clipping, k + 1);
        assert(forall|i: int| 0 <= i < col.len() ==> (#[trigger] all[i]) == col[i]);
        assert(forall|i: int| col.len() <= i < all.len() ==> (#[trigger] all[i]) == rest[i - col.len()]);
        assert forall|i: int| 0 <= i < all.len() implies (#[trigger] all[i]).x0 >= lattice.cx(k) - lattice.half() by {
            if i < col.len() {
                assert(col[i].x0 == lattice.cx(k) - lattice.half());
            } else {
                assert(rest[i - col.len()].x0 >= lattice.cx(k + 1) - lattice.half());
            }
        }
        assert forall|i: int, j: int| 0 <= i < j < all.len() implies apart(
            #[trigger] all[i],
            #[trigger] all[j],
            lattice.space as int,
        ) by {
            if j < col.len() {
                assert(apart(col[i], col[j], lattice.space as int));
            } else if i >= col.len() {
                assert(apart(rest[i - col.len()], rest[j - col.len()], lattice.space as int));
            } else {
                assert(col[i].x1 == lattice.cx(k) + lattice.half());
                assert(rest[j - col.len()].x0 >= lattice.cx(k + 1) - lattice.half());
            }
        }
    }
}

/// Any two squares of a lattice over a tile are at least `space` apart.
pub proof fn lattice_squares_apart(lattice: Lattice, tile: Rect, clipping: bool)
    requires
        lattice.valid(),
        tile.in_range(),
    ensures
        all_apart(lattice.squares(tile, clipping), lattice.space as int),
{
    if lattice.pitch() > 0 {
        let k0 = lattice.first_column(tile);
        first_above(tile.x0 - (lattice.anchor.x + lattice.half()), lattice.pitch());
        columns_apart(lattice, tile, clipping, k0);
    }
}

/// `r` is the rectangle placed for one of the first `n` squares.
pub open spec fn comes_from(
    tile: Rect,
    keepouts: Seq<KeepoutShape>,
    min_width: int,
    clipping: bool,
    squares: Seq<Rect>,
    n: int,
    r: Rect,
) -> bool {
    exists|i: int|
        0 <= i < n && #[trigger] placed_for(tile, keepouts, min_width, clipping, squares[i]) == Some(r)
}

proof fn placed_squares_apart(
    tile: Rect,
    keepouts: Seq<KeepoutShape>,
    min_width: int,
    clipping: bool,
    squares: Seq<Rect>,
    n: int,
    gap: int,
)
    requires
        0 <= n <= squares.len(),
        all_apart(squares, gap),
        gap >= 0,
        forall|i: int| 0 <= i < squares.len() ==> (#[trigger] squares[i]).ordered(),
        tile.ordered(),
    ensures
        all_apart(placed_squares(tile, keepouts, min_width, clipping, squares, n), gap),
        forall|a: int|
            0 <= a < placed_squares(tile, keepouts, min_width, clipping, squares, n).len() ==> comes_from(
                tile,
                keepouts,
                min_width,
                clipping,
                squares,
                n,
                #[trigger] placed_squares(tile, keepouts, min_width, clipping, squares, n)[a],
            ),
    decreases n,
{
    if n > 0 {
        placed_squares_apart(tile, keepouts, min_width, clipping, squares, n - 1, gap);
        let before = placed_squares(tile, keepouts, min_width, clipping, squares, n - 1);
        let out = placed_squares(tile, keepouts, min_width, clipping, squares, n);
        let last = placed_for(tile, keepouts, min_width, clipping, squares[n - 1]);
        assert(forall|a: int| 0 <= a < before.len() ==> (#[trigger] out[a]) == before[a]);
        assert forall|a: int| 0 <= a < out.len() implies comes_from(
            tile,
            keepouts,
            min_width,
            clipping,
            squares,
            n,
            #[trigger] out[a],
        ) by {
            if a < before.len() {
                assert(comes_from(tile, keepouts, min_width, clipping, squares, n - 1, before[a]));
                let i = choose|i: int|
                    0 <= i < n - 1 && #[trigger] placed_for(tile, keepouts, min_width, clipping, squares[i]) == Some(
                        before[a],
                    );
                assert(placed_for(tile, keepouts, min_width, clipping, squares[i]) == Some(out[a]));
            } else {
                assert(placed_for(tile, keepouts, min_width, clipping, squares[n - 1]) == Some(out[a]));
            }
        }
        assert forall|a: int, b: int| 0 <= a < b < out.len() implies apart(#[trigger] out[a], #[trigger] out[b], gap) by {
            if b < before.len() {
                assert(apart(before[a], before[b], gap));
            } else {
                assert(comes_from(tile, keepouts, min_width, clipping, squares, n - 1, before[a]));
                let i = choose|i: int|
                    0 <= i < n - 1 && #[trigger] placed_for(tile, keepouts, min_width, clipping, squares[i]) == Some(
                        before[a],
                    );
                assert(apart(squares[i], squares[n - 1], gap));
                assert(squares[i].ordered() && squares[n - 1].ordered());
            }
        }
    }
}

/// The squares of a lattice have ordered corners.
proof fn column_ordered(lattice: Lattice, tile: Rect, clipping: bool, k: int, m: int)
    requires
        lattice.valid(),
        tile.in_range(),
        lattice.pitch() > 0,
        tile.x0 < lattice.cx(k) <= tile.x1 + lattice.extra(clipping),
        tile.y0 < lattice.cy(k, m),
    ensures
        forall|i: int|
            0 <= i < lattice.column(tile, clipping, k, m).len() ==> (#[trigger] lattice.column(
                tile,
                clipping,
                k,
                m,
            )[i]).ordered(),
    decreases max_of(0, tile.y1 + lattice.extra(clipping) - lattice.cy(k, m) + 1),
{
    if lattice.cy(k, m) <= tile.y1 + lattice.extra(clipping) {
        lattice.steps(k, m);
        column_ordered(lattice, tile, clipping, k, m + 1);
        let col = lattice.column(tile, clipping, k, m);
        let rest = lattice.column(tile, clipping, k, m + 1);
        assert forall|i: int| 0 <= i < col.len() implies (#[trigger] col[i]).ordered() by {
            if i > 0 {
                assert(col[i] == rest[i - 1]);
            } else {
                assert(col[0] == lattice.square(k, m));
            }
        }
    }
}

proof fn columns_ordered(lattice: Lattice, tile: Rect, clipping: bool, k: int)
    requires
        lattice.valid(),
        tile.in_range(),
        lattice.pitch() > 0,
        tile.x0 < lattice.cx(k),
    ensures
        forall|i: int|
            0 <= i < lattice.columns(tile, clipping, k).len() ==> (#[trigger] lattice.columns(
                tile,
                clipping,
                k,
            )[i]).ordered(),
    decreases max_of(0, tile.x1 + lattice.extra(clipping) - lattice.cx(k) + 1),
{
    if lattice.cx(k) <= tile.x1 + lattice.extra(clipping) {
        lattice.steps(k, 0);
        let m0 = lattice.first_row(tile, k);
        first_above(tile.y0 - lattice.cy(k, 0), lattice.pitch());
        assert(lattice.cy(k, m0) == lattice.cy(k, 0) + m0 * lattice.pitch());
        column_ordered(lattice, tile, clipping, k, m0);
        columns_ordered(lattice, tile, clipping, k + 1);
        let all = lattice.columns(tile, clipping, k);
        let col = lattice.column(tile, clipping, k, m0);
        let rest = lattice.columns(tile, clipping, k + 1);
        assert forall|i: int| 0 <= i < all.len() implies (#[trigger] all[i]).ordered() by {
            if i < col.len() {
                assert(all[i] == col[i]);
            } else {
                assert(all[i] == rest[i - col.len()]);
            }
        }
    }
}

/// A placed rectangle lies in the tile, is at least `min_width` wide and high,
/// and is all or, with clipping, the part in the tile of a lattice square that
/// touches no keep-out.
pub open spec fn is_legal_fill(tile: Rect, keepouts: Seq<KeepoutShape>, min_width: int, clipping: bool, r: Rect) -> bool {
    &&& r.ordered()
    &&& tile.spec_encloses(r)
    &&& r.width() >= min_width
    &&& r.height() >= min_width
    &&& exists|square: Rect|
        !#[trigger] is_blocked(keepouts, square) && square.ordered() && centered_in(tile, square) && r == (
        if clipping {
            clipped(square, tile)
        } else {
            square
        })
}

/// Every rectangle of a generated fill is legal, and any two are at least the
/// lattice space apart.
pub proof fn generated_fill_is_legal(
    tile: Rect,
    keepouts: Seq<KeepoutShape>,
    lattice: Lattice,
    min_width: int,
    clipping: bool,
)
    requires
        lattice.valid(),
        tile.in_range(),
        tile.ordered(),
    ensures
        all_apart(generated_fill(tile, keepouts, lattice, min_width, clipping), lattice.space as int),
        forall|a: int|
            0 <= a < generated_fill(tile, keepouts, lattice, min_width, clipping).len() ==> is_legal_fill(
                tile,
                keepouts,
                min_width,
                clipping,
                #[trigger] generated_fill(tile, keepouts, lattice, min_width, clipping)[a],
            ),
{
    let squares = lattice.squares(tile, clipping);
    let n = squares.len() as int;
    lattice_squares_apart(lattice, tile, clipping);
    if lattice.pitch() > 0 {
        first_above(tile.x0 - (lattice.anchor.x + lattice.half()), lattice.pitch());
        columns_ordered(lattice, tile, clipping, lattice.first_column(tile));
    }
    placed_squares_apart(tile, keepouts, min_width, clipping, squares, n, lattice.space as int);
    let out = generated_fill(tile, keepouts, lattice, min_width, clipping);
    assert forall|a: int| 0 <= a < out.len() implies is_legal_fill(
        tile,
        keepouts,
        min_width,
        clipping,
        #[trigger] out[a],
    ) by {
        assert(comes_from(tile, keepouts, min_width, clipping, squares, n, out[a]));
        let i = choose|i: int|
            0 <= i < n && #[trigger] placed_for(tile, keepouts, min_width, clipping, squares[i]) == Some(out[a]);
        assert(squares[i].ordered());
        assert(!is_blocked(keepouts, squares[i]));
    }
}

/// `c` is a whole number of pitches from `a`.
pub open spec fn in_step(c: int, a: int, pitch: int) -> bool {
    (c - a) % pitch == 0
}

/// The lower left corner of the rectangle is node `k`, `m` of the lattices with
/// this anchor and pitch.
pub open spec fn on_node(r: Rect, anchor: Point, pitch: int, k: int, m: int) -> bool {
    &&& r.x0 == anchor.x + k * pitch
    &&& r.y0 == anchor.y + (if k % 2 == 1 {
        2 * ((pitch + 3) / 4)
    } else {
        0
    }) + m * pitch
}

/// The rectangle starts on some node.
pub open spec fn is_on_node(r: Rect, anchor: Point, pitch: int) -> bool {
    exists|k: int, m: int| on_node(r, anchor, pitch, k, m)
}

proof fn column_is_on_nodes(lattice: Lattice, tile: Rect, clipping: bool, k: int, m: int)
    requires
        lattice.valid(),
        tile.in_range(),
        lattice.pitch() > 0,
        tile.x0 < lattice.cx(k) <= tile.x1 + lattice.extra(clipping),
        tile.y0 < lattice.cy(k, m),
    ensures
        forall|i: int|
            0 <= i < lattice.column(tile, clipping, k, m).len() ==> is_on_node(
                #[trigger] lattice.column(tile, clipping, k, m)[i],
                lattice.anchor,
                lattice.pitch(),
            ),
    decreases max_of(0, tile.y1 + lattice.extra(clipping) - lattice.cy(k, m) + 1),
{
    let col = lattice.column(tile, clipping, k, m);
    if lattice.cy(k, m) <= tile.y1 + lattice.extra(clipping) {
        lattice.steps(k, m);
        column_is_on_nodes(lattice, tile, clipping, k, m + 1);
        let rest = lattice.column(tile, clipping, k, m + 1);
        assert(on_node(lattice.square(k, m), lattice.anchor, lattice.pitch(), k, m));
        assert forall|i: int| 0 <= i < col.len() implies is_on_node(
            #[trigger] col[i],
            lattice.anchor,
            lattice.pitch(),
        ) by {
            if i > 0 {
                assert(col[i] == rest[i - 1]);
            } else {
                assert(col[0] == lattice.square(k, m));
            }
        }
    }
}

proof fn columns_are_on_nodes(lattice: Lattice, tile: Rect, clipping: bool, k: int)
    requires
        lattice.valid(),
        tile.in_range(),
        lattice.pitch() > 0,
        tile.x0 < lattice.cx(k),
    ensures
        forall|i: int|
            0 <= i < lattice.columns(tile, clipping, k).len() ==> is_on_node(
                #[trigger] lattice.columns(tile, clipping, k)[i],
                lattice.anchor,
                lattice.pitch(),
            ),
    decreases max_of(0, tile.x1 + lattice.extra(clipping) - lattice.cx(k) + 1),
{
    let all = lattice.columns(tile, clipping, k);
    if lattice.cx(k) <= tile.x1 + lattice.extra(clipping) {
        lattice.steps(k, 0);
        let m0 = lattice.first_row(tile, k);
        first_above(tile.y0 - lattice.cy(k, 0), lattice.pitch());
        column_is_on_nodes(lattice, tile, clipping, k, m0);
        columns_are_on_nodes(lattice, tile, clipping, k + 1);
        let col = lattice.column(tile, clipping, k, m0);
        let rest = lattice.columns(tile, clipping, k + 1);
        assert forall|i: int| 0 <= i < all.len() implies is_on_node(
            #[trigger] all[i],
            lattice.anchor,
            lattice.pitch(),
        ) by {
            if i < col.len() {
                assert(all[i] == col[i]);
            } else {
                assert(all[i] == rest[i - col.len()]);
            }
        }
    }
}

/// Squares of a lattice start on its nodes.
pub proof fn squares_are_on_nodes(lattice: Lattice, tile: Rect, clipping: bool)
    requires
        lattice.valid(),
        tile.in_range(),
        lattice.pitch() > 0,
    ensures
        forall|i: int|
            0 <= i < lattice.squares(tile, clipping).len() ==> is_on_node(
                #[trigger] lattice.squares(tile, clipping)[i],
                lattice.anchor,
                lattice.pitch(),
            ),
{
    first_above(tile.x0 - (lattice.anchor.x + lattice.half()), lattice.pitch());
    columns_are_on_nodes(lattice, tile, clipping, lattice.first_column(tile));
}

proof fn same_multiple(a: int, b: int, pitch: int, d: int)
    requires
        pitch > 0,
        a * pitch == d + b * pitch,
    ensures
        d == (a - b) * pitch,
        d % pitch == 0,
{
    assert(d == (a - b) * pitch) by (nonlinear_arith)
        requires
            a * pitch == d + b * pitch,
    ;
    vstd::arithmetic::div_mod::lemma_mod_multiples_basic(a - b, pitch);
}

/// Lattices of one pitch share no node if their anchors are not in step in x,
/// nor if they are a whole number of double pitches apart in x and not in step
/// in y.
pub proof fn nodes_differ(r: Rect, s: Rect, a: Point, b: Point, pitch: int)
    requires
        pitch > 0,
        is_on_node(r, a, pitch),
        is_on_node(s, b, pitch),
        !in_step(b.x as int, a.x as int, pitch) || in_step(b.x as int, a.x as int, 2 * pitch) && !in_step(
            b.y as int,
            a.y as int,
            pitch,
        ),
    ensures
        (r.x0, r.y0) != (s.x0, s.y0),
{
    let (k, m) = choose|k: int, m: int| on_node(r, a, pitch, k, m);
    let (j, n) = choose|j: int, n: int| on_node(s, b, pitch, j, n);
    if r.x0 == s.x0 && r.y0 == s.y0 {
        let d = b.x - a.x;
        same_multiple(k, j, pitch, d);
        lemma_fundamental_div_mod(d, 2 * pitch);
        let h = d / (2 * pitch);
        assert(k - j == 2 * h) by (nonlinear_arith)
            requires
                d == (k - j) * pitch,
                d == (2 * pitch) * h,
                pitch > 0,
        ;
        assert(k % 2 == j % 2);
        same_multiple(m, n, pitch, b.y - a.y);
    }
}

/// Every rectangle of a generated fill is placed for a square of the lattice.
pub proof fn generated_comes_from(
    tile: Rect,
    keepouts: Seq<KeepoutShape>,
    lattice: Lattice,
    min_width: int,
    clipping: bool,
    a: int,
)
    requires
        lattice.valid(),
        tile.in_range(),
        tile.ordered(),
        0 <= a < generated_fill(tile, keepouts, lattice, min_width, clipping).len(),
    ensures
        ({
            let squares = lattice.squares(tile, clipping);
            comes_from(
                tile,
                keepouts,
                min_width,
                clipping,
                squares,
                squares.len() as int,
                generated_fill(tile, keepouts, lattice, min_width, clipping)[a],
            )
        }),
{
    let squares = lattice.squares(tile, clipping);
    lattice_squares_apart(lattice, tile, clipping);
    if lattice.pitch() > 0 {
        first_above(tile.x0 - (lattice.anchor.x + lattice.half()), lattice.pitch());
        columns_ordered(lattice, tile, clipping, lattice.first_column(tile));
    }
    placed_squares_apart(tile, keepouts, min_width, clipping, squares, squares.len() as int, lattice.space as int);
}

/// The squares of a lattice over a tile have ordered corners.
pub proof fn lattice_is_ordered(lattice: Lattice, tile: Rect, clipping: bool, i: int)
    requires
        lattice.valid(),
        tile.in_range(),
        0 <= i < lattice.squares(tile, clipping).len(),
    ensures
        lattice.squares(tile, clipping)[i].ordered(),
{
    first_above(tile.x0 - (lattice.anchor.x + lattice.half()), lattice.pitch());
    columns_ordered(lattice, tile, clipping, lattice.first_column(tile));
}

} // verus!
