//! Track fill: rectangles on the routing tracks of the digital core.

use crate::fill::are_fill_rects;
use crate::fill::fill_area;
use crate::fill::lattice::all_apart;
use crate::fill::lattice::apart;
use crate::fill::measure;
use crate::fill::overlap::clamp_between;
use crate::fill::overlap::round_down;
use crate::fill::overlap::round_near;
use crate::fill::sizing::round_up;
use crate::fill::sizing::snap_up;
use crate::fill::TileCtx;
use crate::geom::abs_of;
use crate::geom::bounds;
use crate::geom::bounds_in_range;
use crate::geom::max_i64;
use crate::geom::max_of;
use crate::geom::min_i64;
use crate::geom::min_of;
use crate::geom::shapes_in_range;
use crate::geom::shapes_of;
use crate::geom::Point;
use crate::geom::Polygon;
use crate::geom::Rect;
use crate::geom::Shape;
use crate::num::floor_div;
use crate::num::floor_div_wide;
use crate::pdk::is_length;
use crate::pdk::to_units;
use crate::pdk::units_bounds;
use crate::pdk::units_of;
use crate::pdk::FRACTION_LIMIT;
use crate::pdk::FRACTION_ONE;
use crate::pdk::FULL;
use crate::pdk::TrackOrientation;
use crate::pdk::TrackParams;
use crate::touch::any_touches;
use crate::touch::copy_keepouts;
use crate::touch::is_blocked;
use crate::touch::keepouts_in_reach;
use crate::touch::keepouts_of;
use crate::touch::rect_keepout;
use crate::touch::Keepout;
use crate::touch::KeepoutShape;
use vstd::arithmetic::div_mod::lemma_fundamental_div_mod;
use vstd::prelude::*;

verus! {

/// The smallest integer that is at least `a / b`.
pub open spec fn ceil_div(a: int, b: int) -> int {
    -((-a) / b)
}

/// Bounds and pitches of a track fill, in layout units.
#[derive(Clone, Copy, Debug)]
pub struct TrackGrid {
    pub gaps: i64,
    pub min_space: i64,
    /// Least and greatest size, on the step grid.
    pub min_size: i64,
    pub max_size: i64,
    pub step: i64,
    pub orientation: TrackOrientation,
}

/// One grid of candidate centres: first centre, limit of the upper edges,
/// pitch and half size, in x and y.
#[derive(Clone, Copy, Debug)]
pub struct Sweep {
    pub x: i64,
    pub x_limit: i64,
    pub pitch_x: i64,
    pub half_x: i64,
    pub y: i64,
    pub y_limit: i64,
    pub pitch_y: i64,
    pub half_y: i64,
}

/// The keep-outs together with the placed rectangles grown by `space`.
pub open spec fn with_placed(keepouts: Seq<KeepoutShape>, placed: Seq<Rect>, space: int) -> Seq<KeepoutShape> {
    keepouts + placed.map_values(|p: Rect| rect_keepout(p.spec_grown(space)))
}

impl Sweep {
    /// Pitches are positive and all values bounded.
    pub open spec fn valid(self) -> bool {
        &&& 0 < self.pitch_x <= 0x8_0000_0000
        &&& 0 < self.pitch_y <= 0x8_0000_0000
        &&& 0 <= self.half_x <= 0x2_0000_0000
        &&& 0 <= self.half_y <= 0x2_0000_0000
        &&& -0x10_0000_0000 <= self.x <= 0x10_0000_0000
        &&& -0x10_0000_0000 <= self.y <= 0x10_0000_0000
        &&& -0x10_0000_0000 <= self.x_limit <= 0x10_0000_0000
        &&& -0x10_0000_0000 <= self.y_limit <= 0x10_0000_0000
    }

    /// The candidate with the given centre.
    pub open spec fn candidate(self, cx: int, cy: int) -> Rect {
        Rect {
            x0: (cx - self.half_x) as i64,
            y0: (cy - self.half_y) as i64,
            x1: (cx + self.half_x) as i64,
            y1: (cy + self.half_y) as i64,
        }
    }

    /// What is placed after the candidates of the column at `cx` from `cy` on:
    /// each one that keeps `space` from what is placed and touches no keep-out.
    pub open spec fn after_column(
        self,
        keepouts: Seq<KeepoutShape>,
        space: int,
        placed: Seq<Rect>,
        cx: int,
        cy: int,
    ) -> Seq<Rect>
        decreases max_of(0, self.y_limit - self.half_y - cy + 1),
    {
        if self.pitch_y <= 0 || cy + self.half_y > self.y_limit {
            placed
        } else {
            let r = self.candidate(cx, cy);
            let next = if is_blocked(with_placed(keepouts, placed, space), r) {
                placed
            } else {
                placed.push(r)
            };
            self.after_column(keepouts, space, next, cx, cy + self.pitch_y)
        }
    }

    /// What is placed after the columns from `cx` on.
    pub open spec fn after_columns(
        self,
        keepouts: Seq<KeepoutShape>,
        space: int,
        placed: Seq<Rect>,
        cx: int,
    ) -> Seq<Rect>
        decreases max_of(0, self.x_limit - self.half_x - cx + 1),
    {
        if self.pitch_x <= 0 || cx + self.half_x > self.x_limit {
            placed
        } else {
            let next = self.after_column(keepouts, space, placed, cx, self.y as int);
            self.after_columns(keepouts, space, next, cx + self.pitch_x)
        }
    }

    /// What is placed after the sweep.
    pub open spec fn after(self, keepouts: Seq<KeepoutShape>, space: int, placed: Seq<Rect>) -> Seq<Rect> {
        self.after_columns(keepouts, space, placed, self.x as int)
    }

    /// Place the candidates of the sweep.
    fn run(&self, placed: &mut Vec<Rect>, local: &mut Vec<Keepout>, space: i64, Ghost(keepouts): Ghost<
        Seq<KeepoutShape>,
    >)
        requires
            self.valid(),
            0 <= space <= 0x8000_0001,
            are_fill_rects(old(placed)@),
            keepouts_in_reach(keepouts_of(old(local)@)),
            keepouts_of(old(local)@) == with_placed(keepouts, old(placed)@, space as int),
        ensures
            are_fill_rects(final(placed)@),
            keepouts_in_reach(keepouts_of(final(local)@)),
            keepouts_of(final(local)@) == with_placed(keepouts, final(placed)@, space as int),
            final(placed)@ == self.after(keepouts, space as int, old(placed)@),
    {
        let ghost goal = self.after(keepouts, space as int, placed@);
        let mut cx = self.x;
        while cx + self.half_x <= self.x_limit
            invariant
                self.valid(),
                0 <= space <= 0x8000_0001,
                are_fill_rects(placed@),
                keepouts_in_reach(keepouts_of(local@)),
                keepouts_of(local@) == with_placed(keepouts, placed@, space as int),
                goal == self.after_columns(keepouts, space as int, placed@, cx as int),
                -0x10_0000_0000 <= cx <= 0x20_0000_0000,
            decreases max_of(0, self.x_limit - self.half_x - cx + 1),
        {
            let mut cy = self.y;
            let ghost col = self.after_column(keepouts, space as int, placed@, cx as int, cy as int);
            while cy + self.half_y <= self.y_limit
                invariant
                    self.valid(),
                    0 <= space <= 0x8000_0001,
                    are_fill_rects(placed@),
                    keepouts_in_reach(keepouts_of(local@)),
                    keepouts_of(local@) == with_placed(keepouts, placed@, space as int),
                    col == self.after_column(keepouts, space as int, placed@, cx as int, cy as int),
                    -0x10_0000_0000 <= cx <= 0x20_0000_0000,
                    -0x10_0000_0000 <= cy <= 0x20_0000_0000,
                decreases max_of(0, self.y_limit - self.half_y - cy + 1),
            {
                let r = Rect {
                    x0: cx - self.half_x,
                    y0: cy - self.half_y,
                    x1: cx + self.half_x,
                    y1: cy + self.half_y,
                };
                if !any_touches(local, &r) {
                    let ghost before = placed@;
                    let ghost kos = keepouts_of(local@);
                    let grown = Rect { x0: r.x0 - space, y0: r.y0 - space, x1: r.x1 + space, y1: r.y1 + space };
                    local.push(Keepout::of_rect(grown));
                    placed.push(r);
                    proof {
                        assert(grown == r.spec_grown(space as int));
                        assert(keepouts_of(local@) =~= kos.push(rect_keepout(grown)));
                        assert(with_placed(keepouts, placed@, space as int) =~= with_placed(
                            keepouts,
                            before,
                            space as int,
                        ).push(rect_keepout(grown)));
                    }
                }
                cy = cy + self.pitch_y;
            }
            cx = cx + self.pitch_x;
        }
    }
}

/// The bounding boxes of the first `n` shapes that have points.
pub open spec fn boxes_of(shapes: Seq<Shape>, n: int) -> Seq<Rect>
    decreases n,
{
    if n <= 0 {
        Seq::empty()
    } else if shapes[n - 1].exterior.len() == 0 {
        boxes_of(shapes, n - 1)
    } else {
        boxes_of(shapes, n - 1).push(bounds(shapes[n - 1].exterior))
    }
}

/// The bounding boxes of polygons that have points.
fn collect_boxes(polys: &[Polygon]) -> (out: Vec<Rect>)
    requires
        shapes_in_range(shapes_of(polys@)),
    ensures
        out@ == boxes_of(shapes_of(polys@), polys@.len() as int),
        forall|i: int| 0 <= i < out@.len() ==> (#[trigger] out@[i]).in_range() && out@[i].ordered(),
{
    let ghost shapes = shapes_of(polys@);
    let mut out: Vec<Rect> = Vec::new();
    let mut i: usize = 0;
    while i < polys.len()
        invariant
            i <= polys@.len(),
            shapes == shapes_of(polys@),
            shapes_in_range(shapes),
            out@ == boxes_of(shapes, i as int),
            forall|k: int| 0 <= k < out@.len() ==> (#[trigger] out@[k]).in_range() && out@[k].ordered(),
        decreases polys@.len() - i,
    {
        assert(shapes[i as int] == polys@[i as int]@);
        assert(shapes[i as int].in_range());
        if let Some(b) = polys[i].bounding_rect() {
            proof {
                bounds_in_range(shapes[i as int].exterior);
            }
            out.push(b);
        }
        i = i + 1;
    }
    out
}

/// A size is new if it is more than half a step from the last one of the list.
pub open spec fn is_new_size(sizes: Seq<i64>, s: int, step: int) -> bool {
    sizes.len() == 0 || 2 * abs_of(sizes.last() - s) > step
}

impl TrackGrid {
    /// The grid of the given parameters.
    pub open spec fn of(tp: TrackParams, ctx: TileCtx) -> TrackGrid {
        let db = ctx.db_unit_nm as int;
        TrackGrid {
            gaps: units_of(tp.gaps as int, db) as i64,
            min_space: units_of(tp.min_space as int, db) as i64,
            min_size: round_up(units_of(tp.min_width as int, db), ctx.step()) as i64,
            max_size: round_down(units_of(tp.max_width as int, db), ctx.step()) as i64,
            step: ctx.step() as i64,
            orientation: tp.orientation,
        }
    }

    /// Sizes and pitches are positive, ordered and bounded.
    pub open spec fn valid(self) -> bool {
        &&& 0 < self.gaps <= 0x8000_0001
        &&& 0 <= self.min_space <= 0x8000_0001
        &&& 0 < self.min_size <= self.max_size <= 0x8000_0001
        &&& 0 < self.step <= 0x1_0000_0000
    }

    /// A size across the tracks: a number of tracks on the step grid.
    pub open spec fn track_size(self, tracks: int) -> int {
        clamp_between(round_near(tracks * self.gaps, self.step as int), self.min_size as int, self.max_size as int)
    }

    /// The sizes across the tracks for the first `n` fractions.
    pub open spec fn frac_sizes(self, fracs: Seq<i64>, n_max: int, n: int) -> Seq<i64>
        decreases n,
    {
        if n <= 0 {
            Seq::empty()
        } else {
            let before = self.frac_sizes(fracs, n_max, n - 1);
            let tracks = (fracs[n - 1] * n_max) / (FRACTION_ONE as int);
            let s = self.track_size(tracks);
            if tracks >= 1 && is_new_size(before, s, self.step as int) {
                before.push(s as i64)
            } else {
                before
            }
        }
    }

    /// All sizes across the tracks, with the least one last.
    pub open spec fn perp_sizes(self, fracs: Seq<i64>, n_max: int) -> Seq<i64> {
        let v = self.frac_sizes(fracs, n_max, fracs.len() as int);
        if is_new_size(v, self.min_size as int, self.step as int) {
            v.push(self.min_size)
        } else {
            v
        }
    }

    /// The sizes along the tracks for the first `n` heights.
    pub open spec fn free_sizes(self, heights: Seq<i64>, db_unit: int, n: int) -> Seq<i64>
        decreases n,
    {
        if n <= 0 {
            Seq::empty()
        } else {
            let before = self.free_sizes(heights, db_unit, n - 1);
            let s = clamp_between(
                round_near(units_of(heights[n - 1] as int, db_unit), self.step as int),
                self.min_size as int,
                self.max_size as int,
            );
            if is_new_size(before, s, self.step as int) {
                before.push(s as i64)
            } else {
                before
            }
        }
    }

    /// Tracks per pitch across the tracks, for a size.
    pub open spec fn tracks_per_pitch(self, perp: int) -> int {
        ceil_div(perp + self.min_space, self.gaps as int)
    }

    /// Track offset number `i`.
    pub open spec fn offset(self, i: int) -> int {
        i * self.gaps
    }

    /// The sweep of a core box in a tile, `None` if there is no room for one
    /// candidate.
    pub open spec fn sweep(self, tile: Rect, core: Rect, phase: Point, free: int, perp: int, offset: int) -> Option<Sweep> {
        let bx0 = max_of(core.x0 as int, tile.x0 as int);
        let by0 = max_of(core.y0 as int, tile.y0 as int);
        let bx1 = min_of(core.x1 as int, tile.x1 as int);
        let by1 = min_of(core.y1 as int, tile.y1 as int);
        let pitch_free = free + self.min_space;
        let pitch_perp = self.tracks_per_pitch(perp) * self.gaps;
        let (pitch_x, pitch_y, half_x, half_y) = match self.orientation {
            TrackOrientation::Vertical => (pitch_perp, pitch_free, perp / 2, free / 2),
            TrackOrientation::Horizontal => (pitch_free, pitch_perp, free / 2, perp / 2),
        };
        let (anchor_x, anchor_y) = match self.orientation {
            TrackOrientation::Vertical => (phase.x + offset, phase.y + free / 2),
            TrackOrientation::Horizontal => (phase.x + free / 2, phase.y + offset),
        };
        let (x_limit, y_limit) = match self.orientation {
            TrackOrientation::Vertical => (bx1, by1 - self.min_space),
            TrackOrientation::Horizontal => (bx1 - self.min_space, by1),
        };
        if bx1 - bx0 < 2 * half_x || by1 - by0 < 2 * half_y {
            None
        } else {
            Some(
                Sweep {
                    x: (anchor_x + ceil_div(bx0 + half_x - anchor_x, pitch_x) * pitch_x) as i64,
                    x_limit: x_limit as i64,
                    pitch_x: pitch_x as i64,
                    half_x: half_x as i64,
                    y: (anchor_y + ceil_div(by0 + half_y - anchor_y, pitch_y) * pitch_y) as i64,
                    y_limit: y_limit as i64,
                    pitch_y: pitch_y as i64,
                    half_y: half_y as i64,
                },
            )
        }
    }
}

/// ceil(a / b) for positive `b`.
fn ceil_div_i64(a: i64, b: i64) -> (q: i64)
    requires
        b > 0,
        a > i64::MIN,
    ensures
        q == ceil_div(a as int, b as int),
{
    proof {
        lemma_fundamental_div_mod(-a as int, b as int);
        let d = (-a) as int / b as int;
        assert(d > i64::MIN) by (nonlinear_arith)
            requires
                d == (-a) / (b as int),
                b >= 1,
                i64::MIN < a,
                a <= i64::MAX,
        ;
    }
    -floor_div(-a, b)
}

/// The first multiple of the pitch from an anchor that reaches `start`.
pub proof fn ceil_div_bounds(gap: int, pitch: int)
    requires
        pitch > 0,
    ensures
        gap <= ceil_div(gap, pitch) * pitch < gap + pitch,
{
    lemma_fundamental_div_mod(-gap, pitch);
    let d = (-gap) / pitch;
    assert((-d) * pitch == -(pitch * d)) by (nonlinear_arith);
}

/// The multiple of `step` nearest to `length`.
fn snap_near(length: i128, step: i64) -> (r: i128)
    requires
        -0x1_0000_0000_0000_0000_0000_0000 <= length <= 0x1_0000_0000_0000_0000_0000_0000,
        0 < step <= 0x1_0000_0000,
    ensures
        r == round_near(length as int, step as int),
{
    let q = floor_div_wide(2 * length + step as i128, 2 * step as i128);
    proof {
        let (l, t) = (length as int, step as int);
        lemma_fundamental_div_mod(2 * l + t, 2 * t);
        assert(-0x4_0000_0000_0000_0000_0000_0000 <= q * t <= 0x4_0000_0000_0000_0000_0000_0000) by (nonlinear_arith)
            requires
                2 * l + t == (2 * t) * q + (2 * l + t) % (2 * t),
                0 <= (2 * l + t) % (2 * t) < 2 * t,
                0 < t <= 0x1_0000_0000,
                -0x1_0000_0000_0000_0000_0000_0000 <= l <= 0x1_0000_0000_0000_0000_0000_0000,
        ;
    }
    q * step as i128
}

impl TrackGrid {
    /// Keep a size within the bounds.
    fn clamp_size(&self, s: i128) -> (r: i64)
        requires
            self.valid(),
        ensures
            r == clamp_between(s as int, self.min_size as int, self.max_size as int),
    {
        if s < self.min_size as i128 {
            self.min_size
        } else if s > self.max_size as i128 {
            self.max_size
        } else {
            s as i64
        }
    }

    /// Is the size more than half a step from the last one?
    fn test_new(&self, sizes: &Vec<i64>, s: i64) -> (b: bool)
        requires
            self.valid(),
            self.min_size <= s <= self.max_size,
            sizes_in_bounds(sizes@, self.min_size as int, self.max_size as int),
        ensures
            b == is_new_size(sizes@, s as int, self.step as int),
    {
        let n = sizes.len();
        if n == 0 {
            return true;
        }
        let last = sizes[n - 1];
        assert(self.min_size <= sizes@[n - 1] <= self.max_size);
        let diff: i64 = if last >= s {
            last - s
        } else {
            s - last
        };
        2 * diff > self.step
    }

    /// All sizes across the tracks.
    pub fn list_perp_sizes(&self, fracs: &Vec<i64>, n_max: i64) -> (v: Vec<i64>)
        requires
            self.valid(),
            0 <= n_max <= 0x4000_0000,
            forall|i: int| 0 <= i < fracs@.len() ==> -FRACTION_LIMIT <= #[trigger] fracs@[i] <= FRACTION_LIMIT,
        ensures
            v@ == self.perp_sizes(fracs@, n_max as int),
            sizes_in_bounds(v@, self.min_size as int, self.max_size as int),
            v@.len() > 0,
    {
        let mut v: Vec<i64> = Vec::new();
        let mut i: usize = 0;
        while i < fracs.len()
            invariant
                self.valid(),
                0 <= n_max <= 0x4000_0000,
                forall|i: int| 0 <= i < fracs@.len() ==> -FRACTION_LIMIT <= #[trigger] fracs@[i] <= FRACTION_LIMIT,
                i <= fracs@.len(),
                v@ == self.frac_sizes(fracs@, n_max as int, i as int),
                sizes_in_bounds(v@, self.min_size as int, self.max_size as int),
            decreases fracs@.len() - i,
        {
            let f = fracs[i];
            assert(-FRACTION_LIMIT <= fracs@[i as int] <= FRACTION_LIMIT);
            proof {
                assert(-0x4_0000_0000_0000 <= f * n_max <= 0x4_0000_0000_0000) by (nonlinear_arith)
                    requires
                        -0x10_0000 <= f <= 0x10_0000,
                        0 <= n_max <= 0x4000_0000,
                ;
            }
            let tracks = floor_div(f * n_max, FRACTION_ONE);
            if tracks >= 1 {
                proof {
                    assert(0 <= tracks * self.gaps <= 0x4_0000_0000_0000 * 0x8000_0001) by (nonlinear_arith)
                        requires
                            1 <= tracks <= 0x4_0000_0000_0000,
                            0 < self.gaps <= 0x8000_0001,
                    ;
                }
                let s = self.clamp_size(snap_near(tracks as i128 * self.gaps as i128, self.step));
                if self.test_new(&v, s) {
                    v.push(s);
                }
            }
            i = i + 1;
        }
        if self.test_new(&v, self.min_size) {
            v.push(self.min_size);
        }
        v
    }

    /// All sizes along the tracks.
    fn list_free_sizes(&self, heights: &Vec<i64>, db_unit: i64) -> (v: Vec<i64>)
        requires
            self.valid(),
            is_length(db_unit as int),
            db_unit > 0,
            forall|i: int| 0 <= i < heights@.len() ==> is_length(#[trigger] heights@[i] as int),
        ensures
            v@ == self.free_sizes(heights@, db_unit as int, heights@.len() as int),
            sizes_in_bounds(v@, self.min_size as int, self.max_size as int),
    {
        let mut v: Vec<i64> = Vec::new();
        let mut i: usize = 0;
        while i < heights.len()
            invariant
                self.valid(),
                is_length(db_unit as int),
                db_unit > 0,
                forall|i: int| 0 <= i < heights@.len() ==> is_length(#[trigger] heights@[i] as int),
                i <= heights@.len(),
                v@ == self.free_sizes(heights@, db_unit as int, i as int),
                sizes_in_bounds(v@, self.min_size as int, self.max_size as int),
            decreases heights@.len() - i,
        {
            assert(is_length(heights@[i as int] as int));
            let s = self.clamp_size(snap_near(to_units(heights[i], db_unit) as i128, self.step));
            if self.test_new(&v, s) {
                v.push(s);
            }
            i = i + 1;
        }
        v
    }

    pub proof fn pitch_in_bounds(self, perp: int)
        requires
            self.valid(),
            0 < perp <= 0x8000_0001,
        ensures
            1 <= self.tracks_per_pitch(perp) <= 0x1_0000_0002,
            perp + self.min_space <= self.tracks_per_pitch(perp) * self.gaps < perp + self.min_space + self.gaps,
    {
        let gap = perp + self.min_space;
        ceil_div_bounds(gap, self.gaps as int);
        let q = self.tracks_per_pitch(perp);
        assert(1 <= q <= 0x1_0000_0002) by (nonlinear_arith)
            requires
                gap <= q * self.gaps < gap + self.gaps,
                0 < gap <= 0x1_0000_0002,
                self.gaps >= 1,
        ;
    }

    /// The sweep of a core box in a tile.
    fn make_sweep(&self, tile: &Rect, core: &Rect, phase: &Point, free: i64, perp: i64, offset: i64) -> (s: Option<Sweep>)
        requires
            self.valid(),
            tile.in_range(),
            core.in_range(),
            phase.in_range(),
            self.min_size <= free <= self.max_size,
            self.min_size <= perp <= self.max_size,
            0 <= offset <= 0x4_0000_0000,
        ensures
            s == self.sweep(*tile, *core, *phase, free as int, perp as int, offset as int),
            s matches Some(w) ==> w.valid(),
    {
        proof {
            self.pitch_in_bounds(perp as int);
        }
        let bx0 = max_i64(core.x0, tile.x0);
        let by0 = max_i64(core.y0, tile.y0);
        let bx1 = min_i64(core.x1, tile.x1);
        let by1 = min_i64(core.y1, tile.y1);
        let half_free = free / 2;
        let half_perp = perp / 2;
        let pitch_free = free + self.min_space;
        let pitch_perp = ceil_div_i64(perp + self.min_space, self.gaps) * self.gaps;
        let (pitch_x, pitch_y, half_x, half_y) = match self.orientation {
            TrackOrientation::Vertical => (pitch_perp, pitch_free, half_perp, half_free),
            TrackOrientation::Horizontal => (pitch_free, pitch_perp, half_free, half_perp),
        };
        if bx1 - bx0 < 2 * half_x || by1 - by0 < 2 * half_y {
            return None;
        }
        let (anchor_x, anchor_y) = match self.orientation {
            TrackOrientation::Vertical => (phase.x + offset, phase.y + half_free),
            TrackOrientation::Horizontal => (phase.x + half_free, phase.y + offset),
        };
        let (x_limit, y_limit) = match self.orientation {
            TrackOrientation::Vertical => (bx1, by1 - self.min_space),
            TrackOrientation::Horizontal => (bx1 - self.min_space, by1),
        };
        proof {
            ceil_div_bounds(bx0 + half_x - anchor_x, pitch_x as int);
            ceil_div_bounds(by0 + half_y - anchor_y, pitch_y as int);
        }
        let x = anchor_x + ceil_div_i64(bx0 + half_x - anchor_x, pitch_x) * pitch_x;
        let y = anchor_y + ceil_div_i64(by0 + half_y - anchor_y, pitch_y) * pitch_y;
        Some(Sweep { x, x_limit, pitch_x, half_x, y, y_limit, pitch_y, half_y })
    }
}

/// All sizes are within the bounds.
pub open spec fn sizes_in_bounds(sizes: Seq<i64>, lo: int, hi: int) -> bool {
    forall|i: int| 0 <= i < sizes.len() ==> lo <= #[trigger] sizes[i] <= hi
}

/// A track fill of one tile: the grid, the tile, the origin of the tracks and
/// the context.
#[derive(Clone, Copy, Debug)]
pub struct TrackRun {
    pub grid: TrackGrid,
    pub tile: Rect,
    pub phase: Point,
    pub ctx: TileCtx,
}

/// All are ordered and in range.
pub open spec fn are_boxes(boxes: Seq<Rect>) -> bool {
    forall|i: int| 0 <= i < boxes.len() ==> (#[trigger] boxes[i]).in_range() && boxes[i].ordered()
}

impl TrackRun {
    pub open spec fn valid(self) -> bool {
        &&& self.grid.valid()
        &&& self.tile.in_range()
        &&& self.phase.in_range()
        &&& self.ctx.valid()
    }

    /// What is placed after one sweep in each of the first `n` core boxes.
    pub open spec fn after_cores(
        self,
        keepouts: Seq<KeepoutShape>,
        cores: Seq<Rect>,
        free: int,
        perp: int,
        offset: int,
        placed: Seq<Rect>,
        n: int,
    ) -> Seq<Rect>
        decreases n,
    {
        if n <= 0 {
            placed
        } else {
            let before = self.after_cores(keepouts, cores, free, perp, offset, placed, n - 1);
            match self.grid.sweep(self.tile, cores[n - 1], self.phase, free, perp, offset) {
                Some(sweep) => sweep.after(keepouts, self.grid.min_space as int, before),
                None => before,
            }
        }
    }

    /// What is placed after the first `n` track offsets.
    pub open spec fn after_offsets(
        self,
        keepouts: Seq<KeepoutShape>,
        cores: Seq<Rect>,
        free: int,
        perp: int,
        placed: Seq<Rect>,
        n: int,
    ) -> Seq<Rect>
        decreases n,
    {
        if n <= 0 {
            placed
        } else {
            let before = self.after_offsets(keepouts, cores, free, perp, placed, n - 1);
            self.after_cores(
                keepouts,
                cores,
                free,
                perp,
                self.grid.offset(n - 1),
                before,
                cores.len() as int,
            )
        }
    }

    /// What is placed after the first `n` sizes across the tracks.
    pub open spec fn after_perps(
        self,
        keepouts: Seq<KeepoutShape>,
        cores: Seq<Rect>,
        free: int,
        perps: Seq<i64>,
        placed: Seq<Rect>,
        n: int,
    ) -> Seq<Rect>
        decreases n,
    {
        if n <= 0 {
            placed
        } else {
            let before = self.after_perps(keepouts, cores, free, perps, placed, n - 1);
            let perp = perps[n - 1] as int;
            self.after_offsets(keepouts, cores, free, perp, before, self.grid.tracks_per_pitch(perp))
        }
    }

    /// With `placed`, no more than half the deviation is missing.
    pub open spec fn is_enough(self, placed: Seq<Rect>) -> bool {
        2 * (FULL * fill_area(placed)) >= 2 * self.ctx.need() - self.ctx.deviation * self.ctx.tile_area
    }

    /// What is placed after the sizes along the tracks from number `i` on,
    /// ending once it is enough.
    pub open spec fn after_frees(
        self,
        keepouts: Seq<KeepoutShape>,
        cores: Seq<Rect>,
        frees: Seq<i64>,
        perps: Seq<i64>,
        placed: Seq<Rect>,
        i: int,
    ) -> Seq<Rect>
        decreases frees.len() - i,
    {
        if i < 0 || i >= frees.len() {
            placed
        } else {
            let next = self.after_perps(keepouts, cores, frees[i] as int, perps, placed, perps.len() as int);
            if self.is_enough(next) {
                next
            } else {
                self.after_frees(keepouts, cores, frees, perps, next, i + 1)
            }
        }
    }

    /// One sweep in each core box.
    fn run_cores(
        &self,
        cores: &Vec<Rect>,
        free: i64,
        perp: i64,
        offset: i64,
        placed: &mut Vec<Rect>,
        local: &mut Vec<Keepout>,
        Ghost(keepouts): Ghost<Seq<KeepoutShape>>,
    )
        requires
            self.valid(),
            are_boxes(cores@),
            self.grid.min_size <= free <= self.grid.max_size,
            self.grid.min_size <= perp <= self.grid.max_size,
            0 <= offset <= 0x4_0000_0000,
            are_fill_rects(old(placed)@),
            keepouts_in_reach(keepouts_of(old(local)@)),
            keepouts_of(old(local)@) == with_placed(keepouts, old(placed)@, self.grid.min_space as int),
        ensures
            are_fill_rects(final(placed)@),
            keepouts_in_reach(keepouts_of(final(local)@)),
            keepouts_of(final(local)@) == with_placed(keepouts, final(placed)@, self.grid.min_space as int),
            final(placed)@ == self.after_cores(
                keepouts,
                cores@,
                free as int,
                perp as int,
                offset as int,
                old(placed)@,
                cores@.len() as int,
            ),
    {
        let ghost start = placed@;
        let mut i: usize = 0;
        while i < cores.len()
            invariant
                self.valid(),
                are_boxes(cores@),
                self.grid.min_size <= free <= self.grid.max_size,
                self.grid.min_size <= perp <= self.grid.max_size,
                0 <= offset <= 0x4_0000_0000,
                i <= cores@.len(),
                are_fill_rects(placed@),
                keepouts_in_reach(keepouts_of(local@)),
                keepouts_of(local@) == with_placed(keepouts, placed@, self.grid.min_space as int),
                placed@ == self.after_cores(
                    keepouts,
                    cores@,
                    free as int,
                    perp as int,
                    offset as int,
                    start,
                    i as int,
                ),
            decreases cores@.len() - i,
        {
            assert(cores@[i as int].in_range());
            if let Some(sweep) = self.grid.make_sweep(&self.tile, &cores[i], &self.phase, free, perp, offset) {
                sweep.run(placed, local, self.grid.min_space, Ghost(keepouts));
            }
            i = i + 1;
        }
    }

    /// All track offsets of one size across the tracks.
    fn run_offsets(
        &self,
        cores: &Vec<Rect>,
        free: i64,
        perp: i64,
        placed: &mut Vec<Rect>,
        local: &mut Vec<Keepout>,
        Ghost(keepouts): Ghost<Seq<KeepoutShape>>,
    )
        requires
            self.valid(),
            are_boxes(cores@),
            self.grid.min_size <= free <= self.grid.max_size,
            self.grid.min_size <= perp <= self.grid.max_size,
            are_fill_rects(old(placed)@),
            keepouts_in_reach(keepouts_of(old(local)@)),
            keepouts_of(old(local)@) == with_placed(keepouts, old(placed)@, self.grid.min_space as int),
        ensures
            are_fill_rects(final(placed)@),
            keepouts_in_reach(keepouts_of(final(local)@)),
            keepouts_of(final(local)@) == with_placed(keepouts, final(placed)@, self.grid.min_space as int),
            final(placed)@ == self.after_offsets(
                keepouts,
                cores@,
                free as int,
                perp as int,
                old(placed)@,
                self.grid.tracks_per_pitch(perp as int),
            ),
    {
        let ghost start = placed@;
        proof {
            self.grid.pitch_in_bounds(perp as int);
        }
        let tracks = ceil_div_i64(perp + self.grid.min_space, self.grid.gaps);
        let mut i: i64 = 0;
        while i < tracks
            invariant
                self.valid(),
                are_boxes(cores@),
                self.grid.min_size <= free <= self.grid.max_size,
                self.grid.min_size <= perp <= self.grid.max_size,
                tracks == self.grid.tracks_per_pitch(perp as int),
                0 <= i <= tracks <= 0x1_0000_0002,
                are_fill_rects(placed@),
                keepouts_in_reach(keepouts_of(local@)),
                keepouts_of(local@) == with_placed(keepouts, placed@, self.grid.min_space as int),
                placed@ == self.after_offsets(keepouts, cores@, free as int, perp as int, start, i as int),
            decreases tracks - i,
        {
            proof {
                self.grid.pitch_in_bounds(perp as int);
                assert(0 <= i * self.grid.gaps <= tracks * self.grid.gaps) by (nonlinear_arith)
                    requires
                        0 <= i <= tracks,
                        self.grid.gaps > 0,
                ;
            }
            let offset = i * self.grid.gaps;
            self.run_cores(cores, free, perp, offset, placed, local, Ghost(keepouts));
            i = i + 1;
        }
    }

    /// All sizes across the tracks for one size along them.
    fn run_perps(
        &self,
        cores: &Vec<Rect>,
        free: i64,
        perps: &Vec<i64>,
        placed: &mut Vec<Rect>,
        local: &mut Vec<Keepout>,
        Ghost(keepouts): Ghost<Seq<KeepoutShape>>,
    )
        requires
            self.valid(),
            are_boxes(cores@),
            self.grid.min_size <= free <= self.grid.max_size,
            sizes_in_bounds(perps@, self.grid.min_size as int, self.grid.max_size as int),
            are_fill_rects(old(placed)@),
            keepouts_in_reach(keepouts_of(old(local)@)),
            keepouts_of(old(local)@) == with_placed(keepouts, old(placed)@, self.grid.min_space as int),
        ensures
            are_fill_rects(final(placed)@),
            keepouts_in_reach(keepouts_of(final(local)@)),
            keepouts_of(final(local)@) == with_placed(keepouts, final(placed)@, self.grid.min_space as int),
            final(placed)@ == self.after_perps(
                keepouts,
                cores@,
                free as int,
                perps@,
                old(placed)@,
                perps@.len() as int,
            ),
    {
        let ghost start = placed@;
        let n = perps.len();
        let mut i: usize = 0;
        while i < n
            invariant
                self.valid(),
                are_boxes(cores@),
                self.grid.min_size <= free <= self.grid.max_size,
                sizes_in_bounds(perps@, self.grid.min_size as int, self.grid.max_size as int),
                n == perps@.len(),
                i <= n,
                are_fill_rects(placed@),
                keepouts_in_reach(keepouts_of(local@)),
                keepouts_of(local@) == with_placed(keepouts, placed@, self.grid.min_space as int),
                placed@ == self.after_perps(keepouts, cores@, free as int, perps@, start, i as int),
            decreases n - i,
        {
            assert(self.grid.min_size <= perps@[i as int] <= self.grid.max_size);
            self.run_offsets(cores, free, perps[i], placed, local, Ghost(keepouts));
            i = i + 1;
        }
    }

    /// All sizes, ending once enough is placed.
    fn run_frees(&self, keepout: &Vec<Keepout>, cores: &Vec<Rect>, frees: &Vec<i64>, perps: &Vec<i64>) -> (placed: Vec<
        Rect,
    >)
        requires
            self.valid(),
            self.ctx.wants_fill(),
            are_boxes(cores@),
            sizes_in_bounds(frees@, self.grid.min_size as int, self.grid.max_size as int),
            sizes_in_bounds(perps@, self.grid.min_size as int, self.grid.max_size as int),
            keepouts_in_reach(keepouts_of(keepout@)),
        ensures
            placed@ == self.after_frees(keepouts_of(keepout@), cores@, frees@, perps@, Seq::empty(), 0),
            are_fill_rects(placed@),
    {
        let ghost kos = keepouts_of(keepout@);
        let mut local = copy_keepouts(keepout);
        let mut placed: Vec<Rect> = Vec::new();
        let ghost goal = self.after_frees(kos, cores@, frees@, perps@, placed@, 0);
        assert(with_placed(kos, placed@, self.grid.min_space as int) =~= kos);
        let need = self.ctx.missing();
        let slack = self.ctx.slack();
        let mut i: usize = 0;
        let mut enough: bool = false;
        while i < frees.len() && !enough
            invariant
                self.valid(),
                are_boxes(cores@),
                sizes_in_bounds(frees@, self.grid.min_size as int, self.grid.max_size as int),
                sizes_in_bounds(perps@, self.grid.min_size as int, self.grid.max_size as int),
                need == self.ctx.need(),
                slack == self.ctx.deviation * self.ctx.tile_area,
                -0x400_0000_0000_0000_0000_0000_0000 <= slack <= 0x400_0000_0000_0000_0000_0000_0000,
                -0x400_0000_0000_0000_0000_0000_0000 <= need <= 0x400_0000_0000_0000_0000_0000_0000,
                i <= frees@.len(),
                are_fill_rects(placed@),
                keepouts_in_reach(keepouts_of(local@)),
                keepouts_of(local@) == with_placed(kos, placed@, self.grid.min_space as int),
                enough ==> goal == placed@,
                !enough ==> goal == self.after_frees(kos, cores@, frees@, perps@, placed@, i as int),
            decreases frees@.len() - i,
        {
            assert(self.grid.min_size <= frees@[i as int] <= self.grid.max_size);
            self.run_perps(cores, frees[i], perps, &mut placed, &mut local, Ghost(kos));
            let area = measure(&placed);
            proof {
                assert(0 <= FULL * area <= 0x5f5_e100_0000_0000_0000_0000_0000_0000) by (nonlinear_arith)
                    requires
                        FULL == 0x5f5_e100,
                        0 <= area <= 0x1_0000_0000_0000_0000_0000_0000,
                ;
            }
            enough = 2 * (FULL as i128 * area) >= 2 * need - slack;
            i = i + 1;
        }
        placed
    }
}

/// The run for the given parameters.
pub open spec fn track_run(tile: Rect, tp: TrackParams, ctx: TileCtx, phase: Point) -> TrackRun {
    TrackRun { grid: TrackGrid::of(tp, ctx), tile, phase, ctx }
}

/// The track fill of a tile.
pub open spec fn track_fill(
    tile: Rect,
    keepouts: Seq<KeepoutShape>,
    tp: TrackParams,
    cores: Seq<Shape>,
    ctx: TileCtx,
    phase: Point,
) -> Seq<Rect> {
    let run = track_run(tile, tp, ctx, phase);
    if cores.len() == 0 || !ctx.wants_fill() || !tp.has_tracks() {
        Seq::empty()
    } else {
        run.after_frees(
            keepouts,
            boxes_of(cores, cores.len() as int),
            run.grid.free_sizes(tp.free_heights_nm@, ctx.db_unit_nm as int, tp.free_heights_nm@.len() as int),
            run.grid.perp_sizes(tp.pass_fracs@, tp.max_width as int / tp.gaps as int),
            Seq::empty(),
            0,
        )
    }
}

/// Fill a tile with rectangles on the routing tracks, within the boxes of the
/// core polygons.  Sizes along the tracks are tried in order, and for each one
/// the sizes across the tracks at every track offset; a candidate is placed if
/// it touches no keep-out and keeps the minimum space from what is placed.
/// Nothing is placed without a core, or if no more than half the deviation is
/// missing; placing ends after the first size along the tracks with which that
/// holds.
pub fn fill_track_tile(
    tile: &Rect,
    keepout: &Vec<Keepout>,
    tp: &TrackParams,
    core_polys: &[Polygon],
    ctx: &TileCtx,
    phase: &Point,
) -> (out: Vec<Rect>)
    requires
        tile.in_range(),
        core_polys@.len() > 0 && tp.has_tracks() ==> tp.usable() && TrackGrid::of(*tp, *ctx).valid(),
        shapes_in_range(shapes_of(core_polys@)),
        ctx.valid(),
        phase.in_range(),
        keepouts_in_reach(keepouts_of(keepout@)),
    ensures
        out@ == track_fill(*tile, keepouts_of(keepout@), *tp, shapes_of(core_polys@), *ctx, *phase),
        are_fill_rects(out@),
{
    if core_polys.len() == 0 || !ctx.is_below_target() || tp.min_width <= 0 || tp.gaps <= 0 || tp.free_heights_nm.len()
        == 0 {
        return Vec::new();
    }
    let db = ctx.db_unit_nm;
    let step = 4 * ctx.grid_dbu;
    let max_width = to_units(tp.max_width, db);
    proof {
        lemma_fundamental_div_mod(max_width as int, step as int);
        let q = max_width as int / step as int;
        assert(0 <= q * step <= max_width) by (nonlinear_arith)
            requires
                step * q <= max_width,
                q == max_width as int / step as int,
                max_width >= 0,
                step > 0,
        ;
        units_bounds(tp.gaps as int, db as int);
        let (w, g) = (tp.max_width as int, tp.gaps as int);
        assert(0 <= w / g <= w) by (nonlinear_arith)
            requires
                w >= 0,
                g >= 1,
        ;
    }
    let grid = TrackGrid {
        gaps: to_units(tp.gaps, db),
        min_space: to_units(tp.min_space, db),
        min_size: snap_up(to_units(tp.min_width, db), step),
        max_size: max_width / step * step,
        step,
        orientation: tp.orientation,
    };
    let run = TrackRun { grid, tile: *tile, phase: *phase, ctx: *ctx };
    let perps = grid.list_perp_sizes(&tp.pass_fracs, tp.max_width / tp.gaps);
    let frees = grid.list_free_sizes(&tp.free_heights_nm, db);
    let cores = collect_boxes(core_polys);
    run.run_frees(keepout, &cores, &frees, &perps)
}

proof fn tracks_repeat(d: int, pitch: int, g: int)
    requires
        g > 0,
        d % g == 0,
        pitch % g == 0,
    ensures
        (d + pitch) % g == 0,
{
    lemma_fundamental_div_mod(d, g);
    lemma_fundamental_div_mod(pitch, g);
    let (a, b) = (d / g, pitch / g);
    assert(d + pitch == g * (a + b)) by (nonlinear_arith)
        requires
            d == g * a,
            pitch == g * b,
    ;
    vstd::arithmetic::div_mod::lemma_mod_multiples_basic(a + b, g);
    assert(g * (a + b) == (a + b) * g) by (nonlinear_arith);
}

proof fn on_tracks(i: int, n: int, q: int, g: int)
    requires
        g > 0,
    ensures
        (i * g + n * (q * g)) % g == 0,
        (q * g) % g == 0,
{
    assert(i * g + n * (q * g) == (i + n * q) * g) by (nonlinear_arith);
    vstd::arithmetic::div_mod::lemma_mod_multiples_basic(i + n * q, g);
    vstd::arithmetic::div_mod::lemma_mod_multiples_basic(q, g);
}

impl TrackRun {
    /// `r` lies in the tile, with a margin of the minimum space at the upper
    /// edge along the tracks.
    pub open spec fn is_inside(self, r: Rect) -> bool {
        &&& r.ordered()
        &&& self.tile.spec_encloses(r)
        &&& match self.grid.orientation {
            TrackOrientation::Vertical => r.y1 + self.grid.min_space <= self.tile.y1,
            TrackOrientation::Horizontal => r.x1 + self.grid.min_space <= self.tile.x1,
        }
    }

    /// A coordinate across the tracks lies on a track.
    pub open spec fn is_track(self, c: int) -> bool {
        match self.grid.orientation {
            TrackOrientation::Vertical => (c - self.phase.x) % (self.grid.gaps as int) == 0,
            TrackOrientation::Horizontal => (c - self.phase.y) % (self.grid.gaps as int) == 0,
        }
    }

    /// The centre of `r` lies on a track, and `r` in one of the core boxes.
    pub open spec fn sits(self, cores: Seq<Rect>, r: Rect) -> bool {
        &&& match self.grid.orientation {
            TrackOrientation::Vertical => (r.x0 + r.x1) % 2 == 0 && self.is_track((r.x0 + r.x1) / 2),
            TrackOrientation::Horizontal => (r.y0 + r.y1) % 2 == 0 && self.is_track((r.y0 + r.y1) / 2),
        }
        &&& exists|c: int| 0 <= c < cores.len() && (#[trigger] cores[c]).spec_encloses(r)
    }

    /// All of `placed` lie in the tile and in a core box, are centred on tracks,
    /// touch no keep-out, and are more than the minimum space apart.
    pub open spec fn is_tidy(self, keepouts: Seq<KeepoutShape>, cores: Seq<Rect>, placed: Seq<Rect>) -> bool {
        &&& all_apart(placed, self.grid.min_space + 1)
        &&& forall|a: int|
            0 <= a < placed.len() ==> self.is_inside(#[trigger] placed[a]) && self.sits(cores, placed[a])
                && !is_blocked(keepouts, placed[a])
    }

    /// The candidates of the sweep lie in the tile and the core box, on tracks.
    pub open spec fn holds_sweep(self, core: Rect, w: Sweep) -> bool {
        &&& w.valid()
        &&& core.x0 <= w.x - w.half_x
        &&& core.y0 <= w.y - w.half_y
        &&& w.x_limit <= core.x1
        &&& w.y_limit <= core.y1
        &&& match self.grid.orientation {
            TrackOrientation::Vertical => self.is_track(w.x as int) && w.pitch_x as int % (self.grid.gaps as int) == 0,
            TrackOrientation::Horizontal => self.is_track(w.y as int) && w.pitch_y as int % (self.grid.gaps as int) == 0,
        }
        &&& self.tile.x0 <= w.x - w.half_x
        &&& self.tile.y0 <= w.y - w.half_y
        &&& w.x_limit <= self.tile.x1
        &&& w.y_limit <= self.tile.y1
        &&& match self.grid.orientation {
            TrackOrientation::Vertical => w.y_limit + self.grid.min_space <= self.tile.y1,
            TrackOrientation::Horizontal => w.x_limit + self.grid.min_space <= self.tile.x1,
        }
    }

    proof fn placing_is_tidy(self, keepouts: Seq<KeepoutShape>, cores: Seq<Rect>, placed: Seq<Rect>, r: Rect)
        requires
            self.valid(),
            self.is_tidy(keepouts, cores, placed),
            self.is_inside(r),
            self.sits(cores, r),
            !is_blocked(with_placed(keepouts, placed, self.grid.min_space as int), r),
        ensures
            self.is_tidy(keepouts, cores, placed.push(r)),
    {
        let space = self.grid.min_space as int;
        let all = with_placed(keepouts, placed, space);
        let next = placed.push(r);
        assert forall|i: int| 0 <= i < keepouts.len() implies !(#[trigger] keepouts[i]).blocks(r) by {
            assert(all[i] == keepouts[i]);
            assert(!all[i].blocks(r));
        }
        assert(!is_blocked(keepouts, r));
        assert forall|i: int, j: int| 0 <= i < j < next.len() implies apart(
            #[trigger] next[i],
            #[trigger] next[j],
            space + 1,
        ) by {
            if j < placed.len() {
                assert(apart(placed[i], placed[j], space + 1));
            } else {
                let p = placed[i];
                assert(self.is_inside(p));
                let k = keepouts.len() + i;
                assert(all[k] == rect_keepout(p.spec_grown(space)));
                assert(!all[k].blocks(r));
            }
        }
        assert forall|a: int| 0 <= a < next.len() implies self.is_inside(#[trigger] next[a]) && self.sits(
            cores,
            next[a],
        ) && !is_blocked(keepouts, next[a]) by {
            if a < placed.len() {
                assert(next[a] == placed[a]);
            }
        }
    }

    proof fn column_is_tidy(
        self,
        w: Sweep,
        c: int,
        keepouts: Seq<KeepoutShape>,
        cores: Seq<Rect>,
        placed: Seq<Rect>,
        cx: int,
        cy: int,
    )
        requires
            self.valid(),
            0 <= c < cores.len(),
            self.holds_sweep(cores[c], w),
            self.is_tidy(keepouts, cores, placed),
            w.x <= cx,
            cx + w.half_x <= w.x_limit,
            w.y <= cy,
            match self.grid.orientation {
                TrackOrientation::Vertical => self.is_track(cx),
                TrackOrientation::Horizontal => self.is_track(cy),
            },
        ensures
            self.is_tidy(keepouts, cores, w.after_column(keepouts, self.grid.min_space as int, placed, cx, cy)),
        decreases max_of(0, w.y_limit - w.half_y - cy + 1),
    {
        if cy + w.half_y <= w.y_limit {
            let r = w.candidate(cx, cy);
            if self.grid.orientation is Horizontal {
                tracks_repeat(cy - self.phase.y, w.pitch_y as int, self.grid.gaps as int);
            }
            assert((2 * cx) / 2 == cx && (2 * cy) / 2 == cy);
            assert(cores[c].spec_encloses(r));
            assert(self.sits(cores, r));
            let space = self.grid.min_space as int;
            if is_blocked(with_placed(keepouts, placed, space), r) {
                self.column_is_tidy(w, c, keepouts, cores, placed, cx, cy + w.pitch_y);
            } else {
                self.placing_is_tidy(keepouts, cores, placed, r);
                self.column_is_tidy(w, c, keepouts, cores, placed.push(r), cx, cy + w.pitch_y);
            }
        }
    }

    proof fn columns_are_tidy(
        self,
        w: Sweep,
        c: int,
        keepouts: Seq<KeepoutShape>,
        cores: Seq<Rect>,
        placed: Seq<Rect>,
        cx: int,
    )
        requires
            self.valid(),
            0 <= c < cores.len(),
            self.holds_sweep(cores[c], w),
            self.is_tidy(keepouts, cores, placed),
            w.x <= cx,
            self.grid.orientation is Vertical ==> self.is_track(cx),
        ensures
            self.is_tidy(keepouts, cores, w.after_columns(keepouts, self.grid.min_space as int, placed, cx)),
        decreases max_of(0, w.x_limit - w.half_x - cx + 1),
    {
        if cx + w.half_x <= w.x_limit {
            let space = self.grid.min_space as int;
            self.column_is_tidy(w, c, keepouts, cores, placed, cx, w.y as int);
            let next = w.after_column(keepouts, space, placed, cx, w.y as int);
            if self.grid.orientation is Vertical {
                tracks_repeat(cx - self.phase.x, w.pitch_x as int, self.grid.gaps as int);
            }
            self.columns_are_tidy(w, c, keepouts, cores, next, cx + w.pitch_x);
        }
    }

    pub proof fn sweep_is_held(self, core: Rect, free: int, perp: int, i: int)
        requires
            self.valid(),
            core.in_range(),
            self.grid.min_size <= free <= self.grid.max_size,
            self.grid.min_size <= perp <= self.grid.max_size,
            0 <= self.grid.offset(i) <= 0x4_0000_0000,
        ensures
            self.grid.sweep(self.tile, core, self.phase, free, perp, self.grid.offset(i)) matches Some(w)
                ==> self.holds_sweep(core, w),
    {
        let offset = self.grid.offset(i);
        let g = self.grid.gaps as int;
        let q = self.grid.tracks_per_pitch(perp);
        self.grid.pitch_in_bounds(perp);
        let bx0 = max_of(core.x0 as int, self.tile.x0 as int);
        let by0 = max_of(core.y0 as int, self.tile.y0 as int);
        let pitch_free = free + self.grid.min_space;
        let pitch_perp = self.grid.tracks_per_pitch(perp) * self.grid.gaps;
        match self.grid.orientation {
            TrackOrientation::Vertical => {
                ceil_div_bounds(bx0 + perp / 2 - (self.phase.x + offset), pitch_perp);
                ceil_div_bounds(by0 + free / 2 - (self.phase.y + free / 2), pitch_free);
                on_tracks(i, ceil_div(bx0 + perp / 2 - (self.phase.x + offset), pitch_perp), q, g);
            },
            TrackOrientation::Horizontal => {
                ceil_div_bounds(bx0 + free / 2 - (self.phase.x + free / 2), pitch_free);
                ceil_div_bounds(by0 + perp / 2 - (self.phase.y + offset), pitch_perp);
                on_tracks(i, ceil_div(by0 + perp / 2 - (self.phase.y + offset), pitch_perp), q, g);
            },
        }
    }

    proof fn cores_are_tidy(
        self,
        keepouts: Seq<KeepoutShape>,
        cores: Seq<Rect>,
        free: int,
        perp: int,
        i: int,
        placed: Seq<Rect>,
        n: int,
    )
        requires
            self.valid(),
            are_boxes(cores),
            0 <= n <= cores.len(),
            self.grid.min_size <= free <= self.grid.max_size,
            self.grid.min_size <= perp <= self.grid.max_size,
            0 <= self.grid.offset(i) <= 0x4_0000_0000,
            self.is_tidy(keepouts, cores, placed),
        ensures
            self.is_tidy(keepouts, cores, self.after_cores(keepouts, cores, free, perp, self.grid.offset(i), placed, n)),
        decreases n,
    {
        if n > 0 {
            self.cores_are_tidy(keepouts, cores, free, perp, i, placed, n - 1);
            assert(cores[n - 1].in_range());
            self.sweep_is_held(cores[n - 1], free, perp, i);
            let before = self.after_cores(keepouts, cores, free, perp, self.grid.offset(i), placed, n - 1);
            if let Some(w) = self.grid.sweep(self.tile, cores[n - 1], self.phase, free, perp, self.grid.offset(i)) {
                self.columns_are_tidy(w, n - 1, keepouts, cores, before, w.x as int);
            }
        }
    }

    proof fn offsets_are_tidy(
        self,
        keepouts: Seq<KeepoutShape>,
        cores: Seq<Rect>,
        free: int,
        perp: int,
        placed: Seq<Rect>,
        n: int,
    )
        requires
            self.valid(),
            are_boxes(cores),
            0 <= n <= self.grid.tracks_per_pitch(perp),
            self.grid.min_size <= free <= self.grid.max_size,
            self.grid.min_size <= perp <= self.grid.max_size,
            self.is_tidy(keepouts, cores, placed),
        ensures
            self.is_tidy(keepouts, cores, self.after_offsets(keepouts, cores, free, perp, placed, n)),
        decreases n,
    {
        if n > 0 {
            self.offsets_are_tidy(keepouts, cores, free, perp, placed, n - 1);
            self.grid.pitch_in_bounds(perp);
            let (g, q) = (self.grid.gaps as int, self.grid.tracks_per_pitch(perp));
            assert(0 <= (n - 1) * g <= q * g) by (nonlinear_arith)
                requires
                    0 <= n - 1 <= q,
                    g > 0,
            ;
            let before = self.after_offsets(keepouts, cores, free, perp, placed, n - 1);
            self.cores_are_tidy(
                keepouts,
                cores,
                free,
                perp,
                n - 1,
                before,
                cores.len() as int,
            );
        }
    }

    proof fn perps_are_tidy(
        self,
        keepouts: Seq<KeepoutShape>,
        cores: Seq<Rect>,
        free: int,
        perps: Seq<i64>,
        placed: Seq<Rect>,
        n: int,
    )
        requires
            self.valid(),
            are_boxes(cores),
            0 <= n <= perps.len(),
            self.grid.min_size <= free <= self.grid.max_size,
            sizes_in_bounds(perps, self.grid.min_size as int, self.grid.max_size as int),
            self.is_tidy(keepouts, cores, placed),
        ensures
            self.is_tidy(keepouts, cores, self.after_perps(keepouts, cores, free, perps, placed, n)),
        decreases n,
    {
        if n > 0 {
            self.perps_are_tidy(keepouts, cores, free, perps, placed, n - 1);
            let before = self.after_perps(keepouts, cores, free, perps, placed, n - 1);
            let perp = perps[n - 1] as int;
            self.grid.pitch_in_bounds(perp);
            self.offsets_are_tidy(keepouts, cores, free, perp, before, self.grid.tracks_per_pitch(perp));
        }
    }

    proof fn frees_are_tidy(
        self,
        keepouts: Seq<KeepoutShape>,
        cores: Seq<Rect>,
        frees: Seq<i64>,
        perps: Seq<i64>,
        placed: Seq<Rect>,
        i: int,
    )
        requires
            self.valid(),
            are_boxes(cores),
            sizes_in_bounds(frees, self.grid.min_size as int, self.grid.max_size as int),
            sizes_in_bounds(perps, self.grid.min_size as int, self.grid.max_size as int),
            self.is_tidy(keepouts, cores, placed),
        ensures
            self.is_tidy(keepouts, cores, self.after_frees(keepouts, cores, frees, perps, placed, i)),
        decreases frees.len() - i,
    {
        if 0 <= i < frees.len() {
            self.perps_are_tidy(keepouts, cores, frees[i] as int, perps, placed, perps.len() as int);
            let next = self.after_perps(keepouts, cores, frees[i] as int, perps, placed, perps.len() as int);
            self.frees_are_tidy(keepouts, cores, frees, perps, next, i + 1);
        }
    }
}

impl TrackGrid {
    pub proof fn frac_sizes_bounded(self, fracs: Seq<i64>, n_max: int, n: int)
        requires
            self.valid(),
        ensures
            sizes_in_bounds(self.frac_sizes(fracs, n_max, n), self.min_size as int, self.max_size as int),
        decreases n,
    {
        if n > 0 {
            self.frac_sizes_bounded(fracs, n_max, n - 1);
        }
    }

    pub proof fn free_sizes_bounded(self, heights: Seq<i64>, db_unit: int, n: int)
        requires
            self.valid(),
        ensures
            sizes_in_bounds(self.free_sizes(heights, db_unit, n), self.min_size as int, self.max_size as int),
        decreases n,
    {
        if n > 0 {
            self.free_sizes_bounded(heights, db_unit, n - 1);
        }
    }
}

pub proof fn boxes_in_range(shapes: Seq<Shape>, n: int)
    requires
        shapes_in_range(shapes),
        0 <= n <= shapes.len(),
    ensures
        are_boxes(boxes_of(shapes, n)),
    decreases n,
{
    if n > 0 {
        boxes_in_range(shapes, n - 1);
        assert(shapes[n - 1].in_range());
        if shapes[n - 1].exterior.len() > 0 {
            bounds_in_range(shapes[n - 1].exterior);
        }
    }
}

/// The rectangles of a track fill lie in the tile and in the box of a core
/// polygon, are centred on routing tracks, touch no keep-out, and are more than
/// the minimum space apart; at the upper tile edge along the tracks they keep
/// the minimum space.
pub proof fn track_fill_is_tidy(
    tile: Rect,
    keepouts: Seq<KeepoutShape>,
    tp: TrackParams,
    cores: Seq<Shape>,
    ctx: TileCtx,
    phase: Point,
)
    requires
        tile.in_range(),
        TrackGrid::of(tp, ctx).valid(),
        shapes_in_range(cores),
        ctx.valid(),
        phase.in_range(),
    ensures
        track_run(tile, tp, ctx, phase).is_tidy(
            keepouts,
            boxes_of(cores, cores.len() as int),
            track_fill(tile, keepouts, tp, cores, ctx, phase),
        ),
{
    let run = track_run(tile, tp, ctx, phase);
    let boxes = boxes_of(cores, cores.len() as int);
    boxes_in_range(cores, cores.len() as int);
    run.grid.free_sizes_bounded(tp.free_heights_nm@, ctx.db_unit_nm as int, tp.free_heights_nm@.len() as int);
    let n_max = tp.max_width as int / tp.gaps as int;
    run.grid.frac_sizes_bounded(tp.pass_fracs@, n_max, tp.pass_fracs@.len() as int);
    let frees = run.grid.free_sizes(tp.free_heights_nm@, ctx.db_unit_nm as int, tp.free_heights_nm@.len() as int);
    let perps = run.grid.perp_sizes(tp.pass_fracs@, n_max);
    assert(sizes_in_bounds(perps, run.grid.min_size as int, run.grid.max_size as int));
    run.frees_are_tidy(keepouts, boxes, frees, perps, Seq::empty(), 0);
}

/// What the track fill of a tile reads besides the parameters.
pub struct TrackSite {
    pub tile: Rect,
    pub keepouts: Seq<KeepoutShape>,
    pub cores: Seq<Shape>,
    pub ctx: TileCtx,
    pub phase: Point,
}

impl TrackSite {
    /// Everything is within the limits of the algorithm.
    pub open spec fn valid(self, tp: TrackParams) -> bool {
        &&& self.tile.in_range()
        &&& tp.usable()
        &&& TrackGrid::of(tp, self.ctx).valid()
        &&& shapes_in_range(self.cores)
        &&& self.ctx.valid()
        &&& self.phase.in_range()
    }

    /// The fill of the tile.
    pub open spec fn fill(self, tp: TrackParams) -> Seq<Rect> {
        track_fill(self.tile, self.keepouts, tp, self.cores, self.ctx, self.phase)
    }
}

/// Along the tracks, fill of neighbouring tiles keeps at least the minimum
/// space: each tile leaves it free at its upper edge.
pub proof fn neighbours_keep_apart(tp: TrackParams, a: TrackSite, b: TrackSite, i: int, j: int)
    requires
        a.valid(tp),
        b.valid(tp),
        a.ctx.db_unit_nm == b.ctx.db_unit_nm,
        0 <= i < a.fill(tp).len(),
        0 <= j < b.fill(tp).len(),
        match tp.orientation {
            TrackOrientation::Vertical => a.tile.y1 <= b.tile.y0,
            TrackOrientation::Horizontal => a.tile.x1 <= b.tile.x0,
        },
    ensures
        ({
            let space = units_of(tp.min_space as int, a.ctx.db_unit_nm as int);
            match tp.orientation {
                TrackOrientation::Vertical => b.fill(tp)[j].y0 - a.fill(tp)[i].y1 >= space,
                TrackOrientation::Horizontal => b.fill(tp)[j].x0 - a.fill(tp)[i].x1 >= space,
            }
        }),
{
    track_fill_is_tidy(a.tile, a.keepouts, tp, a.cores, a.ctx, a.phase);
    track_fill_is_tidy(b.tile, b.keepouts, tp, b.cores, b.ctx, b.phase);
    units_bounds(tp.min_space as int, a.ctx.db_unit_nm as int);
    assert(track_run(a.tile, tp, a.ctx, a.phase).is_inside(a.fill(tp)[i]));
    assert(track_run(b.tile, tp, b.ctx, b.phase).is_inside(b.fill(tp)[j]));
}

impl TrackRun {
    /// Track number `k`, counted from the origin of the tracks.
    pub open spec fn track_at(self, k: int) -> int {
        match self.grid.orientation {
            TrackOrientation::Vertical => self.phase.x + k * self.grid.gaps,
            TrackOrientation::Horizontal => self.phase.y + k * self.grid.gaps,
        }
    }

    /// The sum of the two edges of `r` across the tracks: twice its centre.
    pub open spec fn twice_centre(self, r: Rect) -> int {
        match self.grid.orientation {
            TrackOrientation::Vertical => r.x0 + r.x1,
            TrackOrientation::Horizontal => r.y0 + r.y1,
        }
    }
}

/// The centre of every rectangle of a track fill is, across the tracks, the
/// origin of the tracks plus a whole number of track pitches.
pub proof fn fill_is_on_tracks(tp: TrackParams, site: TrackSite, i: int)
    requires
        site.valid(tp),
        0 <= i < site.fill(tp).len(),
    ensures
        ({
            let run = track_run(site.tile, tp, site.ctx, site.phase);
            exists|k: int| run.twice_centre(site.fill(tp)[i]) == 2 * #[trigger] run.track_at(k)
        }),
{
    track_fill_is_tidy(site.tile, site.keepouts, tp, site.cores, site.ctx, site.phase);
    let run = track_run(site.tile, tp, site.ctx, site.phase);
    let r = site.fill(tp)[i];
    assert(run.is_inside(r));
    let g = run.grid.gaps as int;
    let d = match run.grid.orientation {
        TrackOrientation::Vertical => (r.x0 + r.x1) / 2 - run.phase.x,
        TrackOrientation::Horizontal => (r.y0 + r.y1) / 2 - run.phase.y,
    };
    lemma_fundamental_div_mod(d, g);
    let k = d / g;
    assert(g * k == k * g) by (nonlinear_arith);
    assert(run.twice_centre(r) == 2 * run.track_at(k));
}

} // verus!
