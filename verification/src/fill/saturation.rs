//! Track fill goes on until the target is reached or no room is left.

use crate::fill::amounts::area_is_covered;
use crate::fill::amounts::clamped_is_closest;
use crate::fill::amounts::closest_is_unique;
use crate::fill::amounts::covered;
use crate::fill::amounts::is_closest;
use crate::fill::amounts::is_multiple;
use crate::fill::amounts::is_reached;
use crate::fill::amounts::lacks_fill;
use crate::fill::amounts::rounding_is_tight;
use crate::fill::fill_area;
use crate::fill::overlap::clamp_between;
use crate::fill::overlap::round_near;
use crate::fill::track::are_boxes;
use crate::fill::track::boxes_in_range;
use crate::fill::track::boxes_of;
use crate::fill::track::ceil_div;
use crate::fill::track::ceil_div_bounds;
use crate::fill::track::is_new_size;
use crate::fill::track::sizes_in_bounds;
use crate::fill::track::track_fill_is_tidy;
use crate::fill::track::track_run;
use crate::fill::track::with_placed;
use crate::fill::track::Sweep;
use crate::fill::track::TrackGrid;
use crate::fill::track::TrackRun;
use crate::fill::track::TrackSite;
use crate::fill::TileCtx;
use crate::geom::bounds;
use crate::geom::max_of;
use crate::geom::Rect;
use crate::geom::Shape;
use crate::pdk::units_bounds;
use crate::pdk::units_of;
use crate::pdk::TrackOrientation;
use crate::pdk::TrackParams;
use crate::touch::is_blocked;
use crate::touch::rect_keepout;
use crate::touch::KeepoutShape;
use vstd::arithmetic::div_mod::lemma_fundamental_div_mod;
use vstd::arithmetic::div_mod::lemma_fundamental_div_mod_converse;
use vstd::prelude::*;

verus! {

/// The list begins with `a`.
pub open spec fn is_prefix<A>(a: Seq<A>, b: Seq<A>) -> bool {
    a.len() <= b.len() && forall|i: int| 0 <= i < a.len() ==> #[trigger] b[i] == a[i]
}

/// What is blocked stays blocked when more is placed.
proof fn stays_blocked(keepouts: Seq<KeepoutShape>, a: Seq<Rect>, b: Seq<Rect>, space: int, r: Rect)
    requires
        is_prefix(a, b),
        is_blocked(with_placed(keepouts, a, space), r),
    ensures
        is_blocked(with_placed(keepouts, b, space), r),
{
    let (p, q) = (with_placed(keepouts, a, space), with_placed(keepouts, b, space));
    let i = choose|i: int| 0 <= i < p.len() && (#[trigger] p[i]).blocks(r);
    if i >= keepouts.len() {
        assert(b[i - keepouts.len()] == a[i - keepouts.len()]);
    }
    assert(q[i] == p[i]);
}

impl Sweep {
    /// The candidate is of the sweep, at these steps from its first.
    pub open spec fn reaches(self, i: int, n: int) -> bool {
        &&& 0 <= i
        &&& 0 <= n
        &&& self.x + i * self.pitch_x + self.half_x <= self.x_limit
        &&& self.y + n * self.pitch_y + self.half_y <= self.y_limit
    }

    proof fn column_adds(self, keepouts: Seq<KeepoutShape>, space: int, placed: Seq<Rect>, cx: int, cy: int)
        requires
            self.valid(),
            self.x <= cx,
            cx + self.half_x <= self.x_limit,
            self.y <= cy,
        ensures
            ({
                let out = self.after_column(keepouts, space, placed, cx, cy);
                &&& is_prefix(placed, out)
                &&& forall|a: int|
                    placed.len() <= a < out.len() ==> (#[trigger] out[a]).x1 - out[a].x0 == 2 * self.half_x && out[a].y1
                        - out[a].y0 == 2 * self.half_y
            }),
        decreases max_of(0, self.y_limit - self.half_y - cy + 1),
    {
        if cy + self.half_y <= self.y_limit {
            let r = self.candidate(cx, cy);
            let next = if is_blocked(with_placed(keepouts, placed, space), r) {
                placed
            } else {
                placed.push(r)
            };
            self.column_adds(keepouts, space, next, cx, cy + self.pitch_y);
            let out = self.after_column(keepouts, space, placed, cx, cy);
            assert forall|a: int| placed.len() <= a < out.len() implies (#[trigger] out[a]).x1 - out[a].x0 == 2
                * self.half_x && out[a].y1 - out[a].y0 == 2 * self.half_y by {
                if a < next.len() {
                    assert(out[a] == next[a]);
                }
            }
            assert forall|i: int| 0 <= i < placed.len() implies #[trigger] out[i] == placed[i] by {
                assert(out[i] == next[i]);
            }
        }
    }

    proof fn columns_add(self, keepouts: Seq<KeepoutShape>, space: int, placed: Seq<Rect>, cx: int)
        requires
            self.valid(),
            self.x <= cx,
        ensures
            ({
                let out = self.after_columns(keepouts, space, placed, cx);
                &&& is_prefix(placed, out)
                &&& forall|a: int|
                    placed.len() <= a < out.len() ==> (#[trigger] out[a]).x1 - out[a].x0 == 2 * self.half_x && out[a].y1
                        - out[a].y0 == 2 * self.half_y
            }),
        decreases max_of(0, self.x_limit - self.half_x - cx + 1),
    {
        if cx + self.half_x <= self.x_limit {
            let next = self.after_column(keepouts, space, placed, cx, self.y as int);
            self.column_adds(keepouts, space, placed, cx, self.y as int);
            self.columns_add(keepouts, space, next, cx + self.pitch_x);
            let out = self.after_columns(keepouts, space, placed, cx);
            assert forall|a: int| placed.len() <= a < out.len() implies (#[trigger] out[a]).x1 - out[a].x0 == 2
                * self.half_x && out[a].y1 - out[a].y0 == 2 * self.half_y by {
                if a < next.len() {
                    assert(out[a] == next[a]);
                }
            }
            assert forall|i: int| 0 <= i < placed.len() implies #[trigger] out[i] == placed[i] by {
                assert(out[i] == next[i]);
            }
        }
    }

    /// A candidate that is tried is blocked afterwards, if only by itself.
    proof fn column_tries(
        self,
        keepouts: Seq<KeepoutShape>,
        space: int,
        placed: Seq<Rect>,
        cx: int,
        cy: int,
        n: int,
    )
        requires
            self.valid(),
            0 <= space <= 0x8000_0001,
            self.x <= cx,
            cx + self.half_x <= self.x_limit,
            self.y <= cy,
            0 <= n,
            cy + n * self.pitch_y + self.half_y <= self.y_limit,
        ensures
            is_blocked(
                with_placed(keepouts, self.after_column(keepouts, space, placed, cx, cy), space),
                self.candidate(cx, cy + n * self.pitch_y),
            ),
        decreases n,
    {
        let step = self.pitch_y as int;
        assert(n * step >= 0) by (nonlinear_arith)
            requires
                n >= 0,
                step > 0,
        ;
        let r = self.candidate(cx, cy);
        let next = if is_blocked(with_placed(keepouts, placed, space), r) {
            placed
        } else {
            placed.push(r)
        };
        let out = self.after_column(keepouts, space, placed, cx, cy);
        if n == 0 {
            assert(n * step == 0) by (nonlinear_arith)
                requires
                    n == 0,
            ;
            self.column_adds(keepouts, space, next, cx, cy + step);
            let all = with_placed(keepouts, next, space);
            if !is_blocked(with_placed(keepouts, placed, space), r) {
                let k = keepouts.len() + placed.len();
                assert(all[k as int] == rect_keepout(r.spec_grown(space)));
                assert(all[k as int].blocks(r));
            }
            stays_blocked(keepouts, next, out, space, r);
        } else {
            assert((n - 1) * step + step == n * step) by (nonlinear_arith);
            self.column_tries(keepouts, space, next, cx, cy + step, n - 1);
        }
    }

    proof fn columns_try(self, keepouts: Seq<KeepoutShape>, space: int, placed: Seq<Rect>, cx: int, i: int, n: int)
        requires
            self.valid(),
            0 <= space <= 0x8000_0001,
            self.x <= cx,
            0 <= i,
            cx + i * self.pitch_x + self.half_x <= self.x_limit,
            0 <= n,
            self.y + n * self.pitch_y + self.half_y <= self.y_limit,
        ensures
            is_blocked(
                with_placed(keepouts, self.after_columns(keepouts, space, placed, cx), space),
                self.candidate(cx + i * self.pitch_x, self.y + n * self.pitch_y),
            ),
        decreases i,
    {
        let step = self.pitch_x as int;
        assert(i * step >= 0) by (nonlinear_arith)
            requires
                i >= 0,
                step > 0,
        ;
        let next = self.after_column(keepouts, space, placed, cx, self.y as int);
        let out = self.after_columns(keepouts, space, placed, cx);
        if i == 0 {
            assert(i * step == 0) by (nonlinear_arith)
                requires
                    i == 0,
            ;
            self.column_tries(keepouts, space, placed, cx, self.y as int, n);
            self.columns_add(keepouts, space, next, cx + step);
            stays_blocked(keepouts, next, out, space, self.candidate(cx, self.y + n * self.pitch_y));
        } else {
            assert((i - 1) * step + step == i * step) by (nonlinear_arith);
            self.columns_try(keepouts, space, next, cx + step, i - 1, n);
        }
    }
}

impl TrackRun {
    /// `r` has these sizes along and across the tracks.
    pub open spec fn has_sizes(self, free: int, perp: int, r: Rect) -> bool {
        match self.grid.orientation {
            TrackOrientation::Vertical => r.x1 - r.x0 == perp && r.y1 - r.y0 == free,
            TrackOrientation::Horizontal => r.x1 - r.x0 == free && r.y1 - r.y0 == perp,
        }
    }

    /// `r` is on track `k` at slot `m` of the tracks, inside the core box and the
    /// tile, with the least space left at the upper edges along the tracks.
    pub open spec fn is_slot(self, core: Rect, free: int, perp: int, k: int, m: int, r: Rect) -> bool {
        let space = self.grid.min_space;
        &&& self.has_sizes(free, perp, r)
        &&& core.spec_encloses(r)
        &&& self.tile.spec_encloses(r)
        &&& match self.grid.orientation {
            TrackOrientation::Vertical => {
                &&& r.x0 + r.x1 == 2 * (self.phase.x + k * self.grid.gaps)
                &&& r.y0 == self.phase.y + m * (free + space)
                &&& r.y1 + space <= core.y1 && r.y1 + space <= self.tile.y1
            },
            TrackOrientation::Horizontal => {
                &&& r.y0 + r.y1 == 2 * (self.phase.y + k * self.grid.gaps)
                &&& r.x0 == self.phase.x + m * (free + space)
                &&& r.x1 + space <= core.x1 && r.x1 + space <= self.tile.x1
            },
        }
    }

    /// Every slot of these sizes is blocked.
    pub open spec fn is_tried(
        self,
        keepouts: Seq<KeepoutShape>,
        cores: Seq<Rect>,
        free: int,
        perp: int,
        placed: Seq<Rect>,
    ) -> bool {
        forall|c: int, k: int, m: int, r: Rect|
            0 <= c < cores.len() && #[trigger] self.is_slot(cores[c], free, perp, k, m, r) ==> is_blocked(
                with_placed(keepouts, placed, self.grid.min_space as int),
                r,
            )
    }

    proof fn stays_tried(
        self,
        keepouts: Seq<KeepoutShape>,
        cores: Seq<Rect>,
        free: int,
        perp: int,
        a: Seq<Rect>,
        b: Seq<Rect>,
    )
        requires
            self.is_tried(keepouts, cores, free, perp, a),
            is_prefix(a, b),
        ensures
            self.is_tried(keepouts, cores, free, perp, b),
    {
        assert forall|c: int, k: int, m: int, r: Rect|
            0 <= c < cores.len() && #[trigger] self.is_slot(cores[c], free, perp, k, m, r) implies is_blocked(
            with_placed(keepouts, b, self.grid.min_space as int),
            r,
        ) by {
            stays_blocked(keepouts, a, b, self.grid.min_space as int, r);
        }
    }

    /// Even sizes within the bounds.
    pub open spec fn are_sizes(self, free: int, perp: int) -> bool {
        &&& self.grid.min_size <= free <= self.grid.max_size
        &&& self.grid.min_size <= perp <= self.grid.max_size
        &&& free % 2 == 0
        &&& perp % 2 == 0
    }

    proof fn offset_in_bounds(self, perp: int, o: int)
        requires
            self.valid(),
            0 < perp <= 0x8000_0001,
            0 <= o < self.grid.tracks_per_pitch(perp),
        ensures
            0 <= self.grid.offset(o) <= 0x4_0000_0000,
    {
        self.grid.pitch_in_bounds(perp);
        let (g, q) = (self.grid.gaps as int, self.grid.tracks_per_pitch(perp));
        assert(0 <= o * g <= q * g) by (nonlinear_arith)
            requires
                0 <= o <= q,
                g > 0,
        ;
    }

    /// A slot is a candidate of one of the sweeps of its core box.
    proof fn slot_is_swept(self, core: Rect, free: int, perp: int, k: int, m: int, r: Rect) -> (at: (int, int, int))
        requires
            self.valid(),
            core.in_range(),
            self.are_sizes(free, perp),
            self.is_slot(core, free, perp, k, m, r),
        ensures
            ({
                let (o, i, n) = at;
                &&& 0 <= o < self.grid.tracks_per_pitch(perp)
                &&& o == k % self.grid.tracks_per_pitch(perp)
                &&& self.grid.sweep(self.tile, core, self.phase, free, perp, self.grid.offset(o)) matches Some(w)
                    && w.valid() && w.reaches(i, n) && w.candidate(w.x + i * w.pitch_x, w.y + n * w.pitch_y) == r
            }),
    {
        let g = self.grid.gaps as int;
        let q = self.grid.tracks_per_pitch(perp);
        self.grid.pitch_in_bounds(perp);
        lemma_fundamental_div_mod(k, q);
        let (o, far) = (k % q, k / q);
        self.offset_in_bounds(perp, o);
        self.sweep_is_held(core, free, perp, o);
        let offset = self.grid.offset(o);
        let (across, along) = (q * g, free + self.grid.min_space);
        assert(k * g == o * g + far * (q * g)) by (nonlinear_arith)
            requires
                k == q * far + o,
        ;
        let bx0 = max_of(core.x0 as int, self.tile.x0 as int);
        let by0 = max_of(core.y0 as int, self.tile.y0 as int);
        let w = self.grid.sweep(self.tile, core, self.phase, free, perp, offset)->0;
        match self.grid.orientation {
            TrackOrientation::Vertical => {
                let gap_x = bx0 + perp / 2 - (self.phase.x + offset);
                let gap_y = by0 + free / 2 - (self.phase.y + free / 2);
                let (i, n) = (far - ceil_div(gap_x, across), m - ceil_div(gap_y, along));
                first_reaches(gap_x, across, far);
                first_reaches(gap_y, along, m);
                assert(w.valid());
                assert(w.pitch_x == across && w.pitch_y == along);
                assert(w.x == self.phase.x + offset + ceil_div(gap_x, across) * across);
                assert(w.y == self.phase.y + free / 2 + ceil_div(gap_y, along) * along);
                assert(w.x + i * w.pitch_x == self.phase.x + k * g);
                assert(w.y + n * w.pitch_y == self.phase.y + free / 2 + m * along);
                assert(w.candidate(w.x + i * w.pitch_x, w.y + n * w.pitch_y) == r);
                (o, i, n)
            },
            TrackOrientation::Horizontal => {
                let gap_x = bx0 + free / 2 - (self.phase.x + free / 2);
                let gap_y = by0 + perp / 2 - (self.phase.y + offset);
                let (i, n) = (m - ceil_div(gap_x, along), far - ceil_div(gap_y, across));
                first_reaches(gap_x, along, m);
                first_reaches(gap_y, across, far);
                assert(w.valid());
                assert(w.pitch_x == along && w.pitch_y == across);
                assert(w.x == self.phase.x + free / 2 + ceil_div(gap_x, along) * along);
                assert(w.y == self.phase.y + offset + ceil_div(gap_y, across) * across);
                assert(w.x + i * w.pitch_x == self.phase.x + free / 2 + m * along);
                assert(w.y + n * w.pitch_y == self.phase.y + k * g);
                assert(w.candidate(w.x + i * w.pitch_x, w.y + n * w.pitch_y) == r);
                (o, i, n)
            },
        }
    }
}

/// The first multiple of the pitch that reaches a gap is not above another one.
proof fn first_reaches(gap: int, pitch: int, n: int)
    requires
        pitch > 0,
        n * pitch >= gap,
    ensures
        ceil_div(gap, pitch) <= n,
        gap <= ceil_div(gap, pitch) * pitch < gap + pitch,
        ceil_div(gap, pitch) * pitch + (n - ceil_div(gap, pitch)) * pitch == n * pitch,
{
    let c = ceil_div(gap, pitch);
    ceil_div_bounds(gap, pitch);
    assert(c <= n) by (nonlinear_arith)
        requires
            pitch > 0,
            n * pitch >= gap,
            c * pitch < gap + pitch,
    ;
    assert(c * pitch + (n - c) * pitch == n * pitch) by (nonlinear_arith);
}

impl TrackRun {
    /// `b` begins with `a`, and what it adds has these sizes.
    pub open spec fn adds(self, free: int, perp: int, a: Seq<Rect>, b: Seq<Rect>) -> bool {
        is_prefix(a, b) && forall|n: int| a.len() <= n < b.len() ==> self.has_sizes(free, perp, #[trigger] b[n])
    }

    proof fn adds_on(self, free: int, perp: int, a: Seq<Rect>, b: Seq<Rect>, c: Seq<Rect>)
        requires
            self.adds(free, perp, a, b),
            self.adds(free, perp, b, c),
        ensures
            self.adds(free, perp, a, c),
    {
        assert forall|i: int| 0 <= i < a.len() implies #[trigger] c[i] == a[i] by {
            assert(c[i] == b[i]);
        }
        assert forall|n: int| a.len() <= n < c.len() implies self.has_sizes(free, perp, #[trigger] c[n]) by {
            if n < b.len() {
                assert(c[n] == b[n]);
            }
        }
    }

    proof fn cores_add(
        self,
        keepouts: Seq<KeepoutShape>,
        cores: Seq<Rect>,
        free: int,
        perp: int,
        o: int,
        placed: Seq<Rect>,
        m: int,
        n: int,
    )
        requires
            self.valid(),
            are_boxes(cores),
            self.are_sizes(free, perp),
            0 <= o < self.grid.tracks_per_pitch(perp),
            0 <= m <= n <= cores.len(),
        ensures
            self.adds(
                free,
                perp,
                self.after_cores(keepouts, cores, free, perp, self.grid.offset(o), placed, m),
                self.after_cores(keepouts, cores, free, perp, self.grid.offset(o), placed, n),
            ),
        decreases n - m,
    {
        if m < n {
            let offset = self.grid.offset(o);
            let first = self.after_cores(keepouts, cores, free, perp, offset, placed, m);
            let before = self.after_cores(keepouts, cores, free, perp, offset, placed, n - 1);
            let now = self.after_cores(keepouts, cores, free, perp, offset, placed, n);
            self.cores_add(keepouts, cores, free, perp, o, placed, m, n - 1);
            self.offset_in_bounds(perp, o);
            assert(cores[n - 1].in_range());
            self.sweep_is_held(cores[n - 1], free, perp, o);
            if let Some(w) = self.grid.sweep(self.tile, cores[n - 1], self.phase, free, perp, offset) {
                w.columns_add(keepouts, self.grid.min_space as int, before, w.x as int);
            }
            assert(self.adds(free, perp, before, now));
            self.adds_on(free, perp, first, before, now);
        }
    }

    proof fn offsets_add(
        self,
        keepouts: Seq<KeepoutShape>,
        cores: Seq<Rect>,
        free: int,
        perp: int,
        placed: Seq<Rect>,
        m: int,
        n: int,
    )
        requires
            self.valid(),
            are_boxes(cores),
            self.are_sizes(free, perp),
            0 <= m <= n <= self.grid.tracks_per_pitch(perp),
        ensures
            self.adds(
                free,
                perp,
                self.after_offsets(keepouts, cores, free, perp, placed, m),
                self.after_offsets(keepouts, cores, free, perp, placed, n),
            ),
        decreases n - m,
    {
        if m < n {
            let first = self.after_offsets(keepouts, cores, free, perp, placed, m);
            let before = self.after_offsets(keepouts, cores, free, perp, placed, n - 1);
            let now = self.after_offsets(keepouts, cores, free, perp, placed, n);
            self.offsets_add(keepouts, cores, free, perp, placed, m, n - 1);
            self.cores_add(keepouts, cores, free, perp, n - 1, before, 0, cores.len() as int);
            self.adds_on(free, perp, first, before, now);
        }
    }

    /// After all track offsets of a size, every slot of it is blocked.
    proof fn offsets_try(self, keepouts: Seq<KeepoutShape>, cores: Seq<Rect>, free: int, perp: int, placed: Seq<Rect>)
        requires
            self.valid(),
            are_boxes(cores),
            self.are_sizes(free, perp),
        ensures
            self.is_tried(
                keepouts,
                cores,
                free,
                perp,
                self.after_offsets(keepouts, cores, free, perp, placed, self.grid.tracks_per_pitch(perp)),
            ),
    {
        let q = self.grid.tracks_per_pitch(perp);
        let space = self.grid.min_space as int;
        let out = self.after_offsets(keepouts, cores, free, perp, placed, q);
        let len = cores.len() as int;
        assert forall|c: int, k: int, m: int, r: Rect|
            0 <= c < cores.len() && #[trigger] self.is_slot(cores[c], free, perp, k, m, r) implies is_blocked(
            with_placed(keepouts, out, space),
            r,
        ) by {
            assert(cores[c].in_range());
            let (o, i, n) = self.slot_is_swept(cores[c], free, perp, k, m, r);
            let offset = self.grid.offset(o);
            let w = self.grid.sweep(self.tile, cores[c], self.phase, free, perp, offset)->0;
            let start = self.after_offsets(keepouts, cores, free, perp, placed, o);
            let before = self.after_cores(keepouts, cores, free, perp, offset, start, c);
            let now = self.after_cores(keepouts, cores, free, perp, offset, start, c + 1);
            let end = self.after_cores(keepouts, cores, free, perp, offset, start, len);
            w.columns_try(keepouts, space, before, w.x as int, i, n);
            assert(is_blocked(with_placed(keepouts, now, space), r));
            self.cores_add(keepouts, cores, free, perp, o, start, c + 1, len);
            stays_blocked(keepouts, now, end, space, r);
            assert(end == self.after_offsets(keepouts, cores, free, perp, placed, o + 1));
            self.offsets_add(keepouts, cores, free, perp, placed, o + 1, q);
            stays_blocked(keepouts, end, out, space, r);
        }
    }

    /// Even sizes within the bounds, for one size along the tracks.
    pub open spec fn are_all_sizes(self, free: int, perps: Seq<i64>) -> bool {
        forall|q: int| 0 <= q < perps.len() ==> self.are_sizes(free, #[trigger] perps[q] as int)
    }

    proof fn perps_add(
        self,
        keepouts: Seq<KeepoutShape>,
        cores: Seq<Rect>,
        free: int,
        perps: Seq<i64>,
        placed: Seq<Rect>,
        m: int,
        n: int,
    )
        requires
            self.valid(),
            are_boxes(cores),
            self.are_all_sizes(free, perps),
            0 <= m <= n <= perps.len(),
        ensures
            is_prefix(
                self.after_perps(keepouts, cores, free, perps, placed, m),
                self.after_perps(keepouts, cores, free, perps, placed, n),
            ),
            m == n - 1 ==> self.adds(
                free,
                perps[m] as int,
                self.after_perps(keepouts, cores, free, perps, placed, m),
                self.after_perps(keepouts, cores, free, perps, placed, n),
            ),
        decreases n - m,
    {
        if m < n {
            let first = self.after_perps(keepouts, cores, free, perps, placed, m);
            let before = self.after_perps(keepouts, cores, free, perps, placed, n - 1);
            let now = self.after_perps(keepouts, cores, free, perps, placed, n);
            let perp = perps[n - 1] as int;
            self.perps_add(keepouts, cores, free, perps, placed, m, n - 1);
            assert(self.are_sizes(free, perp));
            self.grid.pitch_in_bounds(perp);
            self.offsets_add(keepouts, cores, free, perp, before, 0, self.grid.tracks_per_pitch(perp));
            assert forall|i: int| 0 <= i < first.len() implies #[trigger] now[i] == first[i] by {
                assert(now[i] == before[i]);
            }
        }
    }

    proof fn perps_try(
        self,
        keepouts: Seq<KeepoutShape>,
        cores: Seq<Rect>,
        free: int,
        perps: Seq<i64>,
        placed: Seq<Rect>,
        q: int,
        n: int,
    )
        requires
            self.valid(),
            are_boxes(cores),
            self.are_all_sizes(free, perps),
            0 <= q < n <= perps.len(),
        ensures
            self.is_tried(
                keepouts,
                cores,
                free,
                perps[q] as int,
                self.after_perps(keepouts, cores, free, perps, placed, n),
            ),
    {
        let before = self.after_perps(keepouts, cores, free, perps, placed, q);
        assert(self.are_sizes(free, perps[q] as int));
        self.offsets_try(keepouts, cores, free, perps[q] as int, before);
        self.perps_add(keepouts, cores, free, perps, placed, q + 1, n);
        self.stays_tried(
            keepouts,
            cores,
            free,
            perps[q] as int,
            self.after_perps(keepouts, cores, free, perps, placed, q + 1),
            self.after_perps(keepouts, cores, free, perps, placed, n),
        );
    }

    /// What is placed before size `i` along the tracks, if nothing ends it.
    spec fn before_free(
        self,
        keepouts: Seq<KeepoutShape>,
        cores: Seq<Rect>,
        frees: Seq<i64>,
        perps: Seq<i64>,
        i: int,
    ) -> Seq<Rect>
        decreases i,
    {
        if i <= 0 {
            Seq::empty()
        } else {
            let before = self.before_free(keepouts, cores, frees, perps, i - 1);
            self.after_perps(keepouts, cores, frees[i - 1] as int, perps, before, perps.len() as int)
        }
    }

    /// The fill ends before some size along the tracks: the first that follows
    /// upon enough, or the end of the list.
    proof fn fill_ends(
        self,
        keepouts: Seq<KeepoutShape>,
        cores: Seq<Rect>,
        frees: Seq<i64>,
        perps: Seq<i64>,
        i: int,
    ) -> (n: int)
        requires
            0 <= i < frees.len(),
        ensures
            i < n <= frees.len(),
            self.after_frees(keepouts, cores, frees, perps, self.before_free(keepouts, cores, frees, perps, i), i)
                == self.before_free(keepouts, cores, frees, perps, n),
            n == frees.len() || self.is_enough(self.before_free(keepouts, cores, frees, perps, n)),
            forall|j: int| i < j < n ==> !self.is_enough(#[trigger] self.before_free(keepouts, cores, frees, perps, j)),
        decreases frees.len() - i,
    {
        reveal_with_fuel(TrackRun::after_frees, 2);
        let next = self.before_free(keepouts, cores, frees, perps, i + 1);
        assert(next == self.after_perps(
            keepouts,
            cores,
            frees[i] as int,
            perps,
            self.before_free(keepouts, cores, frees, perps, i),
            perps.len() as int,
        ));
        if self.is_enough(next) || i + 1 == frees.len() {
            i + 1
        } else {
            let n = self.fill_ends(keepouts, cores, frees, perps, i + 1);
            n
        }
    }

    /// All sizes of the lists are even and within the bounds.
    pub open spec fn are_lists(self, frees: Seq<i64>, perps: Seq<i64>) -> bool {
        forall|i: int| 0 <= i < frees.len() ==> self.are_all_sizes(#[trigger] frees[i] as int, perps)
    }

    proof fn frees_add(
        self,
        keepouts: Seq<KeepoutShape>,
        cores: Seq<Rect>,
        frees: Seq<i64>,
        perps: Seq<i64>,
        m: int,
        n: int,
    )
        requires
            self.valid(),
            are_boxes(cores),
            self.are_lists(frees, perps),
            0 <= m <= n <= frees.len(),
        ensures
            is_prefix(
                self.before_free(keepouts, cores, frees, perps, m),
                self.before_free(keepouts, cores, frees, perps, n),
            ),
        decreases n - m,
    {
        if m < n {
            let first = self.before_free(keepouts, cores, frees, perps, m);
            let before = self.before_free(keepouts, cores, frees, perps, n - 1);
            let now = self.before_free(keepouts, cores, frees, perps, n);
            self.frees_add(keepouts, cores, frees, perps, m, n - 1);
            assert(self.are_all_sizes(frees[n - 1] as int, perps));
            self.perps_add(keepouts, cores, frees[n - 1] as int, perps, before, 0, perps.len() as int);
            assert forall|i: int| 0 <= i < first.len() implies #[trigger] now[i] == first[i] by {
                assert(now[i] == before[i]);
            }
        }
    }

    /// All slots of size `i` along and `q` across the tracks are blocked before
    /// a later size along them.
    proof fn frees_try(
        self,
        keepouts: Seq<KeepoutShape>,
        cores: Seq<Rect>,
        frees: Seq<i64>,
        perps: Seq<i64>,
        i: int,
        q: int,
        n: int,
    )
        requires
            self.valid(),
            are_boxes(cores),
            self.are_lists(frees, perps),
            0 <= i < n <= frees.len(),
            0 <= q < perps.len(),
        ensures
            self.is_tried(
                keepouts,
                cores,
                frees[i] as int,
                perps[q] as int,
                self.before_free(keepouts, cores, frees, perps, n),
            ),
    {
        let before = self.before_free(keepouts, cores, frees, perps, i);
        let next = self.before_free(keepouts, cores, frees, perps, i + 1);
        assert(self.are_all_sizes(frees[i] as int, perps));
        self.perps_try(keepouts, cores, frees[i] as int, perps, before, q, perps.len() as int);
        self.frees_add(keepouts, cores, frees, perps, i + 1, n);
        self.stays_tried(
            keepouts,
            cores,
            frees[i] as int,
            perps[q] as int,
            next,
            self.before_free(keepouts, cores, frees, perps, n),
        );
    }

    /// The size along the tracks with which a rectangle is placed.
    proof fn free_of(
        self,
        keepouts: Seq<KeepoutShape>,
        cores: Seq<Rect>,
        frees: Seq<i64>,
        perps: Seq<i64>,
        n: int,
        a: int,
    ) -> (i: int)
        requires
            0 <= n <= frees.len(),
            0 <= a < self.before_free(keepouts, cores, frees, perps, n).len(),
        ensures
            0 <= i < n,
            self.before_free(keepouts, cores, frees, perps, i).len() <= a < self.before_free(
                keepouts,
                cores,
                frees,
                perps,
                i + 1,
            ).len(),
        decreases n,
    {
        if a < self.before_free(keepouts, cores, frees, perps, n - 1).len() {
            self.free_of(keepouts, cores, frees, perps, n - 1, a)
        } else {
            n - 1
        }
    }

    /// The size across the tracks with which a rectangle is placed.
    proof fn perp_of(
        self,
        keepouts: Seq<KeepoutShape>,
        cores: Seq<Rect>,
        free: int,
        perps: Seq<i64>,
        placed: Seq<Rect>,
        n: int,
        a: int,
    ) -> (q: int)
        requires
            0 <= n <= perps.len(),
            placed.len() <= a < self.after_perps(keepouts, cores, free, perps, placed, n).len(),
        ensures
            0 <= q < n,
            self.after_perps(keepouts, cores, free, perps, placed, q).len() <= a < self.after_perps(
                keepouts,
                cores,
                free,
                perps,
                placed,
                q + 1,
            ).len(),
        decreases n,
    {
        if a < self.after_perps(keepouts, cores, free, perps, placed, n - 1).len() {
            self.perp_of(keepouts, cores, free, perps, placed, n - 1, a)
        } else {
            n - 1
        }
    }
}

impl TrackGrid {
    /// The bounds are on the step grid.
    spec fn is_snapped(self) -> bool {
        &&& self.valid()
        &&& is_multiple(self.min_size as int, self.step as int)
        &&& is_multiple(self.max_size as int, self.step as int)
    }

    /// The size on the step grid for a length.
    spec fn size_for(self, wanted: int) -> int {
        clamp_between(round_near(wanted, self.step as int), self.min_size as int, self.max_size as int)
    }

    proof fn size_is_snapped(self, wanted: int)
        requires
            self.is_snapped(),
        ensures
            is_multiple(self.size_for(wanted), self.step as int),
            self.min_size <= self.size_for(wanted) <= self.max_size,
    {
        vstd::arithmetic::div_mod::lemma_mod_multiples_basic(
            (2 * wanted + self.step) / (2 * self.step as int),
            self.step as int,
        );
    }

    /// The sizes are on the step grid.
    spec fn are_snapped(self, sizes: Seq<i64>) -> bool {
        forall|u: int| 0 <= u < sizes.len() ==> is_multiple(#[trigger] sizes[u] as int, self.step as int)
    }

    proof fn frees_are_snapped(self, heights: Seq<i64>, db: int, n: int)
        requires
            self.is_snapped(),
        ensures
            self.are_snapped(self.free_sizes(heights, db, n)),
        decreases n,
    {
        if n > 0 {
            self.frees_are_snapped(heights, db, n - 1);
            self.size_is_snapped(units_of(heights[n - 1] as int, db));
        }
    }

    proof fn fracs_are_snapped(self, fracs: Seq<i64>, n_max: int, n: int)
        requires
            self.is_snapped(),
        ensures
            self.are_snapped(self.frac_sizes(fracs, n_max, n)),
        decreases n,
    {
        if n > 0 {
            self.fracs_are_snapped(fracs, n_max, n - 1);
            self.size_is_snapped((fracs[n - 1] * n_max) / 1000 * self.gaps);
        }
    }

    /// A size on the step grid that is not new is the last of the list.
    proof fn old_size_is_last(self, sizes: Seq<i64>, s: int)
        requires
            self.is_snapped(),
            self.are_snapped(sizes),
            is_multiple(s, self.step as int),
            !is_new_size(sizes, s, self.step as int),
        ensures
            sizes.len() > 0,
            sizes.last() == s,
    {
        let step = self.step as int;
        let last = sizes.last() as int;
        assert(is_multiple(sizes[sizes.len() - 1] as int, step));
        lemma_fundamental_div_mod(s, step);
        lemma_fundamental_div_mod(last, step);
        let (i, j) = (s / step, last / step);
        assert(step * (i - j) == step * i - step * j) by (nonlinear_arith);
        assert(i == j) by (nonlinear_arith)
            requires
                step > 0,
                -step <= 2 * (step * (i - j)) <= step,
        ;
    }

    /// Every height has its size in the list.
    proof fn height_is_listed(self, heights: Seq<i64>, db: int, n: int, j: int) -> (u: int)
        requires
            self.is_snapped(),
            0 <= j < n <= heights.len(),
        ensures
            0 <= u < self.free_sizes(heights, db, n).len(),
            self.free_sizes(heights, db, n)[u] == self.size_for(units_of(heights[j] as int, db)),
        decreases n,
    {
        let before = self.free_sizes(heights, db, n - 1);
        let s = self.size_for(units_of(heights[n - 1] as int, db));
        self.size_is_snapped(units_of(heights[n - 1] as int, db));
        if j < n - 1 {
            self.height_is_listed(heights, db, n - 1, j)
        } else if is_new_size(before, s, self.step as int) {
            before.len() as int
        } else {
            self.frees_are_snapped(heights, db, n - 1);
            self.old_size_is_last(before, s);
            before.len() - 1
        }
    }

    proof fn frees_are_prefix(self, heights: Seq<i64>, db: int, m: int, n: int)
        requires
            0 <= m <= n,
        ensures
            is_prefix(self.free_sizes(heights, db, m), self.free_sizes(heights, db, n)),
        decreases n - m,
    {
        if m < n {
            self.frees_are_prefix(heights, db, m, n - 1);
            let (a, b, c) = (
                self.free_sizes(heights, db, m),
                self.free_sizes(heights, db, n - 1),
                self.free_sizes(heights, db, n),
            );
            assert forall|i: int| 0 <= i < a.len() implies #[trigger] c[i] == a[i] by {
                assert(b[i] == a[i]);
            }
        }
    }

    /// Every size of the list is that of a height, and those before it are of the
    /// heights before it.
    proof fn free_is_of_height(self, heights: Seq<i64>, db: int, n: int, u: int) -> (h: int)
        requires
            self.is_snapped(),
            0 <= n <= heights.len(),
            0 <= u < self.free_sizes(heights, db, n).len(),
        ensures
            0 <= h < n,
            self.free_sizes(heights, db, n)[u] == self.size_for(units_of(heights[h] as int, db)),
            self.free_sizes(heights, db, h).len() == u,
        decreases n,
    {
        self.size_is_snapped(units_of(heights[n - 1] as int, db));
        if u < self.free_sizes(heights, db, n - 1).len() {
            self.free_is_of_height(heights, db, n - 1, u)
        } else {
            n - 1
        }
    }

    /// Every fraction that is at least one track has its size in the list.
    proof fn frac_is_listed(self, fracs: Seq<i64>, n_max: int, n: int, j: int) -> (u: int)
        requires
            self.is_snapped(),
            0 <= j < n <= fracs.len(),
            (fracs[j] * n_max) / 1000 >= 1,
        ensures
            0 <= u < self.frac_sizes(fracs, n_max, n).len(),
            self.frac_sizes(fracs, n_max, n)[u] == self.size_for((fracs[j] * n_max) / 1000 * self.gaps),
        decreases n,
    {
        let before = self.frac_sizes(fracs, n_max, n - 1);
        let wanted = (fracs[n - 1] * n_max) / 1000 * self.gaps;
        let s = self.size_for(wanted);
        self.size_is_snapped(wanted);
        if j < n - 1 {
            self.frac_is_listed(fracs, n_max, n - 1, j)
        } else if is_new_size(before, s, self.step as int) {
            before.len() as int
        } else {
            self.fracs_are_snapped(fracs, n_max, n - 1);
            self.old_size_is_last(before, s);
            before.len() - 1
        }
    }

    proof fn fracs_are_prefix(self, fracs: Seq<i64>, n_max: int, m: int, n: int)
        requires
            0 <= m <= n,
        ensures
            is_prefix(self.frac_sizes(fracs, n_max, m), self.frac_sizes(fracs, n_max, n)),
        decreases n - m,
    {
        if m < n {
            self.fracs_are_prefix(fracs, n_max, m, n - 1);
            let (a, b, c) = (
                self.frac_sizes(fracs, n_max, m),
                self.frac_sizes(fracs, n_max, n - 1),
                self.frac_sizes(fracs, n_max, n),
            );
            assert forall|i: int| 0 <= i < a.len() implies #[trigger] c[i] == a[i] by {
                assert(b[i] == a[i]);
            }
        }
    }

    proof fn size_is_of_frac(self, fracs: Seq<i64>, n_max: int, n: int, u: int) -> (h: int)
        requires
            self.is_snapped(),
            0 <= n <= fracs.len(),
            0 <= u < self.frac_sizes(fracs, n_max, n).len(),
        ensures
            0 <= h < n,
            (fracs[h] * n_max) / 1000 >= 1,
            self.frac_sizes(fracs, n_max, n)[u] == self.size_for((fracs[h] * n_max) / 1000 * self.gaps),
            self.frac_sizes(fracs, n_max, h).len() == u,
        decreases n,
    {
        self.size_is_snapped((fracs[n - 1] * n_max) / 1000 * self.gaps);
        if u < self.frac_sizes(fracs, n_max, n - 1).len() {
            self.size_is_of_frac(fracs, n_max, n - 1, u)
        } else {
            n - 1
        }
    }

    /// The breadth `s` is that of a fraction, or the least one.
    spec fn breadth(self, fracs: Seq<i64>, n_max: int, s: int) -> int {
        if s < fracs.len() {
            self.size_for((fracs[s] * n_max) / 1000 * self.gaps)
        } else {
            self.min_size as int
        }
    }

    spec fn has_breadth(self, fracs: Seq<i64>, n_max: int, s: int) -> bool {
        0 <= s <= fracs.len() && (s < fracs.len() ==> (fracs[s] * n_max) / 1000 >= 1)
    }

    proof fn breadth_is_listed(self, fracs: Seq<i64>, n_max: int, s: int) -> (q: int)
        requires
            self.is_snapped(),
            self.has_breadth(fracs, n_max, s),
        ensures
            0 <= q < self.perp_sizes(fracs, n_max).len(),
            self.perp_sizes(fracs, n_max)[q] == self.breadth(fracs, n_max, s),
    {
        let v = self.frac_sizes(fracs, n_max, fracs.len() as int);
        self.fracs_are_snapped(fracs, n_max, fracs.len() as int);
        if s < fracs.len() {
            self.frac_is_listed(fracs, n_max, fracs.len() as int, s)
        } else if is_new_size(v, self.min_size as int, self.step as int) {
            v.len() as int
        } else {
            self.old_size_is_last(v, self.min_size as int);
            v.len() - 1
        }
    }

    /// Every size across the tracks is a breadth, and those of the breadths before
    /// it are before it in the list.
    proof fn perp_is_breadth(self, fracs: Seq<i64>, n_max: int, q: int) -> (s: int)
        requires
            self.is_snapped(),
            0 <= q < self.perp_sizes(fracs, n_max).len(),
        ensures
            self.has_breadth(fracs, n_max, s),
            self.perp_sizes(fracs, n_max)[q] == self.breadth(fracs, n_max, s),
            forall|t: int| #[trigger]
                self.has_breadth(fracs, n_max, t) && t < s ==> self.is_listed_below(fracs, n_max, t, q),
    {
        let v = self.frac_sizes(fracs, n_max, fracs.len() as int);
        let all = self.perp_sizes(fracs, n_max);
        let s = if q < v.len() {
            self.size_is_of_frac(fracs, n_max, fracs.len() as int, q)
        } else {
            fracs.len() as int
        };
        assert forall|t: int| #[trigger] self.has_breadth(fracs, n_max, t) && t < s implies self.is_listed_below(
            fracs,
            n_max,
            t,
            q,
        ) by {
            let u = self.frac_is_listed(fracs, n_max, s, t);
            self.fracs_are_prefix(fracs, n_max, s, fracs.len() as int);
            assert(v[u] == self.frac_sizes(fracs, n_max, s)[u]);
            assert(all[u] == v[u]);
        }
        s
    }

    /// The breadth is in the list, before position `q`.
    spec fn is_listed_below(self, fracs: Seq<i64>, n_max: int, s: int, q: int) -> bool {
        exists|u: int|
            0 <= u < q && u < self.perp_sizes(fracs, n_max).len() && #[trigger] self.perp_sizes(fracs, n_max)[u]
                == self.breadth(fracs, n_max, s)
    }
}

/// The extent of `r` along the tracks.
pub open spec fn along(tp: TrackParams, r: Rect) -> int {
    match tp.orientation {
        TrackOrientation::Vertical => r.y1 - r.y0,
        TrackOrientation::Horizontal => r.x1 - r.x0,
    }
}

/// The extent of `r` across the tracks.
pub open spec fn across(tp: TrackParams, r: Rect) -> int {
    match tp.orientation {
        TrackOrientation::Vertical => r.x1 - r.x0,
        TrackOrientation::Horizontal => r.y1 - r.y0,
    }
}

/// `f` is the size on the grid, within the bounds, that is closest to `wanted`.
pub open spec fn is_size_for(tp: TrackParams, ctx: TileCtx, wanted: int, f: int) -> bool {
    let db = ctx.db_unit_nm as int;
    is_closest(
        f,
        wanted,
        units_of(tp.min_width as int, db),
        units_of(tp.max_width as int, db),
        4 * ctx.grid_dbu,
    )
}

/// `f` is the size along the tracks for height `i` of the list.
pub open spec fn is_height(tp: TrackParams, ctx: TileCtx, i: int, f: int) -> bool {
    &&& 0 <= i < tp.free_heights_nm@.len()
    &&& is_size_for(tp, ctx, units_of(tp.free_heights_nm@[i] as int, ctx.db_unit_nm as int), f)
}

/// `p` is the size across the tracks for fraction `s` of the list, in whole tracks
/// of those that the greatest width has room for; after the last fraction it is the
/// least width.
pub open spec fn is_breadth(tp: TrackParams, ctx: TileCtx, s: int, p: int) -> bool {
    let fracs = tp.pass_fracs@;
    let db = ctx.db_unit_nm as int;
    if 0 <= s < fracs.len() {
        let tracks = (fracs[s] * (tp.max_width as int / tp.gaps as int)) / 1000;
        tracks >= 1 && is_size_for(tp, ctx, tracks * units_of(tp.gaps as int, db), p)
    } else {
        s == fracs.len() && is_size_for(tp, ctx, units_of(tp.min_width as int, db), p)
    }
}

/// `r` is centred on track `k`, counted from the origin of the tracks, and starts
/// `m` times its size and the least space from it along the tracks; it lies in the
/// tile and in the box of core polygon `c`, the least space below the upper edges
/// along the tracks.
pub open spec fn is_room(tp: TrackParams, site: TrackSite, c: int, k: int, m: int, r: Rect) -> bool {
    let db = site.ctx.db_unit_nm as int;
    let (pitch, space) = (units_of(tp.gaps as int, db), units_of(tp.min_space as int, db));
    let core = bounds(site.cores[c].exterior);
    let tile = site.tile;
    &&& 0 <= c < site.cores.len()
    &&& site.cores[c].exterior.len() > 0
    &&& core.x0 <= r.x0 && r.x1 <= core.x1 && core.y0 <= r.y0 && r.y1 <= core.y1
    &&& tile.x0 <= r.x0 && r.x1 <= tile.x1 && tile.y0 <= r.y0 && r.y1 <= tile.y1
    &&& match tp.orientation {
        TrackOrientation::Vertical => {
            &&& r.x0 + r.x1 == 2 * (site.phase.x + k * pitch)
            &&& r.y0 == site.phase.y + m * (r.y1 - r.y0 + space)
            &&& r.y1 + space <= core.y1 && r.y1 + space <= tile.y1
        },
        TrackOrientation::Horizontal => {
            &&& r.y0 + r.y1 == 2 * (site.phase.y + k * pitch)
            &&& r.x0 == site.phase.x + m * (r.x1 - r.x0 + space)
            &&& r.x1 + space <= core.x1 && r.x1 + space <= tile.x1
        },
    }
}

/// `r` has the size for height `i` and fraction `s`.
pub open spec fn is_sized(tp: TrackParams, ctx: TileCtx, i: int, s: int, r: Rect) -> bool {
    is_height(tp, ctx, i, along(tp, r)) && is_breadth(tp, ctx, s, across(tp, r))
}

/// There is room in a core for `r`, which has the size for height `i` and fraction
/// `s`.
pub open spec fn is_candidate(tp: TrackParams, site: TrackSite, i: int, s: int, r: Rect) -> bool {
    is_sized(tp, site.ctx, i, s, r) && exists|c: int, k: int, m: int| #[trigger] is_room(tp, site, c, k, m, r)
}

/// `a` is within `space` of `b`.
pub open spec fn is_near(a: Rect, b: Rect, space: int) -> bool {
    a.x0 - space <= b.x1 && b.x0 <= a.x1 + space && a.y0 - space <= b.y1 && b.y0 <= a.y1 + space
}

/// `r` touches a keep-out or is within the least space of what is placed.
pub open spec fn is_taken(tp: TrackParams, site: TrackSite, placed: Seq<Rect>, r: Rect) -> bool {
    ||| is_blocked(site.keepouts, r)
    ||| exists|a: int|
        0 <= a < placed.len() && is_near(
            #[trigger] placed[a],
            r,
            units_of(tp.min_space as int, site.ctx.db_unit_nm as int),
        )
}

/// The candidate of height `j` and fraction `t` comes before those of height `i`
/// and fraction `s`.
pub open spec fn is_before(j: int, t: int, i: int, s: int) -> bool {
    j < i || j == i && t < s
}

/// No room is left for a candidate before height `i` and fraction `s`.
pub open spec fn is_full(tp: TrackParams, site: TrackSite, placed: Seq<Rect>, i: int, s: int) -> bool {
    forall|j: int, t: int, r: Rect|
        is_before(j, t, i, s) && #[trigger] is_candidate(tp, site, j, t, r) ==> is_taken(tp, site, placed, r)
}

/// A site with a core to fill, whose tile lacks fill, and heights to fill it with.
pub open spec fn is_fillable(tp: TrackParams, site: TrackSite) -> bool {
    &&& site.valid(tp)
    &&& site.cores.len() > 0
    &&& lacks_fill(site.ctx)
    &&& tp.free_heights_nm@.len() > 0
}

impl TrackSite {
    spec fn run(self, tp: TrackParams) -> TrackRun {
        track_run(self.tile, tp, self.ctx, self.phase)
    }

    spec fn boxes(self) -> Seq<Rect> {
        boxes_of(self.cores, self.cores.len() as int)
    }

    spec fn frees(self, tp: TrackParams) -> Seq<i64> {
        self.run(tp).grid.free_sizes(
            tp.free_heights_nm@,
            self.ctx.db_unit_nm as int,
            tp.free_heights_nm@.len() as int,
        )
    }

    spec fn perps(self, tp: TrackParams) -> Seq<i64> {
        self.run(tp).grid.perp_sizes(tp.pass_fracs@, tp.max_width as int / tp.gaps as int)
    }

    spec fn before(self, tp: TrackParams, i: int) -> Seq<Rect> {
        self.run(tp).before_free(self.keepouts, self.boxes(), self.frees(tp), self.perps(tp), i)
    }

    spec fn within(self, tp: TrackParams, i: int, q: int) -> Seq<Rect> {
        self.run(tp).after_perps(
            self.keepouts,
            self.boxes(),
            self.frees(tp)[i] as int,
            self.perps(tp),
            self.before(tp, i),
            q,
        )
    }

    /// The lists of sizes are on the grid and within the bounds.
    proof fn lists_are_sound(self, tp: TrackParams)
        requires
            is_fillable(tp, self),
        ensures
            self.run(tp).valid(),
            self.run(tp).grid.is_snapped(),
            are_boxes(self.boxes()),
            self.run(tp).are_lists(self.frees(tp), self.perps(tp)),
            self.frees(tp).len() > 0,
            self.fill(tp) == self.run(tp).after_frees(
                self.keepouts,
                self.boxes(),
                self.frees(tp),
                self.perps(tp),
                self.before(tp, 0),
                0,
            ),
    {
        let run = self.run(tp);
        let grid = run.grid;
        let step = grid.step as int;
        let db = self.ctx.db_unit_nm as int;
        let (frees, perps) = (self.frees(tp), self.perps(tp));
        let n_max = tp.max_width as int / tp.gaps as int;
        boxes_in_range(self.cores, self.cores.len() as int);
        units_bounds(tp.min_width as int, db);
        units_bounds(tp.max_width as int, db);
        rounding_is_tight(units_of(tp.min_width as int, db), step);
        rounding_is_tight(units_of(tp.max_width as int, db), step);
        let heights = tp.free_heights_nm@;
        grid.frees_are_snapped(heights, db, heights.len() as int);
        grid.free_sizes_bounded(heights, db, heights.len() as int);
        grid.fracs_are_snapped(tp.pass_fracs@, n_max, tp.pass_fracs@.len() as int);
        grid.frac_sizes_bounded(tp.pass_fracs@, n_max, tp.pass_fracs@.len() as int);
        assert(grid.are_snapped(perps));
        assert(sizes_in_bounds(perps, grid.min_size as int, grid.max_size as int));
        assert forall|i: int| 0 <= i < frees.len() implies run.are_all_sizes(#[trigger] frees[i] as int, perps) by {
            assert(is_multiple(frees[i] as int, step));
            multiple_is_even(frees[i] as int, self.ctx.grid_dbu as int);
            assert forall|q: int| 0 <= q < perps.len() implies run.are_sizes(
                frees[i] as int,
                #[trigger] perps[q] as int,
            ) by {
                assert(is_multiple(perps[q] as int, step));
                multiple_is_even(perps[q] as int, self.ctx.grid_dbu as int);
            }
        }
        let u = grid.height_is_listed(heights, db, heights.len() as int, 0);
        assert(self.ctx.wants_fill());
    }

    /// The closest size is the one on the step grid.
    proof fn closest_is_size(self, tp: TrackParams, wanted: int, f: int)
        requires
            is_fillable(tp, self),
        ensures
            is_size_for(tp, self.ctx, wanted, self.run(tp).grid.size_for(wanted)),
            is_size_for(tp, self.ctx, wanted, f) ==> f == self.run(tp).grid.size_for(wanted),
    {
        let grid = self.run(tp).grid;
        let step = grid.step as int;
        let db = self.ctx.db_unit_nm as int;
        let (lo, hi) = (units_of(tp.min_width as int, db), units_of(tp.max_width as int, db));
        units_bounds(tp.min_width as int, db);
        units_bounds(tp.max_width as int, db);
        rounding_is_tight(lo, step);
        rounding_is_tight(hi, step);
        clamped_is_closest(wanted, lo, hi, step);
        if is_size_for(tp, self.ctx, wanted, f) {
            closest_is_unique(f, grid.size_for(wanted), wanted, lo, hi, step);
        }
    }

    /// The least breadth is the size for the least width.
    proof fn least_is_size(self, tp: TrackParams)
        requires
            is_fillable(tp, self),
        ensures
            self.run(tp).grid.size_for(units_of(tp.min_width as int, self.ctx.db_unit_nm as int)) == self.run(
                tp,
            ).grid.min_size,
    {
        let grid = self.run(tp).grid;
        let step = grid.step as int;
        let db = self.ctx.db_unit_nm as int;
        let (lo, hi) = (units_of(tp.min_width as int, db), units_of(tp.max_width as int, db));
        units_bounds(tp.min_width as int, db);
        units_bounds(tp.max_width as int, db);
        rounding_is_tight(lo, step);
        rounding_is_tight(hi, step);
        let s = grid.size_for(lo);
        self.closest_is_size(tp, lo, s);
        assert(crate::fill::amounts::is_size(grid.min_size as int, lo, hi, step));
        assert(grid.min_size <= s);
    }

    /// Candidates are slots of their sizes, which are in the lists.
    proof fn candidate_is_slot(self, tp: TrackParams, j: int, t: int, r: Rect) -> (at: (int, int, int))
        requires
            is_fillable(tp, self),
            is_candidate(tp, self, j, t, r),
        ensures
            ({
                let (b, k, m) = at;
                0 <= b < self.boxes().len() && self.run(tp).is_slot(
                    self.boxes()[b],
                    along(tp, r),
                    across(tp, r),
                    k,
                    m,
                    r,
                )
            }),
            along(tp, r) == self.run(tp).grid.size_for(
                units_of(tp.free_heights_nm@[j] as int, self.ctx.db_unit_nm as int),
            ),
            self.run(tp).grid.has_breadth(tp.pass_fracs@, tp.max_width as int / tp.gaps as int, t),
            across(tp, r) == self.run(tp).grid.breadth(tp.pass_fracs@, tp.max_width as int / tp.gaps as int, t),
    {
        let run = self.run(tp);
        let db = self.ctx.db_unit_nm as int;
        let fracs = tp.pass_fracs@;
        units_bounds(tp.gaps as int, db);
        units_bounds(tp.min_space as int, db);
        self.closest_is_size(tp, units_of(tp.free_heights_nm@[j] as int, db), along(tp, r));
        if 0 <= t < fracs.len() {
            let tracks = (fracs[t] * (tp.max_width as int / tp.gaps as int)) / 1000;
            self.closest_is_size(tp, tracks * run.grid.gaps, across(tp, r));
        } else {
            self.closest_is_size(tp, units_of(tp.min_width as int, db), across(tp, r));
            self.least_is_size(tp);
        }
        let (c, k, m) = choose|c: int, k: int, m: int| #[trigger] is_room(tp, self, c, k, m, r);
        let b = box_is_listed(self.cores, self.cores.len() as int, c);
        assert(run.is_slot(self.boxes()[b], along(tp, r), across(tp, r), k, m, r));
        (b, k, m)
    }

    /// What is blocked by a part of the fill is taken.
    proof fn blocked_is_taken(self, tp: TrackParams, placed: Seq<Rect>, r: Rect)
        requires
            is_fillable(tp, self),
            is_prefix(placed, self.fill(tp)),
            is_blocked(with_placed(self.keepouts, placed, self.run(tp).grid.min_space as int), r),
        ensures
            is_taken(tp, self, placed, r),
    {
        let space = self.run(tp).grid.min_space as int;
        units_bounds(tp.min_space as int, self.ctx.db_unit_nm as int);
        track_fill_is_tidy(self.tile, self.keepouts, tp, self.cores, self.ctx, self.phase);
        let all = with_placed(self.keepouts, placed, space);
        let i = choose|i: int| 0 <= i < all.len() && (#[trigger] all[i]).blocks(r);
        if i < self.keepouts.len() {
            assert(self.keepouts[i].blocks(r));
        } else {
            let a = i - self.keepouts.len();
            assert(self.fill(tp)[a] == placed[a]);
            assert(self.run(tp).is_inside(self.fill(tp)[a]));
            assert(is_near(placed[a], r, space));
        }
    }
}

proof fn multiple_is_even(s: int, grid: int)
    requires
        grid > 0,
        is_multiple(s, 4 * grid),
    ensures
        s % 2 == 0,
{
    lemma_fundamental_div_mod(s, 4 * grid);
    let k = s / (4 * grid);
    assert((4 * grid) * k == 2 * (2 * (grid * k))) by (nonlinear_arith);
}

/// The box of a polygon with points is listed.
proof fn box_is_listed(shapes: Seq<Shape>, n: int, c: int) -> (b: int)
    requires
        0 <= c < n <= shapes.len(),
        shapes[c].exterior.len() > 0,
    ensures
        0 <= b < boxes_of(shapes, n).len(),
        boxes_of(shapes, n)[b] == bounds(shapes[c].exterior),
    decreases n,
{
    if c == n - 1 {
        boxes_of(shapes, n - 1).len() as int
    } else {
        box_is_listed(shapes, n - 1, c)
    }
}

/// Track fill ends only when the target is reached, to half the deviation, or no
/// room is left: then no candidate of any height and breadth, on any track of a
/// core, is clear of the keep-outs and of what is placed.
pub proof fn fill_ends_when_reached_or_full(tp: TrackParams, site: TrackSite)
    requires
        is_fillable(tp, site),
    ensures
        is_reached(site.ctx, covered(site.fill(tp))) || is_full(
            tp,
            site,
            site.fill(tp),
            tp.free_heights_nm@.len() as int,
            0,
        ),
{
    site.lists_are_sound(tp);
    let run = site.run(tp);
    let (boxes, frees, perps) = (site.boxes(), site.frees(tp), site.perps(tp));
    let n = run.fill_ends(site.keepouts, boxes, frees, perps, 0);
    let out = site.fill(tp);
    area_is_covered(site.ctx, out);
    if run.is_enough(out) {
        assert(is_reached(site.ctx, fill_area(out)));
    } else {
        let len = tp.free_heights_nm@.len() as int;
        assert forall|j: int, t: int, r: Rect|
            is_before(j, t, len, 0) && #[trigger] is_candidate(tp, site, j, t, r) implies is_taken(tp, site, out, r) by {
            let n_max = tp.max_width as int / tp.gaps as int;
            let db = site.ctx.db_unit_nm as int;
            let (b, k, m) = site.candidate_is_slot(tp, j, t, r);
            let u = run.grid.height_is_listed(tp.free_heights_nm@, db, len, j);
            let q = run.grid.breadth_is_listed(tp.pass_fracs@, n_max, t);
            run.frees_try(site.keepouts, boxes, frees, perps, u, q, n);
            assert(run.is_slot(boxes[b], frees[u] as int, perps[q] as int, k, m, r));
            site.blocked_is_taken(tp, out, r);
        }
    }
}

/// A new height is begun only while the target is not reached: where two
/// rectangles that follow each other differ along the tracks, what is placed
/// before the second leaves the tile more than half the deviation below the target.
pub proof fn heights_wait_for_the_target(tp: TrackParams, site: TrackSite, a: int)
    requires
        is_fillable(tp, site),
        0 < a < site.fill(tp).len(),
        along(tp, site.fill(tp)[a]) != along(tp, site.fill(tp)[a - 1]),
    ensures
        !is_reached(site.ctx, covered(site.fill(tp).take(a))),
{
    site.lists_are_sound(tp);
    let run = site.run(tp);
    let (kos, boxes, frees, perps) = (site.keepouts, site.boxes(), site.frees(tp), site.perps(tp));
    let n = run.fill_ends(kos, boxes, frees, perps, 0);
    let out = site.fill(tp);
    let i = run.free_of(kos, boxes, frees, perps, n, a);
    let j = run.free_of(kos, boxes, frees, perps, n, a - 1);
    site.placed_with(tp, n, i, a);
    site.placed_with(tp, n, j, a - 1);
    if i < j {
        run.frees_add(kos, boxes, frees, perps, i + 1, j);
    } else {
        assert(j < i);
        run.frees_add(kos, boxes, frees, perps, j + 1, i);
        run.frees_add(kos, boxes, frees, perps, i, n);
        let start = site.before(tp, i);
        assert(start =~= out.take(a));
        assert(!run.is_enough(run.before_free(kos, boxes, frees, perps, i)));
        area_is_covered(site.ctx, start);
    }
}

impl TrackSite {
    /// A rectangle has the size along the tracks with which it is placed, and one
    /// of the sizes across them.
    proof fn placed_with(self, tp: TrackParams, n: int, i: int, a: int) -> (q: int)
        requires
            is_fillable(tp, self),
            0 <= i < n <= self.frees(tp).len(),
            self.fill(tp) == self.before(tp, n),
            self.before(tp, i).len() <= a < self.before(tp, i + 1).len(),
        ensures
            0 <= q < self.perps(tp).len(),
            self.within(tp, i, q).len() <= a < self.within(tp, i, q + 1).len(),
            is_prefix(self.within(tp, i, q), self.fill(tp)),
            is_prefix(self.within(tp, i, q + 1), self.fill(tp)),
            is_prefix(self.before(tp, i), self.within(tp, i, q)),
            a < self.fill(tp).len(),
            along(tp, self.fill(tp)[a]) == self.frees(tp)[i],
            across(tp, self.fill(tp)[a]) == self.perps(tp)[q],
    {
        self.lists_are_sound(tp);
        let run = self.run(tp);
        let (kos, boxes, frees, perps) = (self.keepouts, self.boxes(), self.frees(tp), self.perps(tp));
        let free = frees[i] as int;
        let len = perps.len() as int;
        let start = self.before(tp, i);
        assert(run.are_all_sizes(free, perps));
        let q = run.perp_of(kos, boxes, free, perps, start, len, a);
        run.perps_add(kos, boxes, free, perps, start, 0, q);
        run.perps_add(kos, boxes, free, perps, start, q, q + 1);
        run.perps_add(kos, boxes, free, perps, start, q + 1, len);
        run.frees_add(kos, boxes, frees, perps, i + 1, n);
        let (here, then, end, out) = (
            self.within(tp, i, q),
            self.within(tp, i, q + 1),
            self.before(tp, i + 1),
            self.fill(tp),
        );
        assert(end == self.within(tp, i, len));
        assert(out[a] == end[a] && end[a] == then[a]);
        assert(run.has_sizes(free, perps[q] as int, then[a]));
        assert forall|p: int| 0 <= p < here.len() implies #[trigger] out[p] == here[p] by {
            assert(out[p] == end[p] && end[p] == then[p] && then[p] == here[p]);
        }
        assert forall|p: int| 0 <= p < then.len() implies #[trigger] out[p] == then[p] by {
            assert(out[p] == end[p] && end[p] == then[p]);
        }
        q
    }
}

/// Sizes are tried in order: a rectangle of some height and breadth is placed only
/// when no room is left for the heights before it, nor for its own height with
/// the breadths before it.
pub proof fn sizes_are_tried_in_order(tp: TrackParams, site: TrackSite, a: int)
    requires
        is_fillable(tp, site),
        0 <= a < site.fill(tp).len(),
    ensures
        exists|i: int, s: int| #[trigger]
            is_sized(tp, site.ctx, i, s, site.fill(tp)[a]) && is_full(tp, site, site.fill(tp).take(a), i, s),
{
    site.lists_are_sound(tp);
    let run = site.run(tp);
    let grid = run.grid;
    let db = site.ctx.db_unit_nm as int;
    let n_max = tp.max_width as int / tp.gaps as int;
    let (kos, boxes, frees, perps) = (site.keepouts, site.boxes(), site.frees(tp), site.perps(tp));
    let heights = tp.free_heights_nm@;
    let fracs = tp.pass_fracs@;
    let len = heights.len() as int;
    let n = run.fill_ends(kos, boxes, frees, perps, 0);
    let out = site.fill(tp);
    let i = run.free_of(kos, boxes, frees, perps, n, a);
    let q = site.placed_with(tp, n, i, a);
    let h = grid.free_is_of_height(heights, db, len, i);
    let s = grid.perp_is_breadth(fracs, n_max, q);
    let part = out.take(a);
    site.listed_is_sized(tp, h, s, out[a]);
    assert(is_prefix(part, out));
    assert(is_prefix(site.within(tp, i, q), part));
    assert forall|j: int, t: int, r: Rect|
        is_before(j, t, h, s) && #[trigger] is_candidate(tp, site, j, t, r) implies is_taken(tp, site, part, r) by {
        let (b, k, m) = site.candidate_is_slot(tp, j, t, r);
        if j < h {
            let u = grid.height_is_listed(heights, db, h, j);
            grid.frees_are_prefix(heights, db, h, len);
            assert(frees[u] == grid.free_sizes(heights, db, h)[u]);
            let v = grid.breadth_is_listed(fracs, n_max, t);
            run.frees_try(kos, boxes, frees, perps, u, v, i);
            assert(run.is_slot(boxes[b], frees[u] as int, perps[v] as int, k, m, r));
            stays_blocked(kos, site.before(tp, i), site.within(tp, i, q), grid.min_space as int, r);
            stays_blocked(kos, site.within(tp, i, q), part, grid.min_space as int, r);
        } else {
            assert(grid.is_listed_below(fracs, n_max, t, q));
            let v = choose|v: int|
                0 <= v < q && v < perps.len() && #[trigger] perps[v] == grid.breadth(fracs, n_max, t);
            assert(run.are_all_sizes(frees[i] as int, perps));
            run.perps_try(kos, boxes, frees[i] as int, perps, site.before(tp, i), v, q);
            assert(run.is_slot(boxes[b], frees[i] as int, perps[v] as int, k, m, r));
            stays_blocked(kos, site.within(tp, i, q), part, grid.min_space as int, r);
        }
        site.blocked_is_taken(tp, part, r);
    }
    assert(is_full(tp, site, part, h, s));
}

impl TrackSite {
    /// A rectangle of a listed height and breadth has their sizes.
    proof fn listed_is_sized(self, tp: TrackParams, h: int, s: int, r: Rect)
        requires
            is_fillable(tp, self),
            0 <= h < tp.free_heights_nm@.len(),
            along(tp, r) == self.run(tp).grid.size_for(
                units_of(tp.free_heights_nm@[h] as int, self.ctx.db_unit_nm as int),
            ),
            self.run(tp).grid.has_breadth(tp.pass_fracs@, tp.max_width as int / tp.gaps as int, s),
            across(tp, r) == self.run(tp).grid.breadth(tp.pass_fracs@, tp.max_width as int / tp.gaps as int, s),
        ensures
            is_sized(tp, self.ctx, h, s, r),
    {
        let run = self.run(tp);
        let db = self.ctx.db_unit_nm as int;
        let fracs = tp.pass_fracs@;
        units_bounds(tp.gaps as int, db);
        self.closest_is_size(tp, units_of(tp.free_heights_nm@[h] as int, db), along(tp, r));
        if s < fracs.len() {
            let tracks = (fracs[s] * (tp.max_width as int / tp.gaps as int)) / 1000;
            self.closest_is_size(tp, tracks * run.grid.gaps, across(tp, r));
        } else {
            self.closest_is_size(tp, units_of(tp.min_width as int, db), across(tp, r));
            self.least_is_size(tp);
        }
    }
}

/// Nothing is placed in a tile that lacks no more than half the deviation.
pub proof fn tracks_stop_at_the_target(tp: TrackParams, site: TrackSite)
    requires
        !lacks_fill(site.ctx),
    ensures
        site.fill(tp).len() == 0,
{
}

impl Sweep {
    /// Where in its column a rectangle is placed.
    proof fn column_places(
        self,
        keepouts: Seq<KeepoutShape>,
        space: int,
        placed: Seq<Rect>,
        cx: int,
        cy: int,
        from: int,
        a: int,
    ) -> (n: int)
        requires
            self.valid(),
            self.x <= cx,
            cx + self.half_x <= self.x_limit,
            0 <= from,
            cy == self.y + from * self.pitch_y,
            self.y <= cy,
            placed.len() <= a < self.after_column(keepouts, space, placed, cx, cy).len(),
        ensures
            from <= n,
            self.y + n * self.pitch_y + self.half_y <= self.y_limit,
            self.after_column(keepouts, space, placed, cx, cy)[a] == self.candidate(cx, self.y + n * self.pitch_y),
        decreases max_of(0, self.y_limit - self.half_y - cy + 1),
    {
        let r = self.candidate(cx, cy);
        let next = if is_blocked(with_placed(keepouts, placed, space), r) {
            placed
        } else {
            placed.push(r)
        };
        assert((from + 1) * self.pitch_y == from * self.pitch_y + self.pitch_y) by (nonlinear_arith);
        if a < next.len() {
            self.column_adds(keepouts, space, next, cx, cy + self.pitch_y);
            assert(self.after_column(keepouts, space, placed, cx, cy)[a] == next[a]);
            from
        } else {
            self.column_places(keepouts, space, next, cx, cy + self.pitch_y, from + 1, a)
        }
    }

    /// Where in a sweep a rectangle is placed.
    proof fn columns_place(
        self,
        keepouts: Seq<KeepoutShape>,
        space: int,
        placed: Seq<Rect>,
        cx: int,
        from: int,
        a: int,
    ) -> (at: (int, int))
        requires
            self.valid(),
            0 <= from,
            cx == self.x + from * self.pitch_x,
            self.x <= cx,
            placed.len() <= a < self.after_columns(keepouts, space, placed, cx).len(),
        ensures
            self.reaches(at.0, at.1),
            self.after_columns(keepouts, space, placed, cx)[a] == self.candidate(
                self.x + at.0 * self.pitch_x,
                self.y + at.1 * self.pitch_y,
            ),
        decreases max_of(0, self.x_limit - self.half_x - cx + 1),
    {
        let next = self.after_column(keepouts, space, placed, cx, self.y as int);
        assert((from + 1) * self.pitch_x == from * self.pitch_x + self.pitch_x) by (nonlinear_arith);
        assert(0 * self.pitch_y == 0) by (nonlinear_arith);
        if a < next.len() {
            let n = self.column_places(keepouts, space, placed, cx, self.y as int, 0, a);
            self.columns_add(keepouts, space, next, cx + self.pitch_x);
            assert(self.after_columns(keepouts, space, placed, cx)[a] == next[a]);
            (from, n)
        } else {
            self.columns_place(keepouts, space, next, cx + self.pitch_x, from + 1, a)
        }
    }
}

impl TrackRun {
    /// The centre of `r` is on track `k`.
    pub open spec fn is_on_track(self, r: Rect, k: int) -> bool {
        match self.grid.orientation {
            TrackOrientation::Vertical => r.x0 + r.x1 == 2 * (self.phase.x + k * self.grid.gaps),
            TrackOrientation::Horizontal => r.y0 + r.y1 == 2 * (self.phase.y + k * self.grid.gaps),
        }
    }

    /// The track on which a candidate of a sweep lies.
    proof fn candidate_is_on_track(self, core: Rect, free: int, perp: int, o: int, w: Sweep, i: int, n: int) -> (k: int)
        requires
            self.valid(),
            core.in_range(),
            self.are_sizes(free, perp),
            0 <= o < self.grid.tracks_per_pitch(perp),
            self.grid.sweep(self.tile, core, self.phase, free, perp, self.grid.offset(o)) == Some(w),
            w.reaches(i, n),
        ensures
            k % self.grid.tracks_per_pitch(perp) == o,
            self.is_on_track(w.candidate(w.x + i * w.pitch_x, w.y + n * w.pitch_y), k),
    {
        let g = self.grid.gaps as int;
        let q = self.grid.tracks_per_pitch(perp);
        self.grid.pitch_in_bounds(perp);
        self.offset_in_bounds(perp, o);
        self.sweep_is_held(core, free, perp, o);
        let offset = self.grid.offset(o);
        let across = q * g;
        let bx0 = max_of(core.x0 as int, self.tile.x0 as int);
        let by0 = max_of(core.y0 as int, self.tile.y0 as int);
        let along = free + self.grid.min_space;
        assert(i * w.pitch_x >= 0 && n * w.pitch_y >= 0) by (nonlinear_arith)
            requires
                i >= 0,
                n >= 0,
                w.pitch_x > 0,
                w.pitch_y > 0,
        ;
        match self.grid.orientation {
            TrackOrientation::Vertical => {
                let gap = bx0 + perp / 2 - (self.phase.x + offset);
                ceil_div_bounds(gap, across);
                ceil_div_bounds(by0 + free / 2 - (self.phase.y + free / 2), along);
                let c = ceil_div(gap, across);
                let k = o + (c + i) * q;
                assert(k * g == o * g + c * (q * g) + i * (q * g)) by (nonlinear_arith)
                    requires
                        k == o + (c + i) * q,
                ;
                assert(w.pitch_x == across);
                assert(w.x == self.phase.x + offset + c * across);
                lemma_fundamental_div_mod_converse(k, q, c + i, o);
                k
            },
            TrackOrientation::Horizontal => {
                let gap = by0 + perp / 2 - (self.phase.y + offset);
                ceil_div_bounds(gap, across);
                ceil_div_bounds(bx0 + free / 2 - (self.phase.x + free / 2), along);
                let c = ceil_div(gap, across);
                let k = o + (c + n) * q;
                assert(k * g == o * g + c * (q * g) + n * (q * g)) by (nonlinear_arith)
                    requires
                        k == o + (c + n) * q,
                ;
                assert(w.pitch_y == across);
                assert(w.y == self.phase.y + offset + c * across);
                lemma_fundamental_div_mod_converse(k, q, c + n, o);
                k
            },
        }
    }

    /// The track on which a rectangle of a track offset is placed.
    proof fn cores_place(
        self,
        keepouts: Seq<KeepoutShape>,
        cores: Seq<Rect>,
        free: int,
        perp: int,
        o: int,
        placed: Seq<Rect>,
        n: int,
        a: int,
    ) -> (k: int)
        requires
            self.valid(),
            are_boxes(cores),
            self.are_sizes(free, perp),
            0 <= o < self.grid.tracks_per_pitch(perp),
            0 <= n <= cores.len(),
            placed.len() <= a < self.after_cores(keepouts, cores, free, perp, self.grid.offset(o), placed, n).len(),
        ensures
            k % self.grid.tracks_per_pitch(perp) == o,
            self.is_on_track(self.after_cores(keepouts, cores, free, perp, self.grid.offset(o), placed, n)[a], k),
        decreases n,
    {
        let offset = self.grid.offset(o);
        let before = self.after_cores(keepouts, cores, free, perp, offset, placed, n - 1);
        let now = self.after_cores(keepouts, cores, free, perp, offset, placed, n);
        if a < before.len() {
            self.cores_add(keepouts, cores, free, perp, o, placed, n - 1, n);
            assert(now[a] == before[a]);
            self.cores_place(keepouts, cores, free, perp, o, placed, n - 1, a)
        } else {
            assert(cores[n - 1].in_range());
            self.offset_in_bounds(perp, o);
            self.sweep_is_held(cores[n - 1], free, perp, o);
            let w = self.grid.sweep(self.tile, cores[n - 1], self.phase, free, perp, offset)->0;
            assert(0 * w.pitch_x == 0) by (nonlinear_arith);
            let (i, m) = w.columns_place(keepouts, self.grid.min_space as int, before, w.x as int, 0, a);
            self.candidate_is_on_track(cores[n - 1], free, perp, o, w, i, m)
        }
    }

    /// The track offset with which a rectangle is placed.
    proof fn offset_of(
        self,
        keepouts: Seq<KeepoutShape>,
        cores: Seq<Rect>,
        free: int,
        perp: int,
        placed: Seq<Rect>,
        n: int,
        a: int,
    ) -> (o: int)
        requires
            0 <= n,
            placed.len() <= a < self.after_offsets(keepouts, cores, free, perp, placed, n).len(),
        ensures
            0 <= o < n,
            self.after_offsets(keepouts, cores, free, perp, placed, o).len() <= a < self.after_offsets(
                keepouts,
                cores,
                free,
                perp,
                placed,
                o + 1,
            ).len(),
        decreases n,
    {
        if a < self.after_offsets(keepouts, cores, free, perp, placed, n - 1).len() {
            self.offset_of(keepouts, cores, free, perp, placed, n - 1, a)
        } else {
            n - 1
        }
    }

    /// After the first track offsets, every slot on their tracks is blocked.
    proof fn first_offsets_try(
        self,
        keepouts: Seq<KeepoutShape>,
        cores: Seq<Rect>,
        free: int,
        perp: int,
        placed: Seq<Rect>,
        top: int,
        c: int,
        k: int,
        m: int,
        r: Rect,
    )
        requires
            self.valid(),
            are_boxes(cores),
            self.are_sizes(free, perp),
            0 <= top <= self.grid.tracks_per_pitch(perp),
            0 <= c < cores.len(),
            self.is_slot(cores[c], free, perp, k, m, r),
            k % self.grid.tracks_per_pitch(perp) < top,
        ensures
            is_blocked(
                with_placed(
                    keepouts,
                    self.after_offsets(keepouts, cores, free, perp, placed, top),
                    self.grid.min_space as int,
                ),
                r,
            ),
    {
        let space = self.grid.min_space as int;
        let out = self.after_offsets(keepouts, cores, free, perp, placed, top);
        let len = cores.len() as int;
        assert(cores[c].in_range());
        let (o, i, n) = self.slot_is_swept(cores[c], free, perp, k, m, r);
        let offset = self.grid.offset(o);
        let w = self.grid.sweep(self.tile, cores[c], self.phase, free, perp, offset)->0;
        let start = self.after_offsets(keepouts, cores, free, perp, placed, o);
        let before = self.after_cores(keepouts, cores, free, perp, offset, start, c);
        let now = self.after_cores(keepouts, cores, free, perp, offset, start, c + 1);
        let end = self.after_cores(keepouts, cores, free, perp, offset, start, len);
        w.columns_try(keepouts, space, before, w.x as int, i, n);
        self.cores_add(keepouts, cores, free, perp, o, start, c + 1, len);
        stays_blocked(keepouts, now, end, space, r);
        assert(end == self.after_offsets(keepouts, cores, free, perp, placed, o + 1));
        self.offsets_add(keepouts, cores, free, perp, placed, o + 1, top);
        stays_blocked(keepouts, end, out, space, r);
    }
}

/// `q` tracks are the fewest that a rectangle of this breadth needs, the least space to
/// the next one included.
pub open spec fn is_track_count(tp: TrackParams, ctx: TileCtx, breadth: int, q: int) -> bool {
    let db = ctx.db_unit_nm as int;
    let (pitch, space) = (units_of(tp.gaps as int, db), units_of(tp.min_space as int, db));
    q > 0 && (q - 1) * pitch < breadth + space <= q * pitch
}

/// `r` has the size for height `i` and fraction `s`, is centred on track `k`, and
/// needs `q` tracks.
pub open spec fn is_turn(tp: TrackParams, site: TrackSite, i: int, s: int, k: int, q: int, r: Rect) -> bool {
    let pitch = units_of(tp.gaps as int, site.ctx.db_unit_nm as int);
    &&& is_sized(tp, site.ctx, i, s, r)
    &&& is_track_count(tp, site.ctx, across(tp, r), q)
    &&& match tp.orientation {
        TrackOrientation::Vertical => r.x0 + r.x1 == 2 * (site.phase.x + k * pitch),
        TrackOrientation::Horizontal => r.y0 + r.y1 == 2 * (site.phase.y + k * pitch),
    }
}

/// Tracks are tried in order: of the tracks that a breadth needs, a rectangle is
/// placed on one only when no room is left for its size on those before it, here and
/// as many tracks further any number of times.
pub proof fn tracks_are_tried_in_order(tp: TrackParams, site: TrackSite, a: int)
    requires
        is_fillable(tp, site),
        0 <= a < site.fill(tp).len(),
    ensures
        exists|i: int, s: int, k: int, q: int| #[trigger]
            is_turn(tp, site, i, s, k, q, site.fill(tp)[a]) && forall|c: int, l: int, m: int, r: Rect|
                is_sized(tp, site.ctx, i, s, r) && l % q < k % q && #[trigger] is_room(tp, site, c, l, m, r) ==> is_taken(
                    tp,
                    site,
                    site.fill(tp).take(a),
                    r,
                ),
{
    site.lists_are_sound(tp);
    let run = site.run(tp);
    let grid = run.grid;
    let db = site.ctx.db_unit_nm as int;
    units_bounds(tp.gaps as int, db);
    units_bounds(tp.min_space as int, db);
    let n_max = tp.max_width as int / tp.gaps as int;
    let (kos, boxes, frees, perps) = (site.keepouts, site.boxes(), site.frees(tp), site.perps(tp));
    let n = run.fill_ends(kos, boxes, frees, perps, 0);
    let out = site.fill(tp);
    let u = run.free_of(kos, boxes, frees, perps, n, a);
    let v = site.placed_with(tp, n, u, a);
    let (free, perp) = (frees[u] as int, perps[v] as int);
    assert(run.are_all_sizes(free, perps));
    assert(run.are_sizes(free, perp));
    let h = grid.free_is_of_height(tp.free_heights_nm@, db, tp.free_heights_nm@.len() as int, u);
    let s = grid.perp_is_breadth(tp.pass_fracs@, n_max, v);
    site.listed_is_sized(tp, h, s, out[a]);
    let start = site.within(tp, u, v);
    let end = site.within(tp, u, v + 1);
    let q = grid.tracks_per_pitch(perp);
    grid.pitch_in_bounds(perp);
    assert((q - 1) * grid.gaps == q * grid.gaps - grid.gaps) by (nonlinear_arith);
    assert(end == run.after_offsets(kos, boxes, free, perp, start, q));
    let o = run.offset_of(kos, boxes, free, perp, start, q, a);
    let here = run.after_offsets(kos, boxes, free, perp, start, o);
    let then = run.after_offsets(kos, boxes, free, perp, start, o + 1);
    let k = run.cores_place(kos, boxes, free, perp, o, here, boxes.len() as int, a);
    run.offsets_add(kos, boxes, free, perp, start, o, o + 1);
    run.offsets_add(kos, boxes, free, perp, start, o + 1, q);
    assert(end[a] == then[a] && out[a] == end[a]);
    assert(is_turn(tp, site, h, s, k, q, out[a]));
    let part = out.take(a);
    assert(is_prefix(part, out));
    assert forall|i: int| 0 <= i < here.len() implies #[trigger] part[i] == here[i] by {
        assert(then[i] == here[i] && end[i] == then[i] && out[i] == end[i]);
    }
    assert(is_prefix(here, part));
    assert forall|c: int, l: int, m: int, r: Rect|
        is_sized(tp, site.ctx, h, s, r) && l % q < k % q && #[trigger] is_room(tp, site, c, l, m, r) implies is_taken(
        tp,
        site,
        part,
        r,
    ) by {
        site.sized_alike(tp, h, s, r, out[a]);
        let b = box_is_listed(site.cores, site.cores.len() as int, c);
        assert(run.is_slot(boxes[b], free, perp, l, m, r));
        run.first_offsets_try(kos, boxes, free, perp, start, o, b, l, m, r);
        stays_blocked(kos, here, part, grid.min_space as int, r);
        site.blocked_is_taken(tp, part, r);
    }
}

impl TrackSite {
    /// Rectangles of one height and fraction have one size.
    proof fn sized_alike(self, tp: TrackParams, i: int, s: int, r: Rect, t: Rect)
        requires
            is_fillable(tp, self),
            is_sized(tp, self.ctx, i, s, r),
            is_sized(tp, self.ctx, i, s, t),
        ensures
            along(tp, r) == along(tp, t),
            across(tp, r) == across(tp, t),
    {
        let db = self.ctx.db_unit_nm as int;
        let fracs = tp.pass_fracs@;
        let height = units_of(tp.free_heights_nm@[i] as int, db);
        self.closest_is_size(tp, height, along(tp, r));
        self.closest_is_size(tp, height, along(tp, t));
        let breadth = if 0 <= s < fracs.len() {
            (fracs[s] * (tp.max_width as int / tp.gaps as int)) / 1000 * units_of(tp.gaps as int, db)
        } else {
            units_of(tp.min_width as int, db)
        };
        self.closest_is_size(tp, breadth, across(tp, r));
        self.closest_is_size(tp, breadth, across(tp, t));
    }
}

} // verus!
