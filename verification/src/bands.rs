//! The bands along the edges of polygons.

use crate::area::window_parts;
use crate::area::window_shapes;
use crate::geom::bounds;
use crate::geom::box_bounds;
use crate::geom::is_box;
use crate::geom::is_box_ring;
use crate::geom::rect_is_box;
use crate::geom::shapes_in_range;
use crate::geom::Point;
use crate::geom::Rect;
use crate::geom::Shape;
use crate::layer_map::all_points;
use crate::layer_map::box_is_drawn_around_the_shapes;
use crate::morph::all_indices;
use crate::morph::band_shapes;
use crate::morph::clipped_to;
use crate::morph::dilated;
use crate::morph::eroded;
use crate::morph::ring_bands;
use crate::morph::rings_bands;
use crate::morph::segment_ring;
use crate::morph::MORPH_LIMIT;
use crate::morph::Morph;
use crate::num::isqrt;
use crate::num::isqrt_brackets;
use crate::num::scaled;
use crate::num::scaled_bounds;
use crate::overlay::intersection_shapes;
use crate::overlay::merged_shapes;
use crate::overlay::remaining_shapes;
use crate::tiles::member_iff_listed;
use crate::tiles::overlap_is_listed;
use crate::tiles::Grid;
use vstd::arithmetic::div_mod::lemma_fundamental_div_mod;
use vstd::prelude::*;

verus! {

/// A component scaled to a length is the nearest whole number: with `k` for its
/// magnitude, `a * |e| / sqrt(m)` lies between `k - 1/2` and `k + 1/2`.
pub proof fn scaled_is_nearest(e: int, a: int, m: int)
    requires
        m > 0,
    ensures
        ({
            let k = if scaled(e, a, m) < 0 {
                -scaled(e, a, m)
            } else {
                scaled(e, a, m)
            };
            let x = 2 * a * e;
            &&& k > 0 ==> (2 * k - 1) * (2 * k - 1) * m <= x * x
            &&& x * x < (2 * k + 1) * (2 * k + 1) * m
            &&& scaled(e, a, m) > 0 ==> e >= 0
            &&& scaled(e, a, m) < 0 ==> e < 0
        }),
{
    let x = 2 * a * e;
    let n = x * x;
    assert(n >= 0) by (nonlinear_arith)
        requires
            n == x * x,
    ;
    let q = n / m;
    lemma_fundamental_div_mod(n, m);
    assert(q >= 0) by (nonlinear_arith)
        requires
            n >= 0,
            m > 0,
            q == n / m,
    ;
    isqrt_brackets(q);
    let r = isqrt(q);
    let k = (r + 1) / 2;
    let (lo, hi) = (2 * k - 1, 2 * k + 1);
    assert(hi * hi >= (r + 1) * (r + 1)) by (nonlinear_arith)
        requires
            hi >= r + 1,
            r >= 0,
    ;
    assert(n < (hi * hi) * m) by (nonlinear_arith)
        requires
            n < m * q + m,
            q + 1 <= hi * hi,
            m > 0,
    ;
    if k > 0 {
        assert(lo * lo <= r * r) by (nonlinear_arith)
            requires
                0 <= lo <= r,
        ;
        assert((lo * lo) * m <= n) by (nonlinear_arith)
            requires
                lo * lo <= q,
                m * q <= n,
                m > 0,
        ;
    }
}

/// The smallest rectangle around two points.
pub open spec fn span(p: Point, q: Point) -> Rect {
    Rect {
        x0: if p.x <= q.x {
            p.x
        } else {
            q.x
        },
        y0: if p.y <= q.y {
            p.y
        } else {
            q.y
        },
        x1: if p.x <= q.x {
            q.x
        } else {
            p.x
        },
        y1: if p.y <= q.y {
            q.y
        } else {
            p.y
        },
    }
}

/// The band along an edge that runs along an axis is the edge grown by the space on
/// all sides.
pub proof fn axial_band_is_the_edge_grown(p: Point, q: Point, space: int)
    requires
        p.in_range(),
        q.in_range(),
        p != q,
        p.x == q.x || p.y == q.y,
        0 < space <= MORPH_LIMIT,
    ensures
        is_box_ring(segment_ring(p, q, space, (space, space))),
        bounds(segment_ring(p, q, space, (space, space))) == span(p, q).spec_grown(space),
{
    let (dx, dy) = (q.x - p.x, q.y - p.y);
    let m = dx * dx + dy * dy;
    if dx == 0 {
        assert(dx * dx == 0 && dy * dy > 0) by (nonlinear_arith)
            requires
                dx == 0,
                dy != 0,
        ;
    } else {
        assert(dy * dy == 0 && dx * dx > 0) by (nonlinear_arith)
            requires
                dy == 0,
                dx != 0,
        ;
    }
    scaled_bounds(dx, space, m);
    scaled_bounds(dy, space, m);
    let ring = segment_ring(p, q, space, (space, space));
    assert(is_box_ring(ring));
    box_bounds(ring);
}

proof fn edge_has_its_band(ring: Seq<Point>, space: int, n: int, i: int)
    requires
        0 <= i < n < ring.len(),
        ring[i] != ring[i + 1],
    ensures
        ring_bands(ring, space, n).contains(
            Shape { exterior: segment_ring(ring[i], ring[i + 1], space, (space, space)), holes: Seq::empty() },
        ),
    decreases n,
{
    let band = Shape { exterior: segment_ring(ring[i], ring[i + 1], space, (space, space)), holes: Seq::empty() };
    let now = ring_bands(ring, space, n);
    let before = ring_bands(ring, space, n - 1);
    if i == n - 1 {
        assert(now[before.len() as int] == band);
    } else {
        edge_has_its_band(ring, space, n - 1, i);
        let b = choose|b: int| 0 <= b < before.len() && before[b] == band;
        assert(now[b] == band);
    }
}

proof fn ring_has_its_bands(rings: Seq<Seq<Point>>, space: int, n: int, h: int, band: Shape)
    requires
        0 <= h < n <= rings.len(),
        ring_bands(rings[h], space, rings[h].len() - 1).contains(band),
    ensures
        rings_bands(rings, space, n).contains(band),
    decreases n,
{
    let now = rings_bands(rings, space, n);
    let before = rings_bands(rings, space, n - 1);
    if h == n - 1 {
        let more = ring_bands(rings[h], space, rings[h].len() - 1);
        let b = choose|b: int| 0 <= b < more.len() && more[b] == band;
        assert(now[before.len() + b] == band);
    } else {
        ring_has_its_bands(rings, space, n - 1, h, band);
        let b = choose|b: int| 0 <= b < before.len() && before[b] == band;
        assert(now[b] == band);
    }
}

proof fn shape_has_its_bands(shapes: Seq<Shape>, space: int, n: int, k: int, band: Shape)
    requires
        0 <= k < n <= shapes.len(),
        ring_bands(shapes[k].exterior, space, shapes[k].exterior.len() - 1).contains(band) || rings_bands(
            shapes[k].holes,
            space,
            shapes[k].holes.len() as int,
        ).contains(band),
    ensures
        band_shapes(shapes, space, n).contains(band),
    decreases n,
{
    let now = band_shapes(shapes, space, n);
    let before = band_shapes(shapes, space, n - 1);
    if k == n - 1 {
        let outer = ring_bands(shapes[k].exterior, space, shapes[k].exterior.len() - 1);
        let inner = rings_bands(shapes[k].holes, space, shapes[k].holes.len() as int);
        if outer.contains(band) {
            let b = choose|b: int| 0 <= b < outer.len() && outer[b] == band;
            assert(now[before.len() + b] == band);
        } else {
            let b = choose|b: int| 0 <= b < inner.len() && inner[b] == band;
            assert(now[before.len() + outer.len() + b] == band);
        }
    } else {
        shape_has_its_bands(shapes, space, n - 1, k, band);
        let b = choose|b: int| 0 <= b < before.len() && before[b] == band;
        assert(now[b] == band);
    }
}

/// Every edge of a shape, of its exterior or of a hole, that runs along an axis has
/// its band: the edge grown by the space on all sides is among the bands.
pub proof fn every_axial_edge_has_its_band(shapes: Seq<Shape>, space: int, k: int, h: Option<int>, i: int)
    requires
        0 < space <= MORPH_LIMIT,
        0 <= k < shapes.len(),
        shapes[k].in_range(),
        h matches Some(n) ==> 0 <= n < shapes[k].holes.len(),
        ({
            let ring = match h {
                Some(n) => shapes[k].holes[n],
                None => shapes[k].exterior,
            };
            &&& 0 <= i
            &&& i + 1 < ring.len()
            &&& ring[i] != ring[i + 1]
            &&& ring[i].x == ring[i + 1].x || ring[i].y == ring[i + 1].y
        }),
    ensures
        ({
            let ring = match h {
                Some(n) => shapes[k].holes[n],
                None => shapes[k].exterior,
            };
            exists|b: int|
                0 <= b < band_shapes(shapes, space, shapes.len() as int).len() && is_box(
                    #[trigger] band_shapes(shapes, space, shapes.len() as int)[b],
                ) && bounds(band_shapes(shapes, space, shapes.len() as int)[b].exterior) == span(
                    ring[i],
                    ring[i + 1],
                ).spec_grown(space)
        }),
{
    let ring = match h {
        Some(n) => shapes[k].holes[n],
        None => shapes[k].exterior,
    };
    assert(ring[i].in_range() && ring[i + 1].in_range());
    axial_band_is_the_edge_grown(ring[i], ring[i + 1], space);
    let band = Shape { exterior: segment_ring(ring[i], ring[i + 1], space, (space, space)), holes: Seq::empty() };
    edge_has_its_band(ring, space, ring.len() - 1, i);
    if let Some(n) = h {
        ring_has_its_bands(shapes[k].holes, space, shapes[k].holes.len() as int, n, band);
    }
    shape_has_its_bands(shapes, space, shapes.len() as int, k, band);
    let all = band_shapes(shapes, space, shapes.len() as int);
    let b = choose|b: int| 0 <= b < all.len() && all[b] == band;
    assert(is_box(all[b]));
}

/// How far an operation on shapes reaches: bands by their width, a closing by what
/// it grows and shrinks together.
pub open spec fn reach_of(morph: Morph) -> int {
    match morph {
        Morph::Bands { space } => space as int,
        Morph::Closing { grow, shrink } => grow + shrink,
    }
}

/// A window reads every shape that the operation can carry into it: one whose box,
/// grown by the reach, overlaps the window.
pub proof fn window_reads_what_reaches_it(morph: Morph, shapes: Seq<Shape>, grid: Grid, ix: int, iy: int, k: int)
    requires
        morph.valid(),
        grid.tile_size > 0,
        0 <= ix < grid.nx,
        0 <= iy < grid.ny,
        shapes.len() <= usize::MAX,
        0 <= k < shapes.len(),
        shapes[k].in_range(),
        shapes[k].exterior.len() > 0,
        reach_of(morph) > 0,
        ({
            let b = bounds(shapes[k].exterior);
            let d = reach_of(morph);
            &&& b.x0 - d < grid.x_min + (ix + 1) * grid.tile_size
            &&& b.x1 + d >= grid.x_min + ix * grid.tile_size
            &&& b.y0 - d < grid.y_min + (iy + 1) * grid.tile_size
            &&& b.y1 + d >= grid.y_min + iy * grid.tile_size
        }),
    ensures
        grid.members(morph.reaches(shapes), shapes.len() as int, ix, iy).contains(k as usize),
{
    let d = reach_of(morph);
    crate::geom::bounds_in_range(shapes[k].exterior);
    let g = bounds(shapes[k].exterior).spec_grown(d);
    rect_is_box(g);
    overlap_is_listed(grid, g, ix, iy);
    let all = morph.reaches(shapes);
    assert(all[k].exterior == g.ring());
    member_iff_listed(grid, all, all.len() as int, ix, iy, k);
}

/// A closing grows the shapes before it shrinks them.
pub proof fn closing_grows_then_shrinks(grow: i64, shrink: i64, shapes: Seq<Shape>)
    ensures
        ({
            let closing = Morph::Closing { grow, shrink };
            &&& dilated(shapes, grow as int) is None ==> closing.applied(shapes) is None
            &&& dilated(shapes, grow as int) matches Some(d) ==> closing.applied(shapes) == eroded(d, shrink as int)
        }),
{
}

/// Growing unites the shapes with the bands along their edges: every shape, and for
/// every edge along an axis the edge grown by the amount, goes into the union.
pub proof fn growing_unites_shapes_and_bands(shapes: Seq<Shape>, amount: int, k: int, h: Option<int>, i: int) -> (parts:
    Seq<Shape>)
    requires
        0 < amount <= MORPH_LIMIT,
        0 <= k < shapes.len(),
        shapes[k].in_range(),
        h matches Some(n) ==> 0 <= n < shapes[k].holes.len(),
        ({
            let ring = match h {
                Some(n) => shapes[k].holes[n],
                None => shapes[k].exterior,
            };
            &&& 0 <= i
            &&& i + 1 < ring.len()
            &&& ring[i] != ring[i + 1]
            &&& ring[i].x == ring[i + 1].x || ring[i].y == ring[i + 1].y
        }),
    ensures
        dilated(shapes, amount) matches Some(d) ==> d == merged_shapes(parts),
        parts.contains(shapes[k]),
        ({
            let ring = match h {
                Some(n) => shapes[k].holes[n],
                None => shapes[k].exterior,
            };
            exists|b: int|
                0 <= b < parts.len() && is_box(#[trigger] parts[b]) && bounds(parts[b].exterior) == span(
                    ring[i],
                    ring[i + 1],
                ).spec_grown(amount)
        }),
{
    let bands = band_shapes(shapes, amount, shapes.len() as int);
    let parts = shapes + bands;
    let ring = match h {
        Some(n) => shapes[k].holes[n],
        None => shapes[k].exterior,
    };
    every_axial_edge_has_its_band(shapes, amount, k, h, i);
    assert(parts[k] == shapes[k]);
    let b = choose|b: int|
        0 <= b < bands.len() && is_box(#[trigger] bands[b]) && bounds(bands[b].exterior) == span(
            ring[i],
            ring[i + 1],
        ).spec_grown(amount);
    assert(parts[shapes.len() + b] == bands[b]);
    parts
}

/// Shrinking takes the united bands along the edges from the shapes: for every edge
/// along an axis the edge grown by the amount is among them.
pub proof fn shrinking_takes_the_bands(shapes: Seq<Shape>, amount: int, k: int, h: Option<int>, i: int) -> (bands: Seq<
    Shape,
>)
    requires
        0 < amount <= MORPH_LIMIT,
        0 <= k < shapes.len(),
        shapes[k].in_range(),
        h matches Some(n) ==> 0 <= n < shapes[k].holes.len(),
        ({
            let ring = match h {
                Some(n) => shapes[k].holes[n],
                None => shapes[k].exterior,
            };
            &&& 0 <= i
            &&& i + 1 < ring.len()
            &&& ring[i] != ring[i + 1]
            &&& ring[i].x == ring[i + 1].x || ring[i].y == ring[i + 1].y
        }),
    ensures
        eroded(shapes, amount) matches Some(d) ==> d == remaining_shapes(shapes, merged_shapes(bands)),
        ({
            let ring = match h {
                Some(n) => shapes[k].holes[n],
                None => shapes[k].exterior,
            };
            exists|b: int|
                0 <= b < bands.len() && is_box(#[trigger] bands[b]) && bounds(bands[b].exterior) == span(
                    ring[i],
                    ring[i + 1],
                ).spec_grown(amount)
        }),
{
    every_axial_edge_has_its_band(shapes, amount, k, h, i);
    band_shapes(shapes, amount, shapes.len() as int)
}

/// The shape lies in the window, or is a part of what another one shares with it.
pub open spec fn is_cut_to(s: Shape, win: Rect) -> bool {
    ||| s.exterior.len() > 0 && win.spec_encloses(bounds(s.exterior))
    ||| exists|whole: Shape| #[trigger]
        intersection_shapes(whole, Shape { exterior: win.ring(), holes: Seq::empty() }).contains(s)
}

proof fn window_parts_are_cut(shapes: Seq<Shape>, indices: Seq<usize>, win: Rect, n: int)
    requires
        0 <= n <= indices.len(),
    ensures
        forall|i: int|
            0 <= i < window_shapes(shapes, indices, win, n).len() ==> is_cut_to(
                #[trigger] window_shapes(shapes, indices, win, n)[i],
                win,
            ),
    decreases n,
{
    if n > 0 {
        window_parts_are_cut(shapes, indices, win, n - 1);
        let (before, now) = (window_shapes(shapes, indices, win, n - 1), window_shapes(shapes, indices, win, n));
        let s = shapes[indices[n - 1] as int];
        let more = window_parts(s, win);
        assert forall|i: int| 0 <= i < now.len() implies is_cut_to(#[trigger] now[i], win) by {
            if i < before.len() {
                assert(now[i] == before[i]);
            } else {
                assert(now[i] == more[i - before.len()]);
                let parts = intersection_shapes(s, Shape { exterior: win.ring(), holes: Seq::empty() });
                if !win.spec_encloses(bounds(s.exterior)) {
                    assert(parts.contains(now[i]));
                }
            }
        }
    }
}

/// What an operation gives for a window is cut to that window, so that the windows
/// do not give it twice.
pub proof fn results_are_cut_to_their_window(morph: Morph, shapes: Seq<Shape>, indices: Seq<usize>, win: Rect, i: int)
    requires
        morph.in_window(shapes, indices, win) matches Some(v) && 0 <= i < v.len(),
    ensures
        is_cut_to(morph.in_window(shapes, indices, win)->0[i], win),
{
    let wide = win.spec_grown(morph.margin());
    let near = clipped_to(shapes, indices, wide)->0;
    let r = morph.applied(merged_shapes(near))->0;
    window_parts_are_cut(r, all_indices(r.len()), win, all_indices(r.len()).len() as int);
}

proof fn row_holds_its_windows(morph: Morph, shapes: Seq<Shape>, area: Rect, grid: Grid, iy: int, n: int, ix: int, s: Shape)
    requires
        0 <= ix < n,
        morph.in_row(shapes, area, grid, iy, n) is Some,
    ensures
        morph.in_tile(shapes, area, grid, ix, iy) matches Some(v) && (v.contains(s) ==> morph.in_row(
            shapes,
            area,
            grid,
            iy,
            n,
        )->0.contains(s)),
    decreases n,
{
    let now = morph.in_row(shapes, area, grid, iy, n)->0;
    let before = morph.in_row(shapes, area, grid, iy, n - 1)->0;
    let last = morph.in_tile(shapes, area, grid, n - 1, iy)->0;
    if ix == n - 1 {
        if last.contains(s) {
            let i = choose|i: int| 0 <= i < last.len() && last[i] == s;
            assert(now[before.len() + i] == s);
        }
    } else {
        row_holds_its_windows(morph, shapes, area, grid, iy, n - 1, ix, s);
        if before.contains(s) {
            let i = choose|i: int| 0 <= i < before.len() && before[i] == s;
            assert(now[i] == s);
        }
    }
}

proof fn rows_hold_their_windows(
    morph: Morph,
    shapes: Seq<Shape>,
    area: Rect,
    grid: Grid,
    n: int,
    ix: int,
    iy: int,
    s: Shape,
)
    requires
        0 <= ix < grid.nx,
        0 <= iy < n,
        morph.in_rows(shapes, area, grid, n) is Some,
    ensures
        morph.in_tile(shapes, area, grid, ix, iy) matches Some(v) && (v.contains(s) ==> morph.in_rows(
            shapes,
            area,
            grid,
            n,
        )->0.contains(s)),
    decreases n,
{
    let now = morph.in_rows(shapes, area, grid, n)->0;
    let before = morph.in_rows(shapes, area, grid, n - 1)->0;
    let last = morph.in_row(shapes, area, grid, n - 1, grid.nx as int)->0;
    if iy == n - 1 {
        row_holds_its_windows(morph, shapes, area, grid, n - 1, grid.nx as int, ix, s);
        if last.contains(s) {
            let i = choose|i: int| 0 <= i < last.len() && last[i] == s;
            assert(now[before.len() + i] == s);
        }
    } else {
        rows_hold_their_windows(morph, shapes, area, grid, n - 1, ix, iy, s);
        if before.contains(s) {
            let i = choose|i: int| 0 <= i < before.len() && before[i] == s;
            assert(now[i] == s);
        }
    }
}

/// The windows of an operation cover the shapes as far as it reaches beyond them, and
/// what it gives for any one of the windows is part of the result.
pub proof fn windows_cover_the_reach(
    morph: Morph,
    shapes: Seq<Shape>,
    window: int,
    ix: int,
    iy: int,
    s: Shape,
) -> (area: Rect)
    requires
        morph.valid(),
        all_points(shapes, shapes.len() as int).len() > 0,
        shapes_in_range(shapes),
        morph.result(shapes, window) is Some,
    ensures
        forall|k: int, i: int|
            0 <= k < shapes.len() && 0 <= i < shapes[k].exterior.len() ==> area.x0 + reach_of(morph) <= (
            #[trigger] shapes[k].exterior[i]).x <= area.x1 - reach_of(morph) && area.y0 + reach_of(morph)
                <= shapes[k].exterior[i].y <= area.y1 - reach_of(morph),
        ({
            let grid = Grid::spec_over(area, morph.window_size(window) as i64);
            0 <= ix < grid.nx && 0 <= iy < grid.ny ==> (morph.in_tile(shapes, area, grid, ix, iy) matches Some(v) && (
            v.contains(s) ==> morph.result(shapes, window)->0.contains(s)))
        }),
{
    reveal(Morph::result);
    let points = all_points(shapes, shapes.len() as int);
    let b = bounds(points);
    let area = b.spec_grown(reach_of(morph));
    box_is_drawn_around_the_shapes(shapes);
    points_in_range(shapes, shapes.len() as int);
    crate::geom::bounds_are_tight(points, points.len() as int);
    assert(b.in_range());
    let grid = Grid::spec_over(area, morph.window_size(window) as i64);
    if 0 <= ix < grid.nx && 0 <= iy < grid.ny {
        rows_hold_their_windows(morph, shapes, area, grid, grid.ny as int, ix, iy, s);
    }
    area
}

proof fn points_in_range(shapes: Seq<Shape>, n: int)
    requires
        shapes_in_range(shapes),
        0 <= n <= shapes.len(),
    ensures
        forall|i: int| 0 <= i < all_points(shapes, n).len() ==> (#[trigger] all_points(shapes, n)[i]).in_range(),
    decreases n,
{
    if n > 0 {
        points_in_range(shapes, n - 1);
        let (before, now) = (all_points(shapes, n - 1), all_points(shapes, n));
        assert(shapes[n - 1].in_range());
        assert forall|i: int| 0 <= i < now.len() implies (#[trigger] now[i]).in_range() by {
            if i < before.len() {
                assert(now[i] == before[i]);
            } else {
                assert(now[i] == shapes[n - 1].exterior[i - before.len()]);
            }
        }
    }
}

} // verus!
