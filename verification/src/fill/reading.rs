//! What a tile reads of the chip, the configuration and the fill placed before.

use crate::area::clipped_area2;
use crate::area::clipped_area2_nonneg;
use crate::area::merged_area2;
use crate::area::merged_area2_nonneg;
use crate::chip::counted_shapes;
use crate::chip::Chip;
use crate::chip::RunError;
use crate::config::first_entry_overrides;
use crate::config::unnamed_layer_has_no_override;
use crate::config::LayerFillConfig;
use crate::context::RunContext;
use crate::density::draw_area2;
use crate::density::old_area2;
use crate::density::tile_shape;
use crate::fill::plan::deviation_of;
use crate::fill::plan::layout_rects;
use crate::fill::plan::placed_on;
use crate::fill::plan::plan_error;
use crate::fill::plan::process_keepouts;
use crate::fill::plan::reference_key;
use crate::fill::plan::references;
use crate::fill::plan::target_of;
use crate::fill::plan::track_phase;
use crate::fill::plan::LayerPlan;
use crate::fill::plan::PlacedLayer;
use crate::fill::steps::capped;
use crate::geom::bounds;
use crate::geom::bounds_are_tight;
use crate::geom::rect_is_box;
use crate::geom::shapes_of;
use crate::geom::Point;
use crate::geom::Rect;
use crate::pdk::find_layer;
use crate::pdk::gf180mcu;
use crate::pdk::keepout::rect_shapes;
use crate::pdk::units_of;
use crate::pdk::FillAlgorithm;
use crate::pdk::PdkConstants;
use crate::pdk::PdkLayer;
use crate::survey::survey_error;
use crate::survey::LayerSurvey;
use crate::tiles::member_iff_listed;
use crate::tiles::overlap_is_listed;
use crate::tiles::tile_starts_inside;
use crate::tiles::tiles_fit;
use vstd::prelude::*;

verus! {

/// The entries of the configuration.
pub open spec fn entries(ctx: RunContext) -> Seq<(String, LayerFillConfig)> {
    match ctx.config {
        Some(c) => match c.layers {
            Some(v) => v@,
            None => Seq::empty(),
        },
        None => Seq::empty(),
    }
}

impl<'a> LayerPlan<'a> {
    /// A tile starts from the metal that is there: the drawn shapes of the layer
    /// that reach it, merged if the layer asks for it, and the shapes on its fill
    /// layer, clipped; both count.
    pub proof fn tile_starts_from_what_is_there(
        self,
        ctx: RunContext,
        chip: Chip,
        k: int,
        placed: Seq<PlacedLayer>,
        ix: int,
        iy: int,
    )
        requires
            0 <= k < ctx.pdk.layers@.len(),
            self.valid(),
            self.is_for(ctx, chip, k, placed),
            0 <= ix < self.grid.nx,
            0 <= iy < self.grid.ny,
            self.areas_known(ix, iy),
        ensures
            ({
                let layer = ctx.pdk.layers@[k].1;
                let db = ctx.pdk.db_unit_nm as int;
                let tile = self.tile_rect(ix, iy);
                let drawing = counted_shapes(chip.map, layer);
                let fill = chip.map.shapes((layer.gds_layer, layer.fill_datatype));
                let drawn = self.grid.members(drawing, drawing.len() as int, ix, iy);
                let filled = self.grid.members(fill, fill.len() as int, ix, iy);
                let window = match layer.merge_window_nm {
                    Some(w) => Some(units_of(w as int, db) as i64),
                    None => None,
                };
                let metal = if layer.merge_for_density {
                    merged_area2(drawing, drawn, tile, window)
                } else {
                    clipped_area2(drawing, drawn, tile_shape(tile), drawn.len() as int)
                };
                let site = self.site(ix, iy);
                &&& site.tile == tile
                &&& site.ctx.running == capped(metal + clipped_area2(fill, filled, tile_shape(tile), filled.len() as int))
                &&& site.ctx.tile_area == 2 * ((tile.x1 - tile.x0) * (tile.y1 - tile.y0))
                &&& site.ctx.chip_corner == (Point { x: chip.area.x0, y: chip.area.y0 })
                &&& site.ctx.db_unit_nm == ctx.pdk.db_unit_nm
                &&& site.ctx.grid_dbu == ctx.pdk.grid_dbu
                &&& site.ctx.target_density == self.target_density
                &&& site.ctx.deviation == self.deviation
            }),
    {
        let tile = self.tile_rect(ix, iy);
        assert(self.drawing@.len() == counted_shapes(chip.map, *self.layer).len());
        assert(self.filled@.len() == shapes_of(self.filled@).len());
        tile_starts_inside(self.chip.area.width(), self.grid.tile_size as int, ix);
        tile_starts_inside(self.chip.area.height(), self.grid.tile_size as int, iy);
        let (w, h) = (tile.x1 - tile.x0, tile.y1 - tile.y0);
        assert(0 < w * h <= 0x1_0000_0000_0000_0000) by (nonlinear_arith)
            requires
                0 < w <= 0x1_0000_0000,
                0 < h <= 0x1_0000_0000,
        ;
        clipped_area2_nonneg(shapes_of(self.filled@), self.filled_in(ix, iy), tile_shape(tile));
        if self.how.merge {
            merged_area2_nonneg(shapes_of(self.drawing@), self.drawn_in(ix, iy), tile, self.how.window);
        } else {
            clipped_area2_nonneg(shapes_of(self.drawing@), self.drawn_in(ix, iy), tile_shape(tile));
        }
    }

    /// Target, deviation and algorithm of a layer are those of the first entry of
    /// the configuration with its name, or else the defaults of the layer and all
    /// of its algorithms.
    pub proof fn targets_follow_the_configuration(
        self,
        ctx: RunContext,
        chip: Chip,
        k: int,
        placed: Seq<PlacedLayer>,
        e: int,
    )
        requires
            0 <= k < ctx.pdk.layers@.len(),
            self.is_for(ctx, chip, k, placed),
        ensures
            ({
                let (name, layer) = (ctx.pdk.layers@[k].0@, ctx.pdk.layers@[k].1);
                let list = entries(ctx);
                &&& 0 <= e < list.len() && list[e].0@ == name && (forall|j: int|
                    0 <= j < e ==> (#[trigger] list[j]).0@ != name) ==> (self.target_density == list[e].1.density
                    && self.deviation == list[e].1.deviation && self.only == list[e].1.algorithm)
                &&& (forall|j: int| 0 <= j < list.len() ==> (#[trigger] list[j]).0@ != name) ==> (self.target_density
                    == layer.default_density && self.deviation == layer.default_deviation && self.only is None)
            }),
    {
        let name = ctx.pdk.layers@[k].0@;
        if let Some(c) = ctx.config {
            if let Some(v) = c.layers {
                if 0 <= e < v@.len() {
                    first_entry_overrides(c, e);
                }
                if forall|j: int| 0 <= j < v@.len() ==> (#[trigger] v@[j]).0@ != name {
                    unnamed_layer_has_no_override(c, name);
                }
            } else {
                unnamed_layer_has_no_override(c, name);
            }
        }
    }

    /// A reference that reaches into a tile is among those that the tile reads,
    /// and so is a core polygon.
    pub proof fn tile_reads_what_reaches_it(self, ix: int, iy: int, n: int)
        requires
            self.valid(),
            0 <= ix < self.grid.nx,
            0 <= iy < self.grid.ny,
        ensures
            ({
                let tile = self.tile_rect(ix, iy);
                0 <= n < self.refs@.len() && self.refs@[n].x0 < self.refs@[n].x1 && self.refs@[n].y0 < self.refs@[n].y1
                    && reaches_into(self.refs@[n], tile) ==> self.site(ix, iy).refs.contains(self.refs@[n])
            }),
            ({
                let cores = shapes_of(self.chip.cores@);
                let tile = self.tile_rect(ix, iy);
                0 <= n < cores.len() && cores[n].exterior.len() > 0 && reaches_into(bounds(cores[n].exterior), tile)
                    ==> self.site(ix, iy).cores.contains(cores[n])
            }),
    {
        let tile = self.tile_rect(ix, iy);
        let t = self.grid.tile_size as int;
        tile_starts_inside(self.chip.area.width(), t, ix);
        tile_starts_inside(self.chip.area.height(), t, iy);
        assert((ix + 1) * t == ix * t + t) by (nonlinear_arith);
        assert((iy + 1) * t == iy * t + t) by (nonlinear_arith);
        let boxes = rect_shapes(self.refs@);
        let site = self.site(ix, iy);
        assert(self.refs@.len() == self.refs.len());
        if 0 <= n < self.refs@.len() && self.refs@[n].x0 < self.refs@[n].x1 && self.refs@[n].y0 < self.refs@[n].y1
            && reaches_into(self.refs@[n], tile) {
            rect_is_box(self.refs@[n]);
            assert(boxes[n].exterior == self.refs@[n].ring());
            overlap_is_listed(self.grid, self.refs@[n], ix, iy);
            member_iff_listed(self.grid, boxes, boxes.len() as int, ix, iy, n);
            let members = self.grid.members(boxes, boxes.len() as int, ix, iy);
            let m = choose|m: int| 0 <= m < members.len() && members[m] == n as usize;
            assert(site.refs[m] == self.refs@[n]);
        }
        let cores = shapes_of(self.chip.cores@);
        assert(self.chip.cores@.len() == self.chip.cores.len());
        if 0 <= n < cores.len() && cores[n].exterior.len() > 0 && reaches_into(bounds(cores[n].exterior), tile) {
            overlap_is_listed(self.grid, bounds(cores[n].exterior), ix, iy);
            member_iff_listed(self.grid, cores, cores.len() as int, ix, iy, n);
            let members = self.grid.members(cores, cores.len() as int, ix, iy);
            let m = choose|m: int| 0 <= m < members.len() && members[m] == n as usize;
            assert(site.cores[m] == cores[n]);
        }
    }
}

/// `b` begins below the upper edges of the tile and ends at or above its lower
/// ones.
pub open spec fn reaches_into(b: Rect, tile: Rect) -> bool {
    b.x0 < tile.x1 && tile.x0 <= b.x1 && b.y0 < tile.y1 && tile.y0 <= b.y1
}

/// The tracks of a chip with a core start at the lower left corner of the first
/// one: no point of it is left of or below that, and some point is not right of
/// it, nor above it.  Without a core they start at the corner of the chip.
pub proof fn tracks_start_at_the_core(chip: Chip)
    ensures
        ({
            let cores = shapes_of(chip.cores@);
            let phase = track_phase(chip);
            if cores.len() > 0 && cores[0].exterior.len() > 0 {
                let ring = cores[0].exterior;
                &&& forall|i: int| 0 <= i < ring.len() ==> phase.x <= (#[trigger] ring[i]).x && phase.y <= ring[i].y
                &&& exists|i: int| 0 <= i < ring.len() && (#[trigger] ring[i]).x == phase.x
                &&& exists|i: int| 0 <= i < ring.len() && (#[trigger] ring[i]).y == phase.y
            } else {
                phase == (Point { x: chip.area.x0, y: chip.area.y0 })
            }
        }),
{
    let cores = shapes_of(chip.cores@);
    if cores.len() > 0 && cores[0].exterior.len() > 0 {
        bounds_are_tight(cores[0].exterior, cores[0].exterior.len() as int);
    }
}

/// No algorithm before position `i` is overlap fill that names a layer of the
/// table.
pub open spec fn no_overlap_before(pdk: PdkConstants, algorithms: Seq<FillAlgorithm>, i: int) -> bool {
    forall|n: int|
        0 <= n < i ==> (#[trigger] algorithms[n] matches FillAlgorithm::Overlap(op) ==> forall|t: int|
            0 <= t < pdk.layers@.len() ==> (#[trigger] pdk.layers@[t]).0@ != op.ref_layer@)
}

/// The references of a layer are the fill placed last on the layer that its first
/// overlap algorithm names, as far as it is in range.
pub proof fn references_are_the_fill_named(
    pdk: PdkConstants,
    layer: PdkLayer,
    placed: Seq<PlacedLayer>,
    i: int,
    t: int,
    e: int,
    r: Rect,
)
    requires
        0 <= i < layer.algorithms@.len(),
        no_overlap_before(pdk, layer.algorithms@, i),
        0 <= t < pdk.layers@.len(),
        layer.algorithms@[i] matches FillAlgorithm::Overlap(op) && pdk.layers@[t].0@ == op.ref_layer@ && forall|u: int|
            0 <= u < t ==> (#[trigger] pdk.layers@[u]).0@ != op.ref_layer@,
        0 <= e < placed.len(),
        placed[e].key == (pdk.layers@[t].1.gds_layer, pdk.layers@[t].1.fill_datatype),
        forall|f: int| e < f < placed.len() ==> (#[trigger] placed[f]).key != placed[e].key,
    ensures
        references(pdk, layer, placed).contains(r) <==> placed[e].rects@.contains(r) && r.ordered() && r.in_range(),
{
    key_is_found(pdk, layer.algorithms@, i, t, 0);
    last_is_taken(placed, placed[e].key, e, placed.len() as int);
    let all = placed[e].rects@;
    in_range_iff(all, all.len() as int, r);
    assert(all.take(all.len() as int) =~= all);
}

proof fn key_is_found(pdk: PdkConstants, algorithms: Seq<FillAlgorithm>, i: int, t: int, n: int)
    requires
        0 <= n <= i < algorithms.len(),
        no_overlap_before(pdk, algorithms, i),
        0 <= t < pdk.layers@.len(),
        algorithms[i] matches FillAlgorithm::Overlap(op) && pdk.layers@[t].0@ == op.ref_layer@ && forall|u: int|
            0 <= u < t ==> (#[trigger] pdk.layers@[u]).0@ != op.ref_layer@,
    ensures
        reference_key(pdk, algorithms, n) == Some((pdk.layers@[t].1.gds_layer, pdk.layers@[t].1.fill_datatype)),
    decreases i - n,
{
    if n == i {
        layer_is_found(pdk, algorithms[i]->Overlap_0.ref_layer@, t, 0);
    } else {
        if let FillAlgorithm::Overlap(op) = algorithms[n] {
            no_layer_is_found(pdk, op.ref_layer@, 0);
        }
        key_is_found(pdk, algorithms, i, t, n + 1);
    }
}

proof fn layer_is_found(pdk: PdkConstants, name: Seq<char>, t: int, i: int)
    requires
        0 <= i <= t < pdk.layers@.len(),
        pdk.layers@[t].0@ == name,
        forall|u: int| 0 <= u < t ==> (#[trigger] pdk.layers@[u]).0@ != name,
    ensures
        find_layer(pdk.layers@, name, i) == Some(t),
    decreases t - i,
{
    if i < t {
        assert(pdk.layers@[i].0@ != name);
        layer_is_found(pdk, name, t, i + 1);
    }
}

proof fn no_layer_is_found(pdk: PdkConstants, name: Seq<char>, i: int)
    requires
        0 <= i <= pdk.layers@.len(),
        forall|u: int| 0 <= u < pdk.layers@.len() ==> (#[trigger] pdk.layers@[u]).0@ != name,
    ensures
        find_layer(pdk.layers@, name, i) is None,
    decreases pdk.layers@.len() - i,
{
    if i < pdk.layers@.len() {
        assert(pdk.layers@[i].0@ != name);
        no_layer_is_found(pdk, name, i + 1);
    }
}

proof fn last_is_taken(placed: Seq<PlacedLayer>, key: (i16, i16), e: int, n: int)
    requires
        0 <= e < n <= placed.len(),
        placed[e].key == key,
        forall|f: int| e < f < n ==> (#[trigger] placed[f]).key != key,
    ensures
        placed_on(placed, key, n) == placed[e].rects@,
    decreases n,
{
    if e < n - 1 {
        assert(placed[n - 1].key != key);
        last_is_taken(placed, key, e, n - 1);
    }
}

proof fn in_range_iff(rects: Seq<Rect>, n: int, r: Rect)
    requires
        0 <= n <= rects.len(),
    ensures
        layout_rects(rects, n).contains(r) <==> rects.take(n).contains(r) && r.ordered() && r.in_range(),
    decreases n,
{
    let now = layout_rects(rects, n);
    if n > 0 {
        in_range_iff(rects, n - 1, r);
        let before = layout_rects(rects, n - 1);
        let (a, b) = (rects.take(n - 1), rects.take(n));
        assert(b =~= a.push(rects[n - 1]));
        if before.contains(r) {
            let i = choose|i: int| 0 <= i < before.len() && before[i] == r;
            assert(now[i] == r);
        }
        if a.contains(r) {
            let i = choose|i: int| 0 <= i < a.len() && a[i] == r;
            assert(b[i] == r);
        }
        if r == rects[n - 1] {
            assert(b[n - 1] == r);
            if r.ordered() && r.in_range() {
                assert(now[before.len() as int] == r);
            }
        }
        if now.contains(r) {
            let i = choose|i: int| 0 <= i < now.len() && now[i] == r;
            if i < before.len() {
                assert(before[i] == r);
            }
        }
        if b.contains(r) {
            let i = choose|i: int| 0 <= i < b.len() && b[i] == r;
            if i < n - 1 {
                assert(a[i] == r);
            }
        }
    }
}

impl<'a> LayerPlan<'a> {
    /// Fill and densities measure alike: in tiles of one size, the plan of a layer
    /// and its survey find the same drawn and filled areas.
    pub proof fn survey_measures_alike(
        self,
        survey: LayerSurvey<'a>,
        ctx: RunContext,
        chip: Chip,
        k: int,
        placed: Seq<PlacedLayer>,
        ix: int,
        iy: int,
    )
        requires
            self.is_for(ctx, chip, k, placed),
            survey.is_for(ctx, chip, k),
            self.grid == survey.grid,
        ensures
            self.tile_rect(ix, iy) == survey.tile_rect(ix, iy),
            self.draw_area(ix, iy) == draw_area2(
                shapes_of(survey.drawing@),
                survey.drawn_in(ix, iy),
                survey.tile_rect(ix, iy),
                survey.how,
            ),
            self.old_area(ix, iy) == old_area2(
                shapes_of(survey.filled@),
                survey.filled_in(ix, iy),
                survey.tile_rect(ix, iy),
            ),
    {
        assert(shapes_of(self.drawing@).len() == shapes_of(survey.drawing@).len());
        assert(shapes_of(self.filled@).len() == shapes_of(survey.filled@).len());
    }

    /// Fill is placed in tiles of the width of the layer, and densities are taken in
    /// tiles of the width of the process, from the lower left corner of the chip.
    pub proof fn tiles_have_their_width(
        self,
        survey: LayerSurvey<'a>,
        ctx: RunContext,
        chip: Chip,
        k: int,
        placed: Seq<PlacedLayer>,
    )
        requires
            self.is_for(ctx, chip, k, placed),
            survey.is_for(ctx, chip, k),
        ensures
            ({
                let db = ctx.pdk.db_unit_nm as int;
                &&& self.grid.tile_size == units_of(ctx.pdk.layers@[k].1.tile_width_nm as int, db) as i64
                &&& survey.grid.tile_size == units_of(ctx.pdk.tile_width_nm as int, db) as i64
                &&& self.grid.x_min == chip.area.x0 && self.grid.y_min == chip.area.y0
                &&& survey.grid.x_min == chip.area.x0 && survey.grid.y_min == chip.area.y0
            }),
    {
    }
}

/// A length of at least one layout unit, and of at most about a metre.
pub open spec fn is_tile_wide(nm: int, db: int) -> bool {
    0 <= nm <= 0x4000_0000 && units_of(nm, db) >= 1
}

/// The unit and the grid of the process, the tile width and the merge window of the
/// layer and the space of its squares are within their limits.
pub open spec fn has_sound_sizes(pdk: PdkConstants, layer: PdkLayer) -> bool {
    let db = pdk.db_unit_nm as int;
    &&& 0 < db <= 0x4000_0000
    &&& 0 < pdk.grid_dbu <= 0x4000_0000
    &&& is_tile_wide(layer.tile_width_nm as int, db)
    &&& layer.merge_window_nm matches Some(w) ==> is_tile_wide(w as int, db)
    &&& 0 <= gf180mcu::square_space(layer.algorithms@, 0) <= 0x1000_0000
}

/// A layer is refused for a reason: as unusable exactly if its sizes are not sound or
/// its target or deviation is beyond 2^40 millionths of a percent; as out of range only
/// if its keep-outs are; and for want of tiles only if they cannot be counted or the
/// chip is flat.
pub proof fn layers_are_refused_for_a_reason(ctx: RunContext, chip: Chip, k: int, placed: Seq<PlacedLayer>)
    requires
        0 <= k < ctx.pdk.layers@.len(),
    ensures
        ({
            let (name, layer) = (ctx.pdk.layers@[k].0@, ctx.pdk.layers@[k].1);
            let db = ctx.pdk.db_unit_nm as int;
            let (t, d) = (target_of(ctx, name, layer), deviation_of(ctx, name, layer));
            let kept = process_keepouts(ctx.process@, chip.map, chip.area, name, layer, db);
            let fit = tiles_fit(chip.area, units_of(layer.tile_width_nm as int, db));
            let error = plan_error(ctx, chip, k, placed);
            &&& error == Some(RunError::Unusable) <==> !(has_sound_sizes(ctx.pdk, layer) && -0x100_0000_0000 <= t
                <= 0x100_0000_0000 && -0x100_0000_0000 <= d <= 0x100_0000_0000)
            &&& error == Some(RunError::OutOfRange) ==> kept is None
            &&& error == Some(RunError::NoTiles) ==> !fit || chip.area.is_flat()
            &&& error is None ==> fit && kept is Some
            &&& error is Some ==> error == Some(RunError::Unusable) || error == Some(RunError::OutOfRange) || error == Some(
                RunError::NoTiles,
            )
            &&& has_sound_sizes(ctx.pdk, layer) && -0x100_0000_0000 <= t <= 0x100_0000_0000 && -0x100_0000_0000 <= d
                <= 0x100_0000_0000 && fit && kept is Some && !chip.area.is_flat() ==> error is None
        }),
{
}

/// The densities of a layer are refused for a reason: as unusable exactly if the unit,
/// the tile width of the process or the merge window is beyond its limits, and for want
/// of tiles only if they cannot be counted or the chip is flat.
pub proof fn surveys_are_refused_for_a_reason(ctx: RunContext, chip: Chip, k: int)
    requires
        0 <= k < ctx.pdk.layers@.len(),
    ensures
        ({
            let layer = ctx.pdk.layers@[k].1;
            let db = ctx.pdk.db_unit_nm as int;
            let fit = tiles_fit(chip.area, units_of(ctx.pdk.tile_width_nm as int, db));
            let sound = 0 < db <= 0x4000_0000 && is_tile_wide(ctx.pdk.tile_width_nm as int, db) && (
            layer.merge_window_nm matches Some(w) ==> is_tile_wide(w as int, db));
            let error = survey_error(ctx, chip, k);
            &&& error == Some(RunError::Unusable) <==> !sound
            &&& error is Some && sound ==> error == Some(RunError::NoTiles) && (!fit || chip.area.is_flat())
            &&& sound && fit && !chip.area.is_flat() ==> error is None
            &&& error is None ==> fit
        }),
{
}

} // verus!
