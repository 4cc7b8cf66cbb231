//! The space that fill keeps from what is drawn.

use crate::area::clipped_area2_nonneg;
use crate::area::merged_area2_nonneg;
use crate::chip::Chip;
use crate::chip::Purpose;
use crate::context::family_of_process;
use crate::context::ProcessFamily;
use crate::context::RunContext;
use crate::dedup::dbu_ring;
use crate::dedup::same_dbu_is_near;
use crate::density::tile_shape;
use crate::fill::plan::boxed_keepouts;
use crate::fill::plan::keepout_polygons;
use crate::fill::plan::keepouts_at;
use crate::fill::plan::plan_error;
use crate::fill::plan::process_keepouts;
use crate::fill::plan::LayerPlan;
use crate::fill::plan::PlacedLayer;
use crate::fill::tile::is_clear_of;
use crate::flatten::Drawn;
use crate::geom::bounds;
use crate::geom::box_bounds;
use crate::geom::is_box;
use crate::geom::rect_is_box;
use crate::geom::shapes_of;
use crate::geom::Point;
use crate::geom::Rect;
use crate::geom::Shape;
use crate::layer_map::are_alike;
use crate::layer_map::first_alike;
use crate::layer_map::first_is_held;
use crate::layer_map::is_first;
use crate::layer_map::layer_of;
use crate::layer_map::LayerMap;
use crate::offset::box_grows_on_all_sides;
use crate::offset::grown_shape;
use crate::offset::grown_shapes;
use crate::pdk::gf180mcu;
use crate::pdk::ihp_sg13;
use crate::pdk::keepout::edge_ring;
use crate::pdk::keepout::rect_shapes;
use crate::pdk::keepout::ruled_shapes;
use crate::pdk::keepout::rules_valid;
use crate::pdk::keepout::SpaceRule;
use crate::pdk::units_bounds;
use crate::pdk::units_of;
use crate::pdk::PdkLayer;
use crate::tiles::member_iff_listed;
use crate::tiles::members_are_ascending;
use crate::tiles::overlap_is_listed;
use crate::tiles::tile_starts_inside;
use crate::touch::box_keepout_blocks;
use crate::touch::is_blocked;
use crate::touch::keepouts_of;
use crate::touch::KeepoutShape;
use vstd::prelude::*;

verus! {

/// The space rules of a process for a layer.
pub open spec fn layer_rules(process: Seq<char>, name: Seq<char>, layer: PdkLayer) -> Seq<SpaceRule> {
    match family_of_process(process) {
        Some(ProcessFamily::IhpSg13) => match ihp_sg13::family_of(name) {
            Some(f) => ihp_sg13::family_rules(f, layer),
            None => Seq::empty(),
        },
        Some(ProcessFamily::Gf180mcu) => match gf180mcu::family_of(name) {
            Some(f) => gf180mcu::family_rules(f, layer),
            None => Seq::empty(),
        },
        None => Seq::empty(),
    }
}

/// The keep-outs of the layer at position `k`.
pub open spec fn layer_keepouts(ctx: RunContext, chip: Chip, k: int) -> Seq<Shape> {
    process_keepouts(
        ctx.process@,
        chip.map,
        chip.area,
        ctx.pdk.layers@[k].0@,
        ctx.pdk.layers@[k].1,
        ctx.pdk.db_unit_nm as int,
    )->0
}

/// A shape as a keep-out.
pub open spec fn keepout_of(s: Shape) -> KeepoutShape {
    KeepoutShape { bbox: bounds(s.exterior), shape: Some(s) }
}

/// The rectangle begins below the upper edges of the tile.
pub open spec fn begins_below(b: Rect, tile: Rect) -> bool {
    b.x0 < tile.x1 && b.y0 < tile.y1
}

/// The fill does not overlap the rectangle, nor touch it where the rectangle
/// begins below the upper edges of the tile.
pub open spec fn keeps_off(b: Rect, fill: Rect, tile: Rect) -> bool {
    &&& fill.x1 <= b.x0 || b.x1 <= fill.x0 || fill.y1 <= b.y0 || b.y1 <= fill.y0
    &&& begins_below(b, tile) ==> !b.meets(fill)
}

/// Drawn shape `j` and those before it that are like it are rectangles.
pub open spec fn are_boxes_alike(drawn: Seq<Drawn>, j: int) -> bool {
    forall|p: int| 0 <= p <= j && #[trigger] are_alike(drawn, p, j) ==> is_box(drawn[p].shape)
}

/// Half a database unit if a shape before drawn shape `j` is like it without
/// having its exterior, else nothing.
pub open spec fn alike_slack(drawn: Seq<Drawn>, j: int) -> int {
    if exists|p: int|
        0 <= p < j && #[trigger] are_alike(drawn, p, j) && drawn[p].shape.exterior != drawn[j].shape.exterior {
        1
    } else {
        0
    }
}

proof fn alike_corner(r: Seq<Point>, b: Seq<Point>, i: int)
    requires
        dbu_ring(r) == dbu_ring(b),
        0 <= i < r.len(),
        r.len() == b.len(),
    ensures
        -1 <= r[i].x - b[i].x <= 1,
        -1 <= r[i].y - b[i].y <= 1,
{
    assert(dbu_ring(r)[i] == dbu_ring(b)[i]);
    same_dbu_is_near(r[i].x as int, b[i].x as int);
    same_dbu_is_near(r[i].y as int, b[i].y as int);
}

/// A shape grown as a rule asks.
pub open spec fn kept_shape(s: Shape, amount: int) -> Shape {
    if amount == 0 {
        s
    } else {
        grown_shape(s, amount)
    }
}

/// What a rule keeps out of is among the shapes of the rules.
proof fn rule_is_applied(map: LayerMap, rules: Seq<SpaceRule>, db_unit: int, n: int, i: int, j: int)
    requires
        0 <= i < n <= rules.len(),
        0 <= j < map.shapes(rules[i].key).len(),
    ensures
        ruled_shapes(map, rules, db_unit, n).contains(
            kept_shape(map.shapes(rules[i].key)[j], units_of(rules[i].space as int, db_unit)),
        ),
    decreases n,
{
    let amount = units_of(rules[i].space as int, db_unit);
    let g = kept_shape(map.shapes(rules[i].key)[j], amount);
    let now = ruled_shapes(map, rules, db_unit, n);
    let before = ruled_shapes(map, rules, db_unit, n - 1);
    if i == n - 1 {
        let grown = grown_shapes(map.shapes(rules[i].key), amount);
        assert(grown[j] == g);
        assert(now[before.len() + j] == g);
    } else {
        rule_is_applied(map, rules, db_unit, n - 1, i, j);
        let p = choose|p: int| 0 <= p < before.len() && before[p] == g;
        assert(now[p] == g);
    }
}

/// What a rule of the process keeps out of is a keep-out of the layer.
proof fn rule_makes_keepout(
    process: Seq<char>,
    map: LayerMap,
    area: Rect,
    name: Seq<char>,
    layer: PdkLayer,
    db_unit: int,
    i: int,
    j: int,
)
    requires
        process_keepouts(process, map, area, name, layer, db_unit) is Some,
        0 <= i < layer_rules(process, name, layer).len(),
        0 <= j < map.shapes(layer_rules(process, name, layer)[i].key).len(),
    ensures
        ({
            let rule = layer_rules(process, name, layer)[i];
            process_keepouts(process, map, area, name, layer, db_unit)->0.contains(
                kept_shape(map.shapes(rule.key)[j], units_of(rule.space as int, db_unit)),
            )
        }),
{
    let rules = layer_rules(process, name, layer);
    let g = kept_shape(map.shapes(rules[i].key)[j], units_of(rules[i].space as int, db_unit));
    let n = rules.len() as int;
    rule_is_applied(map, rules, db_unit, n, i, j);
    let ruled = ruled_shapes(map, rules, db_unit, n);
    let p = choose|p: int| 0 <= p < ruled.len() && ruled[p] == g;
    let all = process_keepouts(process, map, area, name, layer, db_unit)->0;
    match family_of_process(process) {
        Some(ProcessFamily::IhpSg13) => {
            assert(all == ruled);
        },
        Some(ProcessFamily::Gf180mcu) => {
            let f = gf180mcu::family_of(name)->0;
            let comp = gf180mcu::closed_comp(map, f, db_unit)->0;
            let wells = gf180mcu::well_bands(
                map,
                gf180mcu::well_rules(f),
                db_unit,
                gf180mcu::well_rules(f).len() as int,
            )->0;
            assert(all[comp.len() + wells.len() + p] == g);
        },
        None => {},
    }
}

/// A shape with points is among the keep-outs with their boxes.
proof fn shape_is_boxed(shapes: Seq<Shape>, n: int, p: int)
    requires
        0 <= p < n <= shapes.len(),
        shapes[p].exterior.len() > 0,
    ensures
        boxed_keepouts(shapes, n).contains(
            KeepoutShape { bbox: bounds(shapes[p].exterior), shape: Some(shapes[p]) },
        ),
    decreases n,
{
    let k = KeepoutShape { bbox: bounds(shapes[p].exterior), shape: Some(shapes[p]) };
    let now = boxed_keepouts(shapes, n);
    let before = boxed_keepouts(shapes, n - 1);
    if p == n - 1 {
        assert(now[before.len() as int] == k);
    } else {
        shape_is_boxed(shapes, n - 1, p);
        let q = choose|q: int| 0 <= q < before.len() && before[q] == k;
        assert(now[q] == k);
    }
}

/// The rules of a layer with a bounded square space are within their limits.
proof fn rules_are_valid(process: Seq<char>, name: Seq<char>, layer: PdkLayer)
    requires
        0 <= gf180mcu::square_space(layer.algorithms@, 0) <= crate::pdk::keepout::SPACE_LIMIT,
    ensures
        rules_valid(layer_rules(process, name, layer)),
{
    let rules = layer_rules(process, name, layer);
    match family_of_process(process) {
        Some(ProcessFamily::IhpSg13) => {
            if let Some(f) = ihp_sg13::family_of(name) {
                ihp_sg13::family_rules_are_valid(f, layer);
            }
        },
        Some(ProcessFamily::Gf180mcu) => {
            if let Some(f) = gf180mcu::family_of(name) {
                gf180mcu::family_rules_are_valid(f, layer);
            }
        },
        None => {},
    }
}

impl<'a> LayerPlan<'a> {
    /// A keep-out of the layer that meets a rectangle of a tile, and begins
    /// below the upper edges of the tile, is among the keep-outs of the tile.
    proof fn keepout_is_near(self, ix: int, iy: int, q: int, r: Rect)
        requires
            self.valid(),
            0 <= ix < self.grid.nx,
            0 <= iy < self.grid.ny,
            0 <= q < self.keepouts@.len(),
            ({
                let k = keepouts_of(self.keepouts@)[q];
                k.shape matches Some(s) && s.exterior.len() > 0 && k.bbox == bounds(s.exterior) && k.bbox.meets(r)
            }),
            self.tile_rect(ix, iy).spec_encloses(r),
            begins_below(keepouts_of(self.keepouts@)[q].bbox, self.tile_rect(ix, iy)),
        ensures
            self.keepouts_in(ix, iy).contains(keepouts_of(self.keepouts@)[q]),
    {
        let all = keepouts_of(self.keepouts@);
        let shapes = keepout_polygons(all);
        assert(self.keepouts@.len() == self.keepouts.len());
        let b = all[q].bbox;
        let t = self.grid.tile_size as int;
        tile_starts_inside(self.chip.area.width(), t, ix);
        tile_starts_inside(self.chip.area.height(), t, iy);
        assert((ix + 1) * t == ix * t + t) by (nonlinear_arith);
        assert((iy + 1) * t == iy * t + t) by (nonlinear_arith);
        overlap_is_listed(self.grid, b, ix, iy);
        assert(shapes[q] == all[q].shape->0);
        member_iff_listed(self.grid, shapes, shapes.len() as int, ix, iy, q);
        let members = self.grid.members(shapes, shapes.len() as int, ix, iy);
        let m = choose|m: int| 0 <= m < members.len() && members[m] == q as usize;
        assert(keepouts_at(all, members)[m] == all[q]);
    }

    /// The site of a tile with known areas is valid.
    pub proof fn site_is_valid(self, ix: int, iy: int)
        requires
            self.valid(),
            0 <= ix < self.grid.nx,
            0 <= iy < self.grid.ny,
            self.areas_known(ix, iy),
        ensures
            self.site(ix, iy).valid(),
    {
        let t = self.grid.tile_size as int;
        let tile = self.tile_rect(ix, iy);
        let site = self.site(ix, iy);
        tile_starts_inside(self.chip.area.width(), t, ix);
        tile_starts_inside(self.chip.area.height(), t, iy);
        let (w, h) = (tile.width(), tile.height());
        assert(0 < w * h <= 0x1_0000_0000_0000_0000) by (nonlinear_arith)
            requires
                0 < w <= 0x1_0000_0000,
                0 < h <= 0x1_0000_0000,
        ;
        clipped_area2_nonneg(shapes_of(self.filled@), self.filled_in(ix, iy), tile_shape(tile));
        if self.how.merge {
            merged_area2_nonneg(shapes_of(self.drawing@), self.drawn_in(ix, iy), tile, self.how.window);
        } else {
            clipped_area2_nonneg(shapes_of(self.drawing@), self.drawn_in(ix, iy), tile_shape(tile));
        }
        assert(site.ctx.valid());
        let boxes = rect_shapes(self.refs@);
        assert(self.refs@.len() == self.refs.len());
        members_are_ascending(self.grid, boxes, boxes.len() as int, ix, iy);
        assert forall|n: int| 0 <= n < site.refs.len() implies (#[trigger] site.refs[n]).ordered()
            && site.refs[n].in_range() by {
            let m = self.grid.members(boxes, boxes.len() as int, ix, iy)[n];
            assert(m < boxes.len());
            assert(self.refs@[m as int].ordered());
        }
        let cores = shapes_of(self.chip.cores@);
        assert(self.chip.cores@.len() == self.chip.cores.len());
        members_are_ascending(self.grid, cores, cores.len() as int, ix, iy);
        assert forall|n: int| 0 <= n < site.cores.len() implies (#[trigger] site.cores[n]).in_range() by {
            let m = self.grid.members(cores, cores.len() as int, ix, iy)[n];
            assert(m < cores.len());
            assert(cores[m as int].in_range());
        }
    }

    /// No algorithm of the layer is overlap fill.
    pub open spec fn has_no_overlap(self) -> bool {
        forall|n: int|
            0 <= n < self.layer.algorithms@.len() ==> !(#[trigger] self.layer.algorithms@[n] is Overlap)
    }

    /// The rectangle at position `a` of a tile is fill of the layer at position
    /// `k`, and has an area; if the layer has overlap fill it lies in the tile.
    pub open spec fn is_spaced(
        self,
        ctx: RunContext,
        chip: Chip,
        k: int,
        placed: Seq<PlacedLayer>,
        ix: int,
        iy: int,
        a: int,
    ) -> bool {
        &&& 0 <= k < ctx.pdk.layers@.len()
        &&& plan_error(ctx, chip, k, placed) is None
        &&& self.valid()
        &&& self.is_for(ctx, chip, k, placed)
        &&& 0 <= ix < self.grid.nx
        &&& 0 <= iy < self.grid.ny
        &&& self.areas_known(ix, iy)
        &&& self.can_fill(ix, iy)
        &&& 0 <= a < self.fill_of(ix, iy).len()
        &&& self.has_no_overlap() || self.tile_rect(ix, iy).spec_encloses(self.fill_of(ix, iy)[a])
        &&& self.fill_of(ix, iy)[a].x0 < self.fill_of(ix, iy)[a].x1
        &&& self.fill_of(ix, iy)[a].y0 < self.fill_of(ix, iy)[a].y1
    }

    /// Square and track fill touches no keep-out of the process that begins
    /// below the upper edges of the tile, whatever shape the keep-out has: a
    /// grown shape, a closed one, the band along a well, the die edge.
    pub proof fn fill_avoids_keepouts(
        self,
        ctx: RunContext,
        chip: Chip,
        k: int,
        placed: Seq<PlacedLayer>,
        ix: int,
        iy: int,
        a: int,
        p: int,
    )
        requires
            self.is_spaced(ctx, chip, k, placed, ix, iy, a),
            self.has_no_overlap(),
            ({
                let shapes = layer_keepouts(ctx, chip, k);
                0 <= p < shapes.len() && shapes[p].exterior.len() > 0 && begins_below(
                    bounds(shapes[p].exterior),
                    self.tile_rect(ix, iy),
                )
            }),
        ensures
            self.tile_rect(ix, iy).spec_encloses(self.fill_of(ix, iy)[a]),
            !keepout_of(layer_keepouts(ctx, chip, k)[p]).blocks(self.fill_of(ix, iy)[a]),
    {
        let layer = *self.layer;
        let r = self.fill_of(ix, iy)[a];
        let near = self.keepouts_in(ix, iy);
        let shapes = layer_keepouts(ctx, chip, k);
        let keepout = keepout_of(shapes[p]);
        shape_is_boxed(shapes, shapes.len() as int, p);
        let all = keepouts_of(self.keepouts@);
        let q = choose|q: int| 0 <= q < all.len() && all[q] == keepout;
        self.fill_is_inside(ctx, chip, k, placed, ix, iy, a);
        if keepout.bbox.meets(r) {
            self.keepout_is_near(ix, iy, q, r);
            let m = choose|m: int| 0 <= m < near.len() && near[m] == keepout;
            if near[m].blocks(r) {
                assert(is_blocked(near, r));
            }
        }
    }

    /// Fill lies in its tile and within a rectangle clear of the tile's
    /// keep-outs; square and track fill is itself clear of them.
    proof fn fill_is_inside(
        self,
        ctx: RunContext,
        chip: Chip,
        k: int,
        placed: Seq<PlacedLayer>,
        ix: int,
        iy: int,
        a: int,
    )
        requires
            self.is_spaced(ctx, chip, k, placed, ix, iy, a),
        ensures
            self.tile_rect(ix, iy).spec_encloses(self.fill_of(ix, iy)[a]),
            is_clear_of(self.keepouts_in(ix, iy), self.fill_of(ix, iy)[a]),
            self.has_no_overlap() ==> !is_blocked(self.keepouts_in(ix, iy), self.fill_of(ix, iy)[a]),
    {
        let near = self.keepouts_in(ix, iy);
        let algorithms = self.layer.algorithms@;
        self.site_is_valid(ix, iy);
        let site = self.site(ix, iy);
        site.fill_is_clear(near, algorithms, self.only, algorithms.len() as int);
        if self.has_no_overlap() {
            site.fill_is_clear_inside(near, algorithms, self.only, algorithms.len() as int);
            assert(site.is_clear_inside(near, self.fill_of(ix, iy)[a]));
        }
    }

    /// Fill overlaps no rectangular keep-out of the process, and does not touch
    /// one that begins below the upper edges of the tile.
    proof fn fill_keeps_off_boxes(
        self,
        ctx: RunContext,
        chip: Chip,
        k: int,
        placed: Seq<PlacedLayer>,
        ix: int,
        iy: int,
        a: int,
        p: int,
    )
        requires
            self.is_spaced(ctx, chip, k, placed, ix, iy, a),
            0 <= p < layer_keepouts(ctx, chip, k).len(),
            is_box(layer_keepouts(ctx, chip, k)[p]),
        ensures
            keeps_off(
                bounds(layer_keepouts(ctx, chip, k)[p].exterior),
                self.fill_of(ix, iy)[a],
                self.tile_rect(ix, iy),
            ),
    {
        let shapes = layer_keepouts(ctx, chip, k);
        let s = shapes[p];
        let keepout = keepout_of(s);
        let r = self.fill_of(ix, iy)[a];
        let near = self.keepouts_in(ix, iy);
        let tile = self.tile_rect(ix, iy);
        self.fill_is_inside(ctx, chip, k, placed, ix, iy, a);
        if begins_below(bounds(s.exterior), tile) && keepout.bbox.meets(r) {
            shape_is_boxed(shapes, shapes.len() as int, p);
            let all = keepouts_of(self.keepouts@);
            let q = choose|q: int| 0 <= q < all.len() && all[q] == keepout;
            self.keepout_is_near(ix, iy, q, r);
            let m = choose|m: int| 0 <= m < near.len() && near[m] == keepout;
            let outer = choose|outer: Rect| #[trigger] outer.spec_encloses(r) && !is_blocked(near, outer);
            assert(keepout.bbox.meets(outer));
            box_keepout_blocks(keepout, outer);
            assert(near[m].blocks(outer));
            assert(is_blocked(near, outer));
        }
    }

    /// Fill keeps off a rectangle of the map, grown by the space of its rule.
    proof fn fill_keeps_from_held(
        self,
        ctx: RunContext,
        chip: Chip,
        k: int,
        placed: Seq<PlacedLayer>,
        ix: int,
        iy: int,
        a: int,
        i: int,
        j: int,
    )
        requires
            self.is_spaced(ctx, chip, k, placed, ix, iy, a),
            0 <= i < layer_rules(ctx.process@, ctx.pdk.layers@[k].0@, *self.layer).len(),
            ({
                let shapes = chip.map.shapes(layer_rules(ctx.process@, ctx.pdk.layers@[k].0@, *self.layer)[i].key);
                0 <= j < shapes.len() && is_box(shapes[j])
            }),
        ensures
            ({
                let rule = layer_rules(ctx.process@, ctx.pdk.layers@[k].0@, *self.layer)[i];
                let s = chip.map.shapes(rule.key)[j];
                keeps_off(
                    bounds(s.exterior).spec_grown(units_of(rule.space as int, ctx.pdk.db_unit_nm as int)),
                    self.fill_of(ix, iy)[a],
                    self.tile_rect(ix, iy),
                )
            }),
    {
        let name = ctx.pdk.layers@[k].0@;
        let layer = *self.layer;
        let db = ctx.pdk.db_unit_nm as int;
        let rule = layer_rules(ctx.process@, name, layer)[i];
        let s = chip.map.shapes(rule.key)[j];
        let amount = units_of(rule.space as int, db);
        rules_are_valid(ctx.process@, name, layer);
        units_bounds(rule.space as int, db);
        chip.map.shapes_are_in_range(rule.key);
        assert(s.in_range());
        box_grows_on_all_sides(s, amount);
        let g = kept_shape(s, amount);
        assert(is_box(g) && bounds(g.exterior) == bounds(s.exterior).spec_grown(amount));
        rule_makes_keepout(ctx.process@, chip.map, chip.area, name, layer, db, i, j);
        let shapes = layer_keepouts(ctx, chip, k);
        let p = choose|p: int| 0 <= p < shapes.len() && shapes[p] == g;
        self.fill_keeps_off_boxes(ctx, chip, k, placed, ix, iy, a, p);
    }

    /// The chip holds the first of the drawn shapes that are like one on the layer
    /// of a rule.
    proof fn first_is_ruled(
        self,
        ctx: RunContext,
        chip: Chip,
        targets: Seq<usize>,
        drawn: Seq<Drawn>,
        k: int,
        i: int,
        p: int,
    ) -> (q: int)
        requires
            chip.holds_drawn(ctx, targets, Purpose::Fill, drawn),
            0 <= p < drawn.len(),
            is_first(drawn, p),
            self.is_ruled(ctx, k, i, drawn[p]),
        ensures
            0 <= q < chip.map.shapes(drawn[p].key).len(),
            chip.map.shapes(drawn[p].key)[q] == drawn[p].shape,
    {
        first_is_held(drawn, p);
        let held = chip.map.shapes(drawn[p].key);
        assert(chip.map.layer(drawn[p].key) == layer_of(drawn, drawn[p].key));
        choose|q: int| 0 <= q < held.len() && held[q] == drawn[p].shape
    }

    /// The shape is drawn on the layer of rule `i`, which is no boundary.
    pub open spec fn is_ruled(self, ctx: RunContext, k: int, i: int, d: Drawn) -> bool {
        let rules = layer_rules(ctx.process@, ctx.pdk.layers@[k].0@, *self.layer);
        &&& 0 <= i < rules.len()
        &&& rules[i].key == d.key
        &&& ctx.pdk.fill_boundary_layer matches Some(b) && b != d.key
        &&& ctx.pdk.density_boundary_layer matches Some(b) && b != d.key
    }

    /// The space of rule `i` in layout units.
    pub open spec fn rule_space(self, ctx: RunContext, k: int, i: int) -> int {
        units_of(
            layer_rules(ctx.process@, ctx.pdk.layers@[k].0@, *self.layer)[i].space as int,
            ctx.pdk.db_unit_nm as int,
        )
    }

    /// Fill keeps at least the space of each rule from every rectangle that the
    /// layout draws on the layer of the rule, and more than the space where the
    /// grown rectangle begins below the upper edges of the tile.  Of shapes that
    /// are alike in whole database units only the first counts, which may cost
    /// half a unit; they are all rectangles here.
    pub proof fn fill_keeps_space(
        self,
        ctx: RunContext,
        chip: Chip,
        targets: Seq<usize>,
        drawn: Seq<Drawn>,
        k: int,
        placed: Seq<PlacedLayer>,
        ix: int,
        iy: int,
        a: int,
        i: int,
        j: int,
    )
        requires
            self.is_spaced(ctx, chip, k, placed, ix, iy, a),
            chip.holds_drawn(ctx, targets, Purpose::Fill, drawn),
            0 <= j < drawn.len(),
            self.is_ruled(ctx, k, i, drawn[j]),
            are_boxes_alike(drawn, j),
        ensures
            keeps_off(
                bounds(drawn[j].shape.exterior).spec_grown(self.rule_space(ctx, k, i) - alike_slack(drawn, j)),
                self.fill_of(ix, iy)[a],
                self.tile_rect(ix, iy),
            ),
    {
        let p = first_alike(drawn, j);
        assert(are_alike(drawn, j, j));
        assert(self.is_ruled(ctx, k, i, drawn[p]));
        let q = self.first_is_ruled(ctx, chip, targets, drawn, k, i, p);
        assert(is_box(drawn[p].shape));
        self.fill_keeps_from_held(ctx, chip, k, placed, ix, iy, a, i, q);
        let amount = self.rule_space(ctx, k, i);
        rules_are_valid(ctx.process@, ctx.pdk.layers@[k].0@, *self.layer);
        units_bounds(
            layer_rules(ctx.process@, ctx.pdk.layers@[k].0@, *self.layer)[i].space as int,
            ctx.pdk.db_unit_nm as int,
        );
        chip.map.shapes_are_in_range(drawn[p].key);
        let (r, b) = (drawn[p].shape.exterior, drawn[j].shape.exterior);
        assert(chip.map.shapes(drawn[p].key)[q].in_range());
        box_bounds(r);
        box_bounds(b);
        assert(r[0].in_range() && r[2].in_range());
        assert(dbu_ring(r).len() == dbu_ring(b).len());
        alike_corner(r, b, 0);
        alike_corner(r, b, 2);
        if r == b {
            assert(alike_slack(drawn, j) >= 0);
        } else {
            assert(alike_slack(drawn, j) == 1);
        }
    }

    /// Square and track fill touches no shape that the layout draws on the layer of
    /// a rule, rectangle or not, grown by the space of the rule, where it begins
    /// below the upper edges of the tile.  Of shapes that are alike in whole
    /// database units this is said of the first.
    pub proof fn fill_avoids_grown_shapes(
        self,
        ctx: RunContext,
        chip: Chip,
        targets: Seq<usize>,
        drawn: Seq<Drawn>,
        k: int,
        placed: Seq<PlacedLayer>,
        ix: int,
        iy: int,
        a: int,
        i: int,
        p: int,
    )
        requires
            self.is_spaced(ctx, chip, k, placed, ix, iy, a),
            chip.holds_drawn(ctx, targets, Purpose::Fill, drawn),
            0 <= p < drawn.len(),
            self.is_ruled(ctx, k, i, drawn[p]),
            is_first(drawn, p),
            self.has_no_overlap(),
            ({
                let g = kept_shape(drawn[p].shape, self.rule_space(ctx, k, i));
                g.exterior.len() > 0 && begins_below(bounds(g.exterior), self.tile_rect(ix, iy))
            }),
        ensures
            !keepout_of(kept_shape(drawn[p].shape, self.rule_space(ctx, k, i))).blocks(self.fill_of(ix, iy)[a]),
    {
        let name = ctx.pdk.layers@[k].0@;
        let db = ctx.pdk.db_unit_nm as int;
        let g = kept_shape(drawn[p].shape, self.rule_space(ctx, k, i));
        let j = self.first_is_ruled(ctx, chip, targets, drawn, k, i, p);
        rule_makes_keepout(ctx.process@, chip.map, chip.area, name, *self.layer, db, i, j);
        let shapes = layer_keepouts(ctx, chip, k);
        let q = choose|q: int| 0 <= q < shapes.len() && shapes[q] == g;
        self.fill_avoids_keepouts(ctx, chip, k, placed, ix, iy, a, q);
    }

    /// On the gf180mcu processes, fill of a layer with rules keeps at least the
    /// die edge space from all four edges of the chip.
    pub proof fn fill_keeps_from_die_edge(
        self,
        ctx: RunContext,
        chip: Chip,
        k: int,
        placed: Seq<PlacedLayer>,
        ix: int,
        iy: int,
        a: int,
    )
        requires
            self.is_spaced(ctx, chip, k, placed, ix, iy, a),
            family_of_process(ctx.process@) == Some(ProcessFamily::Gf180mcu),
            gf180mcu::family_of(ctx.pdk.layers@[k].0@) is Some,
        ensures
            ({
                let r = self.fill_of(ix, iy)[a];
                let space = units_of(gf180mcu::DIE_EDGE_SPACE as int, ctx.pdk.db_unit_nm as int);
                chip.area.x0 + space <= r.x0 && r.x1 <= chip.area.x1 - space && chip.area.y0 + space <= r.y0 && r.y1
                    <= chip.area.y1 - space
            }),
    {
        let name = ctx.pdk.layers@[k].0@;
        let db = ctx.pdk.db_unit_nm as int;
        let f = gf180mcu::family_of(name)->0;
        let space = units_of(gf180mcu::DIE_EDGE_SPACE as int, db);
        let ring = edge_ring(chip.area, space);
        let comp = gf180mcu::closed_comp(chip.map, f, db)->0;
        let wells = gf180mcu::well_bands(
            chip.map,
            gf180mcu::well_rules(f),
            db,
            gf180mcu::well_rules(f).len() as int,
        )->0;
        let rules = gf180mcu::family_rules(f, *self.layer);
        let ruled = ruled_shapes(chip.map, rules, db, rules.len() as int);
        let shapes = layer_keepouts(ctx, chip, k);
        let first = comp.len() + wells.len() + ruled.len();
        let tile = self.tile_rect(ix, iy);
        let t = self.grid.tile_size as int;
        tile_starts_inside(chip.area.width(), t, ix);
        tile_starts_inside(chip.area.height(), t, iy);
        units_bounds(gf180mcu::DIE_EDGE_SPACE as int, db);
        self.fill_is_inside(ctx, chip, k, placed, ix, iy, a);
        assert(chip.area.spec_encloses(tile));
        if space > 0 {
            assert forall|n: int| 0 <= n < 4 implies keeps_off(#[trigger] ring[n], self.fill_of(ix, iy)[a], tile) by {
                assert(shapes[first + n] == rect_shapes(ring)[n]);
                rect_is_box(ring[n]);
                self.fill_keeps_off_boxes(ctx, chip, k, placed, ix, iy, a, first + n);
            }
            assert(keeps_off(ring[0], self.fill_of(ix, iy)[a], tile));
            assert(keeps_off(ring[1], self.fill_of(ix, iy)[a], tile));
            assert(keeps_off(ring[2], self.fill_of(ix, iy)[a], tile));
            assert(keeps_off(ring[3], self.fill_of(ix, iy)[a], tile));
        }
    }

    /// The metal rules of the gf180mcu processes: fill of a metal keeps the circuit
    /// space from the rectangles drawn on that metal, the marker space from those
    /// on the marker layers, and the die edge space from the edges of the chip.
    pub proof fn metal_fill_keeps_its_rules(
        self,
        ctx: RunContext,
        chip: Chip,
        targets: Seq<usize>,
        drawn: Seq<Drawn>,
        n: int,
        k: int,
        placed: Seq<PlacedLayer>,
        ix: int,
        iy: int,
        a: int,
        j: int,
    )
        requires
            family_of_process(ctx.process@) == Some(ProcessFamily::Gf180mcu),
            gf180mcu::is_stack(ctx.pdk, n),
            0 < n <= 5,
            2 <= k < ctx.pdk.layers@.len(),
            self.is_spaced(ctx, chip, k, placed, ix, iy, a),
            chip.holds_drawn(ctx, targets, Purpose::Fill, drawn),
            0 <= j < drawn.len(),
            are_boxes_alike(drawn, j),
        ensures
            ({
                let db = ctx.pdk.db_unit_nm as int;
                let b = bounds(drawn[j].shape.exterior);
                let slack = alike_slack(drawn, j);
                let r = self.fill_of(ix, iy)[a];
                let tile = self.tile_rect(ix, iy);
                let edge = units_of(gf180mcu::DIE_EDGE_SPACE as int, db);
                &&& drawn[j].key == (gf180mcu::metal_gds(k - 2), 0i16) ==> keeps_off(
                    b.spec_grown(units_of(gf180mcu::DM_CIRCUIT_SPACE as int, db) - slack),
                    r,
                    tile,
                )
                &&& gf180mcu::markers().contains(drawn[j].key) ==> keeps_off(
                    b.spec_grown(units_of(gf180mcu::DM_MARKER_SPACE as int, db) - slack),
                    r,
                    tile,
                )
                &&& chip.area.x0 + edge <= r.x0 && r.x1 <= chip.area.x1 - edge
                &&& chip.area.y0 + edge <= r.y0 && r.y1 <= chip.area.y1 - edge
            }),
    {
        let name = ctx.pdk.layers@[k].0@;
        let layer = *self.layer;
        assert(ctx.pdk.layers@[(k - 2) + 2].0@ == gf180mcu::metal_name(k - 2));
        assert(gf180mcu::is_metal_layer(layer, k - 2, n));
        assert(gf180mcu::family_of(name) == Some(gf180mcu::Family::Metal));
        let rules = layer_rules(ctx.process@, name, layer);
        let marks = gf180mcu::markers();
        if drawn[j].key == (gf180mcu::metal_gds(k - 2), 0i16) {
            assert(rules[0] == (SpaceRule { key: drawn[j].key, space: gf180mcu::DM_CIRCUIT_SPACE }));
            self.fill_keeps_space(ctx, chip, targets, drawn, k, placed, ix, iy, a, 0, j);
        }
        if marks.contains(drawn[j].key) {
            let m = choose|m: int| 0 <= m < marks.len() && marks[m] == drawn[j].key;
            assert(rules[2 + m] == (SpaceRule { key: drawn[j].key, space: gf180mcu::DM_MARKER_SPACE }));
            self.fill_keeps_space(ctx, chip, targets, drawn, k, placed, ix, iy, a, 2 + m, j);
        }
        self.fill_keeps_from_die_edge(ctx, chip, k, placed, ix, iy, a);
    }
}

} // verus!
