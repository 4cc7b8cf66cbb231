//! The fill of one layer, tile by tile.

use crate::area::indices_valid;
use crate::chip::counted_polygons;
use crate::chip::counted_shapes;
use crate::chip::drawing_key;
use crate::chip::fill_key;
use crate::chip::Chip;
use crate::chip::RunError;
use crate::config::AlgorithmKind;
use crate::config::LayerFillConfig;
use crate::context::family_of_process;
use crate::context::process_family;
use crate::context::ProcessFamily;
use crate::context::RunContext;
use crate::density::draw_area2;
use crate::density::draw_area_known;
use crate::density::old_area2;
use crate::density::old_area_known;
use crate::density::tile_density;
use crate::density::Measure;
use crate::fill::are_fill_rects;
use crate::fill::fill_area;
use crate::fill::measure;
use crate::fill::overlap::are_layout_rects;
use crate::fill::tile::Site;
use crate::fill::tile::TileSite;
use crate::fill::AREA_CAP;
use crate::fill::DENSITY_LIMIT;
use crate::fill::TileCtx;
use crate::geom::all_in_reach;
use crate::geom::bounds;
use crate::geom::bounds_in_range;
use crate::geom::min_of;
use crate::geom::shapes_in_range;
use crate::geom::shapes_in_reach;
use crate::geom::shapes_of;
use crate::geom::Point;
use crate::geom::Polygon;
use crate::geom::Rect;
use crate::geom::Shape;
use crate::layer_map::LayerMap;
use crate::pdk::find_layer;
use crate::pdk::gf180mcu;
use crate::pdk::ihp_sg13;
use crate::pdk::is_length;
use crate::pdk::keepout::rect_shapes;
use crate::pdk::keepout::SPACE_LIMIT;
use crate::pdk::to_units;
use crate::pdk::units_of;
use crate::pdk::FULL;
use crate::pdk::FillAlgorithm;
use crate::pdk::LENGTH_LIMIT;
use crate::pdk::PdkConstants;
use crate::pdk::PdkLayer;
use crate::tiles::are_pointless;
use crate::tiles::build_tile_index;
use crate::tiles::check_pointless;
use crate::tiles::members_are_ascending;
use crate::tiles::some_tiles;
use crate::tiles::tile_at;
use crate::tiles::tile_count;
use crate::tiles::tile_rect;
use crate::tiles::tiles_fit;
use crate::tiles::Grid;
use crate::touch::keepouts_in_reach;
use crate::touch::keepouts_of;
use crate::touch::Keepout;
use crate::touch::KeepoutShape;
use vstd::prelude::*;

verus! {

/// The rectangles placed on a layer and datatype.
#[derive(Debug)]
pub struct PlacedLayer {
    pub key: (i16, i16),
    pub rects: Vec<Rect>,
}

/// The rectangles placed last on `key`, out of the first `n` entries.
pub open spec fn placed_on(placed: Seq<PlacedLayer>, key: (i16, i16), n: int) -> Seq<Rect>
    decreases n,
{
    if n <= 0 {
        Seq::empty()
    } else if placed[n - 1].key == key {
        placed[n - 1].rects@
    } else {
        placed_on(placed, key, n - 1)
    }
}

/// The layer and datatype that the first overlap algorithm from position `i`
/// on refers to.
pub open spec fn reference_key(pdk: PdkConstants, algorithms: Seq<FillAlgorithm>, i: int) -> Option<(i16, i16)>
    decreases algorithms.len() - i,
{
    if i < 0 || i >= algorithms.len() {
        None
    } else {
        match algorithms[i] {
            FillAlgorithm::Overlap(op) => match find_layer(pdk.layers@, op.ref_layer@, 0) {
                Some(k) => Some(fill_key(pdk.layers@[k].1)),
                None => reference_key(pdk, algorithms, i + 1),
            },
            _ => reference_key(pdk, algorithms, i + 1),
        }
    }
}

/// Those of the first `n` rectangles that are ordered and in range.
pub open spec fn layout_rects(rects: Seq<Rect>, n: int) -> Seq<Rect>
    decreases n,
{
    if n <= 0 {
        Seq::empty()
    } else if rects[n - 1].ordered() && rects[n - 1].in_range() {
        layout_rects(rects, n - 1).push(rects[n - 1])
    } else {
        layout_rects(rects, n - 1)
    }
}

/// The references of a layer: what was placed on the layer that its overlap
/// algorithm refers to.
pub open spec fn references(pdk: PdkConstants, layer: PdkLayer, placed: Seq<PlacedLayer>) -> Seq<Rect> {
    match reference_key(pdk, layer.algorithms@, 0) {
        Some(key) => {
            let all = placed_on(placed, key, placed.len() as int);
            layout_rects(all, all.len() as int)
        },
        None => Seq::empty(),
    }
}

/// The keep-outs of those of the first `n` shapes that have points.
pub open spec fn boxed_keepouts(shapes: Seq<Shape>, n: int) -> Seq<KeepoutShape>
    decreases n,
{
    if n <= 0 {
        Seq::empty()
    } else if shapes[n - 1].exterior.len() == 0 {
        boxed_keepouts(shapes, n - 1)
    } else {
        boxed_keepouts(shapes, n - 1).push(
            KeepoutShape { bbox: bounds(shapes[n - 1].exterior), shape: Some(shapes[n - 1]) },
        )
    }
}

/// The shapes of keep-outs that have one.
pub open spec fn keepout_polygons(keepouts: Seq<KeepoutShape>) -> Seq<Shape> {
    keepouts.map_values(|k: KeepoutShape| k.shape->0)
}

/// The keep-out shapes of a layer by the rules of the process, none for a
/// process without rules.  `None` if they leave the coordinate range.
pub open spec fn process_keepouts(
    process: Seq<char>,
    map: LayerMap,
    area: Rect,
    name: Seq<char>,
    layer: PdkLayer,
    db_unit: int,
) -> Option<Seq<Shape>> {
    match family_of_process(process) {
        Some(ProcessFamily::IhpSg13) => Some(ihp_sg13::keepout_shapes(map, name, layer, db_unit)),
        Some(ProcessFamily::Gf180mcu) => gf180mcu::keepout_shapes(map, area, name, layer, db_unit),
        None => Some(Seq::empty()),
    }
}

/// The overrides of a layer.
pub open spec fn overrides(ctx: RunContext, name: Seq<char>) -> Option<LayerFillConfig> {
    match ctx.config {
        Some(c) => c.override_for(name),
        None => None,
    }
}

/// The target density of a layer.
pub open spec fn target_of(ctx: RunContext, name: Seq<char>, layer: PdkLayer) -> i64 {
    match overrides(ctx, name) {
        Some(o) => o.density,
        None => layer.default_density,
    }
}

/// The deviation accepted of a layer.
pub open spec fn deviation_of(ctx: RunContext, name: Seq<char>, layer: PdkLayer) -> i64 {
    match overrides(ctx, name) {
        Some(o) => o.deviation,
        None => layer.default_deviation,
    }
}

/// The kind of algorithm that a layer is restricted to.
pub open spec fn kind_of(ctx: RunContext, name: Seq<char>) -> Option<AlgorithmKind> {
    match overrides(ctx, name) {
        Some(o) => o.algorithm,
        None => None,
    }
}

/// A length that is at least one layout unit.
pub open spec fn is_tile_length(nm: int, db_unit: int) -> bool {
    is_length(nm) && units_of(nm, db_unit) > 0
}

/// The sizes of the layer are within their limits.
pub open spec fn sizes_usable(pdk: PdkConstants, layer: PdkLayer) -> bool {
    &&& 0 < pdk.db_unit_nm <= LENGTH_LIMIT
    &&& 0 < pdk.grid_dbu <= LENGTH_LIMIT
    &&& is_tile_length(layer.tile_width_nm as int, pdk.db_unit_nm as int)
    &&& layer.merge_window_nm matches Some(w) ==> is_tile_length(w as int, pdk.db_unit_nm as int)
    &&& 0 <= gf180mcu::square_space(layer.algorithms@, 0) <= SPACE_LIMIT
}

/// A density within the limits.
pub open spec fn is_density(d: int) -> bool {
    -DENSITY_LIMIT <= d <= DENSITY_LIMIT
}

/// How the drawn shapes of a layer are measured.
pub open spec fn measure_of(layer: PdkLayer, db_unit: int) -> Measure {
    Measure {
        merge: layer.merge_for_density,
        window: match layer.merge_window_nm {
            Some(w) => Some(units_of(w as int, db_unit) as i64),
            None => None,
        },
    }
}

/// Where tracks start: at the corner of the core, or of the chip.
pub open spec fn track_phase(chip: Chip) -> Point {
    let cores = shapes_of(chip.cores@);
    if cores.len() > 0 && cores[0].exterior.len() > 0 {
        Point { x: bounds(cores[0].exterior).x0, y: bounds(cores[0].exterior).y0 }
    } else {
        Point { x: chip.area.x0, y: chip.area.y0 }
    }
}

/// The fill of one layer: its shapes, keep-outs, references and cores, indexed
/// by tile.
#[derive(Debug)]
pub struct LayerPlan<'a> {
    pub chip: &'a Chip,
    pub layer: &'a PdkLayer,
    /// The drawn shapes whose area counts.
    pub drawing: Vec<Polygon>,
    pub filled: &'a [Polygon],
    pub grid: Grid,
    pub drawing_index: Vec<Vec<usize>>,
    pub filled_index: Vec<Vec<usize>>,
    pub keepouts: Vec<Keepout>,
    pub keepout_index: Vec<Vec<usize>>,
    pub refs: Vec<Rect>,
    pub ref_index: Vec<Vec<usize>>,
    pub core_index: Vec<Vec<usize>>,
    pub how: Measure,
    pub only: Option<AlgorithmKind>,
    pub target_density: i64,
    pub deviation: i64,
    pub db_unit_nm: i64,
    pub grid_dbu: i64,
    pub phase: Point,
}

/// What a tile of a layer holds after fill.  Areas are doubled.
#[derive(Debug)]
pub struct TileFill {
    pub rects: Vec<Rect>,
    pub draw_area: i128,
    pub old_area: i128,
    pub new_area: i128,
    pub tile_area: i128,
}

/// The keep-outs at the given positions.
pub open spec fn keepouts_at(keepouts: Seq<KeepoutShape>, positions: Seq<usize>) -> Seq<KeepoutShape> {
    positions.map_values(|k: usize| keepouts[k as int])
}

impl<'a> LayerPlan<'a> {
    /// The parts belong together and are within the limits.
    pub open spec fn valid(self) -> bool {
        &&& self.chip.valid()
        &&& shapes_in_range(shapes_of(self.drawing@))
        &&& shapes_in_range(shapes_of(self.filled@))
        &&& keepouts_in_reach(keepouts_of(self.keepouts@))
        &&& forall|i: int| 0 <= i < self.keepouts@.len() ==> (#[trigger] self.keepouts@[i]).shape is Some
        &&& are_layout_rects(self.refs@)
        &&& self.grid.valid()
        &&& self.grid == Grid::spec_over(self.chip.area, self.grid.tile_size)
        &&& self.grid.nx == tile_count(self.chip.area.width(), self.grid.tile_size as int)
        &&& self.grid.ny == tile_count(self.chip.area.height(), self.grid.tile_size as int)
        &&& self.indexed()
        &&& self.how.window matches Some(w) ==> w > 0
        &&& is_density(self.target_density as int)
        &&& is_density(self.deviation as int)
        &&& 0 < self.db_unit_nm <= LENGTH_LIMIT
        &&& 0 < self.grid_dbu <= LENGTH_LIMIT
        &&& self.phase.in_range()
    }

    /// The indices list what reaches each tile.
    pub open spec fn indexed(self) -> bool {
        &&& self.grid.indexes(shapes_of(self.drawing@), self.drawing_index@)
        &&& self.grid.indexes(shapes_of(self.filled@), self.filled_index@)
        &&& self.grid.indexes(keepout_polygons(keepouts_of(self.keepouts@)), self.keepout_index@)
        &&& self.grid.indexes(rect_shapes(self.refs@), self.ref_index@)
        &&& self.grid.indexes(shapes_of(self.chip.cores@), self.core_index@)
    }

    /// All shapes of the layer, drawn and filled.
    pub open spec fn all_metal(self) -> Seq<Shape> {
        self.chip.map.shapes(drawing_key(*self.layer)) + shapes_of(self.filled@)
    }

    /// The polygons of the keep-outs.
    pub open spec fn keepout_shapes(self) -> Seq<Shape> {
        keepout_polygons(keepouts_of(self.keepouts@))
    }

    /// The tile.
    pub open spec fn tile_rect(self, ix: int, iy: int) -> Rect {
        tile_rect(self.chip.area, self.grid.tile_size as int, ix, iy)
    }

    /// The drawn shapes listed for a tile.
    pub open spec fn drawn_in(self, ix: int, iy: int) -> Seq<usize> {
        self.grid.members(shapes_of(self.drawing@), self.drawing@.len() as int, ix, iy)
    }

    /// The filled shapes listed for a tile.
    pub open spec fn filled_in(self, ix: int, iy: int) -> Seq<usize> {
        self.grid.members(shapes_of(self.filled@), self.filled@.len() as int, ix, iy)
    }

    /// The keep-outs listed for a tile.
    pub open spec fn keepouts_in(self, ix: int, iy: int) -> Seq<KeepoutShape> {
        let all = keepouts_of(self.keepouts@);
        keepouts_at(all, self.grid.members(keepout_polygons(all), all.len() as int, ix, iy))
    }

    /// The drawn area in a tile, doubled.
    pub open spec fn draw_area(self, ix: int, iy: int) -> int {
        draw_area2(shapes_of(self.drawing@), self.drawn_in(ix, iy), self.tile_rect(ix, iy), self.how)
    }

    /// The area filled before in a tile, doubled.
    pub open spec fn old_area(self, ix: int, iy: int) -> int {
        old_area2(shapes_of(self.filled@), self.filled_in(ix, iy), self.tile_rect(ix, iy))
    }

    /// The areas in a tile can be computed.
    pub open spec fn areas_known(self, ix: int, iy: int) -> bool {
        &&& draw_area_known(shapes_of(self.drawing@), self.drawn_in(ix, iy), self.tile_rect(ix, iy), self.how)
        &&& old_area_known(shapes_of(self.filled@), self.filled_in(ix, iy), self.tile_rect(ix, iy))
    }

    /// A tile with what is near it.
    pub open spec fn site(self, ix: int, iy: int) -> Site {
        let refs = self.grid.members(rect_shapes(self.refs@), self.refs@.len() as int, ix, iy);
        let cores = shapes_of(self.chip.cores@);
        let near = self.grid.members(cores, cores.len() as int, ix, iy);
        Site {
            tile: self.tile_rect(ix, iy),
            outline: self.chip.outline,
            refs: refs.map_values(|k: usize| self.refs@[k as int]),
            cores: near.map_values(|k: usize| cores[k as int]),
            phase: self.phase,
            ctx: TileCtx {
                running: min_of(self.draw_area(ix, iy) + self.old_area(ix, iy), AREA_CAP as int) as i128,
                target_density: self.target_density,
                deviation: self.deviation,
                db_unit_nm: self.db_unit_nm,
                tile_area: (2 * self.tile_rect(ix, iy).spec_area()) as i128,
                grid_dbu: self.grid_dbu,
                chip_corner: Point { x: self.chip.area.x0, y: self.chip.area.y0 },
            },
        }
    }

    /// The algorithms of the layer are usable where a tile wants their fill.
    pub open spec fn can_fill(self, ix: int, iy: int) -> bool {
        self.site(ix, iy).can_use(self.keepouts_in(ix, iy), self.layer.algorithms@, self.only)
    }

    /// The new fill of a tile.
    pub open spec fn fill_of(self, ix: int, iy: int) -> Seq<Rect> {
        self.site(ix, iy).result(self.keepouts_in(ix, iy), self.layer.algorithms@, self.only)
    }

    /// The positions that an index lists for a tile.
    fn listed<'b>(&self, index: &'b Vec<Vec<usize>>, ix: usize, iy: usize, Ghost(shapes): Ghost<Seq<Shape>>) -> (v: &'b Vec<
        usize,
    >)
        requires
            self.grid.valid(),
            self.grid.indexes(shapes, index@),
            shapes.len() <= usize::MAX,
            ix < self.grid.nx,
            iy < self.grid.ny,
        ensures
            v@ == self.grid.members(shapes, shapes.len() as int, ix as int, iy as int),
            indices_valid(v@, shapes.len()),
    {
        let k = self.grid.position(ix, iy);
        proof {
            assert(index@[iy * self.grid.nx + ix]@ == self.grid.members(shapes, shapes.len() as int, ix as int, iy as int));
            members_are_ascending(self.grid, shapes, shapes.len() as int, ix as int, iy as int);
        }
        &index[k]
    }

    /// The keep-outs near a tile.
    fn copy_near_keepouts(&self, ix: usize, iy: usize) -> (out: Vec<Keepout>)
        requires
            self.valid(),
            ix < self.grid.nx,
            iy < self.grid.ny,
        ensures
            keepouts_of(out@) == self.keepouts_in(ix as int, iy as int),
            keepouts_in_reach(keepouts_of(out@)),
    {
        let ghost all = keepouts_of(self.keepouts@);
        let n = self.keepouts.len();
        let list = self.listed(&self.keepout_index, ix, iy, Ghost(keepout_polygons(all)));
        let mut out: Vec<Keepout> = Vec::new();
        let mut i: usize = 0;
        while i < list.len()
            invariant
                i <= list@.len(),
                all == keepouts_of(self.keepouts@),
                keepouts_in_reach(all),
                indices_valid(list@, all.len()),
                out@.len() == i,
                forall|k: int| 0 <= k < i ==> (#[trigger] out@[k])@ == all[list@[k] as int],
            decreases list@.len() - i,
        {
            assert(list@[i as int] < all.len());
            out.push(self.keepouts[list[i]].duplicate());
            i = i + 1;
        }
        proof {
            assert(keepouts_of(out@) =~= keepouts_at(all, list@));
            assert forall|k: int| 0 <= k < keepouts_of(out@).len() implies (
            #[trigger] keepouts_of(out@)[k]).in_reach() by {
                assert(list@[k] < all.len());
                assert(all[list@[k] as int].in_reach());
            }
        }
        out
    }

    /// The references near a tile.
    fn copy_near_refs(&self, ix: usize, iy: usize) -> (out: Vec<Rect>)
        requires
            self.valid(),
            ix < self.grid.nx,
            iy < self.grid.ny,
        ensures
            out@ == self.site(ix as int, iy as int).refs,
            are_layout_rects(out@),
    {
        let ghost all = rect_shapes(self.refs@);
        let n = self.refs.len();
        let list = self.listed(&self.ref_index, ix, iy, Ghost(all));
        let mut out: Vec<Rect> = Vec::new();
        let mut i: usize = 0;
        while i < list.len()
            invariant
                i <= list@.len(),
                are_layout_rects(self.refs@),
                indices_valid(list@, self.refs@.len()),
                out@.len() == i,
                forall|k: int| 0 <= k < i ==> (#[trigger] out@[k]) == self.refs@[list@[k] as int],
                are_layout_rects(out@),
            decreases list@.len() - i,
        {
            assert(list@[i as int] < self.refs@.len());
            out.push(self.refs[list[i]]);
            i = i + 1;
        }
        assert(out@ =~= list@.map_values(|k: usize| self.refs@[k as int]));
        out
    }

    /// The core polygons near a tile.
    fn copy_near_cores(&self, ix: usize, iy: usize) -> (out: Vec<Polygon>)
        requires
            self.valid(),
            ix < self.grid.nx,
            iy < self.grid.ny,
        ensures
            shapes_of(out@) == self.site(ix as int, iy as int).cores,
            shapes_in_range(shapes_of(out@)),
    {
        let cores = &self.chip.cores;
        let ghost all = shapes_of(cores@);
        let list = self.grid.listed(&self.core_index, cores, ix, iy);
        let mut out: Vec<Polygon> = Vec::new();
        let mut i: usize = 0;
        while i < list.len()
            invariant
                i <= list@.len(),
                all == shapes_of(cores@),
                indices_valid(list@, all.len()),
                out@.len() == i,
                forall|k: int| 0 <= k < i ==> (#[trigger] out@[k])@ == all[list@[k] as int],
            decreases list@.len() - i,
        {
            assert(list@[i as int] < all.len());
            out.push(cores[list[i]].duplicate());
            i = i + 1;
        }
        proof {
            assert(shapes_of(out@) =~= list@.map_values(|k: usize| all[k as int]));
            assert forall|k: int| 0 <= k < shapes_of(out@).len() implies (#[trigger] shapes_of(out@)[k]).in_range() by {
                assert(list@[k] < all.len());
                assert(all[list@[k] as int].in_range());
            }
        }
        out
    }

    /// Fill a tile.  An error if its areas cannot be computed, or if it wants the
    /// fill of an algorithm that is not usable.
    pub fn tile(&self, ix: usize, iy: usize) -> (r: Result<TileFill, RunError>)
        requires
            self.valid(),
            ix < self.grid.nx,
            iy < self.grid.ny,
        ensures
            r == Err::<TileFill, RunError>(RunError::OutOfRange) <==> !self.areas_known(ix as int, iy as int),
            r == Err::<TileFill, RunError>(RunError::Unusable) <==> self.areas_known(ix as int, iy as int) && !self.can_fill(
                ix as int,
                iy as int,
            ),
            r is Ok <==> self.areas_known(ix as int, iy as int) && self.can_fill(ix as int, iy as int),
            r matches Ok(t) ==> {
                &&& t.rects@ == self.fill_of(ix as int, iy as int)
                &&& are_fill_rects(t.rects@)
                &&& t.draw_area == self.draw_area(ix as int, iy as int)
                &&& t.old_area == self.old_area(ix as int, iy as int)
                &&& t.new_area == fill_area(t.rects@)
                &&& t.tile_area == 2 * self.tile_rect(ix as int, iy as int).spec_area()
                &&& t.valid()
            },
    {
        let tile = tile_at(&self.chip.area, self.grid.tile_size, ix, iy);
        let drawn = self.grid.listed(&self.drawing_index, &self.drawing, ix, iy);
        let filled = self.grid.listed(&self.filled_index, self.filled, ix, iy);
        let d = match tile_density(&self.drawing, drawn, self.filled, filled, &tile, &self.how) {
            Some(d) => d,
            None => {
                return Err(RunError::OutOfRange);
            },
        };
        let running: i128 = if d.draw_area >= AREA_CAP || d.fill_area >= AREA_CAP || d.draw_area + d.fill_area
            >= AREA_CAP {
            AREA_CAP
        } else {
            d.draw_area + d.fill_area
        };
        let ctx = TileCtx {
            running,
            target_density: self.target_density,
            deviation: self.deviation,
            db_unit_nm: self.db_unit_nm,
            tile_area: d.tile_area,
            grid_dbu: self.grid_dbu,
            chip_corner: Point { x: self.chip.area.x0, y: self.chip.area.y0 },
        };
        let site = TileSite {
            tile,
            outline: &self.chip.outline,
            refs: self.copy_near_refs(ix, iy),
            cores: self.copy_near_cores(ix, iy),
            phase: self.phase,
            ctx,
        };
        proof {
            let (w, h) = (tile.width(), tile.height());
            assert(0 < w * h <= 0x1_0000_0000_0000_0000) by (nonlinear_arith)
                requires
                    0 < w <= 0x1_0000_0000,
                    0 < h <= 0x1_0000_0000,
            ;
            assert(site@ == self.site(ix as int, iy as int));
            assert(ctx.valid());
        }
        let keepouts = self.copy_near_keepouts(ix, iy);
        let rects = match site.fill(keepouts, &self.layer.algorithms, self.only) {
            Some(v) => v,
            None => {
                return Err(RunError::Unusable);
            },
        };
        let new_area = measure(&rects);
        Ok(
            TileFill {
                rects,
                draw_area: d.draw_area,
                old_area: d.fill_area,
                new_area,
                tile_area: d.tile_area,
            },
        )
    }
}

impl TileFill {
    /// Areas are not negative, and those of the tile and the fill bounded.
    pub open spec fn valid(self) -> bool {
        &&& self.draw_area >= 0
        &&& self.old_area >= 0
        &&& 0 <= self.new_area <= AREA_CAP
        &&& 0 < self.tile_area <= 0x4_0000_0000_0000_0000
    }

    /// The density is below the target by more than the deviation.
    pub open spec fn is_under(self, target: int, deviation: int) -> bool {
        (self.draw_area + self.old_area + self.new_area) * FULL < (target - deviation) * self.tile_area
    }

    /// Is the density below the target by more than the deviation?
    pub fn check_under(&self, target: i64, deviation: i64) -> (b: bool)
        requires
            self.valid(),
            is_density(target as int),
            is_density(deviation as int),
        ensures
            b == self.is_under(target as int, deviation as int),
    {
        let least: i64 = target - deviation;
        proof {
            let (l, t) = (least as int, self.tile_area as int);
            assert(-0x800_0000_0000_0000_0000_0000_0000 <= l * t <= 0x800_0000_0000_0000_0000_0000_0000)
                by (nonlinear_arith)
                requires
                    -0x200_0000_0000 <= l <= 0x200_0000_0000,
                    0 < t <= 0x4_0000_0000_0000_0000,
            ;
        }
        if self.draw_area >= AREA_CAP || self.old_area >= AREA_CAP {
            proof {
                let total = self.draw_area + self.old_area + self.new_area;
                assert(total * FULL >= 0x1_0000_0000_0000_0000_0000_0000 * FULL) by (nonlinear_arith)
                    requires
                        total >= 0x1_0000_0000_0000_0000_0000_0000,
                        FULL == 100_000_000,
                ;
            }
            return false;
        }
        let total: i128 = self.draw_area + self.old_area + self.new_area;
        proof {
            assert(0 <= total * FULL <= 0x3_0000_0000_0000_0000_0000_0000 * 100_000_000) by (nonlinear_arith)
                requires
                    0 <= total <= 0x3_0000_0000_0000_0000_0000_0000,
                    FULL == 100_000_000,
            ;
        }
        total * (FULL as i128) < (least as i128) * self.tile_area
    }
}

/// The layer and datatype that the first overlap algorithm refers to.
fn find_reference_key(pdk: &PdkConstants, layer: &PdkLayer) -> (key: Option<(i16, i16)>)
    ensures
        key == reference_key(*pdk, layer.algorithms@, 0),
{
    let mut i: usize = 0;
    while i < layer.algorithms.len()
        invariant
            i <= layer.algorithms@.len(),
            reference_key(*pdk, layer.algorithms@, 0) == reference_key(*pdk, layer.algorithms@, i as int),
        decreases layer.algorithms@.len() - i,
    {
        match &layer.algorithms[i] {
            FillAlgorithm::Overlap(op) => {
                if let Some(k) = pdk.position(op.ref_layer.as_str()) {
                    let l = &pdk.layers[k].1;
                    return Some((l.gds_layer, l.fill_datatype));
                }
            },
            _ => {},
        }
        i = i + 1;
    }
    None
}

/// The references of a layer.
fn collect_references(pdk: &PdkConstants, layer: &PdkLayer, placed: &Vec<PlacedLayer>) -> (out: Vec<Rect>)
    ensures
        out@ == references(*pdk, *layer, placed@),
        are_layout_rects(out@),
{
    let mut out: Vec<Rect> = Vec::new();
    let key = match find_reference_key(pdk, layer) {
        Some(key) => key,
        None => {
            return out;
        },
    };
    let ghost all = placed_on(placed@, key, placed@.len() as int);
    let mut n: usize = placed.len();
    while n > 0
        invariant
            n <= placed@.len(),
            all == placed_on(placed@, key, n as int),
            references(*pdk, *layer, placed@) == layout_rects(all, all.len() as int),
            out@.len() == 0,
        decreases n,
    {
        n = n - 1;
        if placed[n].key.0 == key.0 && placed[n].key.1 == key.1 {
            let rects = &placed[n].rects;
            assert(all == rects@);
            let mut i: usize = 0;
            assert(out@ =~= layout_rects(all, 0));
            while i < rects.len()
                invariant
                    i <= rects@.len(),
                    all == rects@,
                    out@ == layout_rects(all, i as int),
                    are_layout_rects(out@),
                decreases rects@.len() - i,
            {
                let r = rects[i];
                if r.x0 <= r.x1 && r.y0 <= r.y1 && r.check() {
                    out.push(r);
                }
                i = i + 1;
            }
            return out;
        }
    }
    assert(out@ =~= layout_rects(all, 0));
    out
}

/// The keep-outs of the polygons that have points, and those polygons.
fn box_keepouts(polys: Vec<Polygon>) -> (r: (Vec<Keepout>, Vec<Polygon>))
    requires
        shapes_in_reach(shapes_of(polys@)),
    ensures
        keepouts_of(r.0@) == boxed_keepouts(shapes_of(polys@), polys@.len() as int),
        keepouts_in_reach(keepouts_of(r.0@)),
        forall|i: int| 0 <= i < r.0@.len() ==> (#[trigger] r.0@[i]).shape is Some,
        shapes_of(r.1@) == keepout_polygons(keepouts_of(r.0@)),
        shapes_in_reach(shapes_of(r.1@)),
{
    let ghost shapes = shapes_of(polys@);
    let mut keepouts: Vec<Keepout> = Vec::new();
    let mut boxed: Vec<Polygon> = Vec::new();
    let mut i: usize = 0;
    assert(keepouts_of(keepouts@) =~= Seq::empty());
    assert(shapes_of(boxed@) =~= keepout_polygons(keepouts_of(keepouts@)));
    while i < polys.len()
        invariant
            i <= polys@.len(),
            shapes == shapes_of(polys@),
            shapes_in_reach(shapes),
            keepouts_of(keepouts@) == boxed_keepouts(shapes, i as int),
            keepouts_in_reach(keepouts_of(keepouts@)),
            forall|k: int| 0 <= k < keepouts@.len() ==> (#[trigger] keepouts@[k]).shape is Some,
            shapes_of(boxed@) == keepout_polygons(keepouts_of(keepouts@)),
            shapes_in_reach(shapes_of(boxed@)),
        decreases polys@.len() - i,
    {
        assert(shapes[i as int] == polys@[i as int]@);
        assert(shapes[i as int].in_reach());
        if let Some(bbox) = polys[i].bounding_rect() {
            let ghost before = keepouts_of(keepouts@);
            let ghost prev = shapes_of(boxed@);
            let keepout = Keepout { bbox, shape: Some(polys[i].duplicate()) };
            let ghost view = keepout@;
            keepouts.push(keepout);
            boxed.push(polys[i].duplicate());
            proof {
                assert(keepouts_of(keepouts@) =~= before.push(view));
                assert(shapes_of(boxed@) =~= prev.push(shapes[i as int]));
                assert(shapes_of(boxed@) =~= keepout_polygons(keepouts_of(keepouts@)));
            }
        }
        i = i + 1;
    }
    (keepouts, boxed)
}

/// Rectangles as polygons.
fn rects_to_polygons(rects: &Vec<Rect>) -> (out: Vec<Polygon>)
    requires
        are_layout_rects(rects@),
    ensures
        shapes_of(out@) == rect_shapes(rects@),
        shapes_in_reach(shapes_of(out@)),
{
    let mut out: Vec<Polygon> = Vec::new();
    let mut i: usize = 0;
    while i < rects.len()
        invariant
            i <= rects@.len(),
            are_layout_rects(rects@),
            out@.len() == i,
            forall|k: int|
                0 <= k < i ==> (#[trigger] out@[k])@ == (Shape { exterior: rects@[k].ring(), holes: Seq::empty() }),
        decreases rects@.len() - i,
    {
        out.push(rects[i].to_polygon());
        i = i + 1;
    }
    proof {
        assert(shapes_of(out@) =~= rect_shapes(rects@));
        assert forall|k: int| 0 <= k < shapes_of(out@).len() implies (#[trigger] shapes_of(out@)[k]).in_reach() by {
            assert(rects@[k].in_range());
        }
    }
    out
}

/// The layer has a track algorithm.
pub open spec fn has_track(layer: PdkLayer) -> bool {
    exists|i: int| 0 <= i < layer.algorithms@.len() && #[trigger] layer.algorithms@[i] is Track
}

/// Nothing with points would have to be listed for the tiles of the layer.
pub open spec fn lists_nothing(ctx: RunContext, chip: Chip, k: int, placed: Seq<PlacedLayer>) -> bool {
    let layer = ctx.pdk.layers@[k].1;
    let keepouts = process_keepouts(
        ctx.process@,
        chip.map,
        chip.area,
        ctx.pdk.layers@[k].0@,
        layer,
        ctx.pdk.db_unit_nm as int,
    )->0;
    &&& are_pointless(counted_shapes(chip.map, layer))
    &&& are_pointless(chip.map.shapes(fill_key(layer)))
    &&& are_pointless(keepouts)
    &&& references(ctx.pdk, layer, placed).len() == 0
    &&& has_track(layer) ==> are_pointless(shapes_of(chip.cores@))
}

/// Why a layer cannot be filled, if it cannot.  A chip without an area has no
/// tiles, and can be filled only if there is nothing to list for them.
pub open spec fn plan_error(ctx: RunContext, chip: Chip, k: int, placed: Seq<PlacedLayer>) -> Option<RunError> {
    let name = ctx.pdk.layers@[k].0@;
    let layer = ctx.pdk.layers@[k].1;
    let db = ctx.pdk.db_unit_nm;
    if !(sizes_usable(ctx.pdk, layer) && is_density(target_of(ctx, name, layer) as int) && is_density(
        deviation_of(ctx, name, layer) as int,
    )) {
        Some(RunError::Unusable)
    } else if !tiles_fit(chip.area, units_of(layer.tile_width_nm as int, db as int)) {
        Some(RunError::NoTiles)
    } else if process_keepouts(ctx.process@, chip.map, chip.area, name, layer, db as int) is None {
        Some(RunError::OutOfRange)
    } else if chip.area.is_flat() && !lists_nothing(ctx, chip, k, placed) {
        Some(RunError::NoTiles)
    } else {
        None
    }
}

impl<'a> LayerPlan<'a> {
    /// This is the plan of the layer at position `k`.
    pub open spec fn is_for(self, ctx: RunContext, chip: Chip, k: int, placed: Seq<PlacedLayer>) -> bool {
        let name = ctx.pdk.layers@[k].0@;
        let layer = ctx.pdk.layers@[k].1;
        let db = ctx.pdk.db_unit_nm as int;
        let keepouts = process_keepouts(ctx.process@, chip.map, chip.area, name, layer, db)->0;
        &&& *self.chip == chip
        &&& *self.layer == layer
        &&& shapes_of(self.drawing@) == counted_shapes(chip.map, layer)
        &&& shapes_of(self.filled@) == chip.map.shapes(fill_key(layer))
        &&& self.grid == Grid::spec_over(chip.area, units_of(layer.tile_width_nm as int, db) as i64)
        &&& keepouts_of(self.keepouts@) == boxed_keepouts(keepouts, keepouts.len() as int)
        &&& self.refs@ == references(ctx.pdk, layer, placed)
        &&& self.how == measure_of(layer, db)
        &&& self.only == kind_of(ctx, name)
        &&& self.target_density == target_of(ctx, name, layer)
        &&& self.deviation == deviation_of(ctx, name, layer)
        &&& self.db_unit_nm == db
        &&& self.grid_dbu == ctx.pdk.grid_dbu
        &&& self.phase == track_phase(chip)
    }

    /// Plan the fill of the layer at position `k` of the table: apply the rules
    /// of the process to the chip, and index by tile what the tiles read.
    pub fn new(ctx: &'a RunContext, chip: &'a Chip, k: usize, placed: &Vec<PlacedLayer>) -> (r: Result<
        LayerPlan<'a>,
        RunError,
    >)
        requires
            chip.valid(),
            k < ctx.pdk.layers@.len(),
        ensures
            match plan_error(*ctx, *chip, k as int, placed@) {
                Some(e) => r is Err && r->Err_0 == e,
                None => r is Ok && r->Ok_0.valid() && r->Ok_0.is_for(*ctx, *chip, k as int, placed@),
            },
    {
        let pdk = &ctx.pdk;
        let name = ctx.pdk.layers[k].0.as_str();
        let layer = &ctx.pdk.layers[k].1;
        let (db, grid_dbu) = (pdk.db_unit_nm, pdk.grid_dbu);
        let over = match &ctx.config {
            Some(c) => c.layer(name),
            None => None,
        };
        assert(over == overrides(*ctx, name@));
        let (target_density, deviation, only) = match over {
            Some(o) => (o.density, o.deviation, o.algorithm),
            None => (layer.default_density, layer.default_deviation, None),
        };
        let refs = collect_references(pdk, layer, placed);
        if !check_sizes(pdk, layer) || !check_density(target_density) || !check_density(deviation)
 {
            return Err(RunError::Unusable);
        }
        let tile_size = to_units(layer.tile_width_nm, db);
        let grid = match Grid::over(&chip.area, tile_size) {
            Some(g) => g,
            None => {
                return Err(RunError::NoTiles);
            },
        };
        let rules = match process_family(ctx.process.as_str()) {
            Some(ProcessFamily::IhpSg13) => Some(ihp_sg13::build_keepout(&chip.map, name, layer, db)),
            Some(ProcessFamily::Gf180mcu) => gf180mcu::build_keepout(&chip.map, &chip.area, name, layer, db),
            None => {
                let none: Vec<Polygon> = Vec::new();
                assert(shapes_of(none@) =~= Seq::empty());
                Some(none)
            },
        };
        let polys = match rules {
            Some(v) => v,
            None => {
                return Err(RunError::OutOfRange);
            },
        };
        let ghost shapes = shapes_of(polys@);
        let (keepouts, boxed) = box_keepouts(polys);
        let drawing = counted_polygons(&chip.map, layer);
        let filled = chip.map.polygons(layer.gds_layer, layer.fill_datatype);
        let ref_polys = rects_to_polygons(&refs);
        let how = Measure {
            merge: layer.merge_for_density,
            window: match layer.merge_window_nm {
                Some(w) => Some(to_units(w, db)),
                None => None,
            },
        };
        let phase = find_phase(chip);
        let flat = chip.area.x0 == chip.area.x1 || chip.area.y0 == chip.area.y1;
        proof {
            boxed_is_empty(shapes, shapes.len() as int);
            assert(shapes_of(boxed@).len() == boxed@.len());
            assert(chip.cores@.len() == shapes_of(chip.cores@).len());
        }
        if flat && !(check_pointless(&drawing) && check_pointless(filled) && boxed.len() == 0 && refs.len() == 0 && (
        !test_track(layer) || check_pointless(&chip.cores))) {
            return Err(RunError::NoTiles);
        }
        proof {
            if !chip.area.is_flat() {
                some_tiles(chip.area.width(), tile_size as int);
                some_tiles(chip.area.height(), tile_size as int);
            }
            all_in_reach(shapes_of(drawing@));
            all_in_reach(shapes_of(filled@));
            all_in_reach(shapes_of(chip.cores@));
        }
        let drawing_index = build_tile_index(&drawing, grid.x_min, grid.y_min, tile_size, grid.nx, grid.ny);
        let filled_index = build_tile_index(filled, grid.x_min, grid.y_min, tile_size, grid.nx, grid.ny);
        let keepout_index = build_tile_index(&boxed, grid.x_min, grid.y_min, tile_size, grid.nx, grid.ny);
        let ref_index = build_tile_index(&ref_polys, grid.x_min, grid.y_min, tile_size, grid.nx, grid.ny);
        let core_index = if flat {
            no_index(&grid, &chip.cores)
        } else {
            build_tile_index(&chip.cores, grid.x_min, grid.y_min, tile_size, grid.nx, grid.ny)
        };
        Ok(
            LayerPlan {
                chip,
                layer,
                drawing,
                filled,
                grid,
                drawing_index,
                filled_index,
                keepouts,
                keepout_index,
                refs,
                ref_index,
                core_index,
                how,
                only,
                target_density,
                deviation,
                db_unit_nm: db,
                grid_dbu,
                phase,
            },
        )
    }
}

/// Does the layer have a track algorithm?
fn test_track(layer: &PdkLayer) -> (b: bool)
    ensures
        b == has_track(*layer),
{
    let mut i: usize = 0;
    while i < layer.algorithms.len()
        invariant
            i <= layer.algorithms@.len(),
            forall|k: int| 0 <= k < i ==> !(#[trigger] layer.algorithms@[k] is Track),
        decreases layer.algorithms@.len() - i,
    {
        if let FillAlgorithm::Track(_) = &layer.algorithms[i] {
            assert(layer.algorithms@[i as int] is Track);
            return true;
        }
        i = i + 1;
    }
    false
}

/// The index over a grid without tiles.
fn no_index(grid: &Grid, polys: &Vec<Polygon>) -> (index: Vec<Vec<usize>>)
    requires
        grid.nx == 0 || grid.ny == 0,
    ensures
        grid.indexes(shapes_of(polys@), index@),
{
    assert(grid.nx * grid.ny == 0) by (nonlinear_arith)
        requires
            grid.nx == 0 || grid.ny == 0,
    ;
    Vec::new()
}

/// There are no keep-outs if no shape has points.
proof fn boxed_is_empty(shapes: Seq<Shape>, n: int)
    requires
        0 <= n <= shapes.len(),
    ensures
        boxed_keepouts(shapes, n).len() == 0 <==> forall|i: int|
            0 <= i < n ==> (#[trigger] shapes[i]).exterior.len() == 0,
    decreases n,
{
    if n > 0 {
        boxed_is_empty(shapes, n - 1);
    }
}

/// Are the sizes of the layer within their limits?
fn check_sizes(pdk: &PdkConstants, layer: &PdkLayer) -> (b: bool)
    ensures
        b == sizes_usable(*pdk, *layer),
{
    let db = pdk.db_unit_nm;
    if !(0 < db && db <= LENGTH_LIMIT && 0 < pdk.grid_dbu && pdk.grid_dbu <= LENGTH_LIMIT) {
        return false;
    }
    if !check_tile_length(layer.tile_width_nm, db) {
        return false;
    }
    if let Some(w) = layer.merge_window_nm {
        if !check_tile_length(w, db) {
            return false;
        }
    }
    let s = gf180mcu::find_square_space(layer);
    0 <= s && s <= SPACE_LIMIT
}

/// Is this a length of at least one layout unit?
pub fn check_tile_length(nm: i64, db_unit: i64) -> (b: bool)
    requires
        0 < db_unit <= LENGTH_LIMIT,
    ensures
        b == is_tile_length(nm as int, db_unit as int),
{
    0 <= nm && nm <= LENGTH_LIMIT && to_units(nm, db_unit) > 0
}

/// Is this a density within the limits?
fn check_density(d: i64) -> (b: bool)
    ensures
        b == is_density(d as int),
{
    -DENSITY_LIMIT <= d && d <= DENSITY_LIMIT
}

/// Where tracks start.
fn find_phase(chip: &Chip) -> (p: Point)
    requires
        chip.valid(),
    ensures
        p == track_phase(*chip),
        p.in_range(),
{
    let corner = Point { x: chip.area.x0, y: chip.area.y0 };
    if chip.cores.len() == 0 {
        return corner;
    }
    let ghost shape = shapes_of(chip.cores@)[0];
    assert(shape == chip.cores@[0]@);
    assert(shape.in_range());
    match chip.cores[0].bounding_rect() {
        Some(b) => {
            proof {
                bounds_in_range(shape.exterior);
            }
            Point { x: b.x0, y: b.y0 }
        },
        None => corner,
    }
}

/// Every layer of the GF180MCU tables is usable with its default density.
pub proof fn stack_layers_are_usable(ctx: RunContext, chip: Chip, placed: Seq<PlacedLayer>, n: int, k: int)
    requires
        gf180mcu::is_stack(ctx.pdk, n),
        0 < n <= 5,
        0 <= k < ctx.pdk.layers@.len(),
        overrides(ctx, ctx.pdk.layers@[k].0@) is None,
    ensures
        plan_error(ctx, chip, k, placed) != Some(RunError::Unusable),
{
    let layer = ctx.pdk.layers@[k].1;
    if k >= 2 {
        assert(gf180mcu::is_metal_layer(ctx.pdk.layers@[(k - 2) + 2].1, k - 2, n));
    }
    reveal_with_fuel(gf180mcu::square_space, 2);
    assert(units_of(100_000, 5) > 0);
    assert(units_of(50_000, 5) > 0);
}

/// The algorithms of the GF180MCU tables are usable in every tile.
pub proof fn stack_layers_can_fill(
    plan: LayerPlan,
    ctx: RunContext,
    chip: Chip,
    placed: Seq<PlacedLayer>,
    n: int,
    k: int,
    ix: int,
    iy: int,
)
    requires
        gf180mcu::is_stack(ctx.pdk, n),
        0 < n <= 5,
        0 <= k < ctx.pdk.layers@.len(),
        plan.is_for(ctx, chip, k, placed),
    ensures
        plan.can_fill(ix, iy),
{
    let algorithms = plan.layer.algorithms@;
    let site = plan.site(ix, iy);
    if k >= 2 {
        assert(gf180mcu::is_metal_layer(ctx.pdk.layers@[(k - 2) + 2].1, k - 2, n));
    }
    assert forall|i: int| 0 <= i < algorithms.len() implies #[trigger] site.can_step(
        plan.keepouts_in(ix, iy),
        algorithms,
        plan.only,
        i,
    ) by {
        assert(algorithms.len() == 1);
        assert(algorithms[0].is_usable(site.ctx, site.refs.len() > 0, site.cores.len() > 0));
    }
}

} // verus!
