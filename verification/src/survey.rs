//! The densities of one layer, tile by tile.

use crate::chip::counted_polygons;
use crate::chip::counted_shapes;
use crate::chip::fill_key;
use crate::chip::Chip;
use crate::chip::RunError;
use crate::context::RunContext;
use crate::density::draw_area2;
use crate::density::draw_area_known;
use crate::density::old_area2;
use crate::density::old_area_known;
use crate::density::tile_density;
use crate::density::Measure;
use crate::density::TileDensity;
use crate::fill::plan::check_tile_length;
use crate::fill::plan::is_tile_length;
use crate::fill::plan::measure_of;
use crate::geom::all_in_reach;
use crate::geom::shapes_in_range;
use crate::geom::shapes_of;
use crate::geom::Polygon;
use crate::geom::Rect;
use crate::pdk::to_units;
use crate::pdk::units_of;
use crate::pdk::LENGTH_LIMIT;
use crate::tiles::are_pointless;
use crate::tiles::build_tile_index;
use crate::tiles::check_pointless;
use crate::tiles::some_tiles;
use crate::tiles::tile_at;
use crate::tiles::tile_count;
use crate::tiles::tile_rect;
use crate::tiles::tiles_fit;
use crate::tiles::Grid;
use vstd::prelude::*;

verus! {

/// The shapes of a layer, indexed by tile.
#[derive(Debug)]
pub struct LayerSurvey<'a> {
    pub chip: &'a Chip,
    /// The drawn shapes whose area counts.
    pub drawing: Vec<Polygon>,
    pub filled: &'a [Polygon],
    pub grid: Grid,
    pub drawing_index: Vec<Vec<usize>>,
    pub filled_index: Vec<Vec<usize>>,
    pub how: Measure,
}

/// Why the densities of a layer cannot be taken, if they cannot.  A chip
/// without an area has no tiles, and its densities can be taken only if there
/// is nothing to list for them.
pub open spec fn survey_error(ctx: RunContext, chip: Chip, k: int) -> Option<RunError> {
    let layer = ctx.pdk.layers@[k].1;
    let db = ctx.pdk.db_unit_nm as int;
    if !(0 < db <= LENGTH_LIMIT && is_tile_length(ctx.pdk.tile_width_nm as int, db) && (
    layer.merge_window_nm matches Some(w) ==> is_tile_length(w as int, db))) {
        Some(RunError::Unusable)
    } else if !tiles_fit(chip.area, units_of(ctx.pdk.tile_width_nm as int, db)) {
        Some(RunError::NoTiles)
    } else if chip.area.is_flat() && !(are_pointless(counted_shapes(chip.map, layer)) && are_pointless(
        chip.map.shapes(fill_key(layer)),
    )) {
        Some(RunError::NoTiles)
    } else {
        None
    }
}

impl<'a> LayerSurvey<'a> {
    /// The parts belong together and are within the limits.
    pub open spec fn valid(self) -> bool {
        &&& self.chip.valid()
        &&& shapes_in_range(shapes_of(self.drawing@))
        &&& shapes_in_range(shapes_of(self.filled@))
        &&& self.grid.valid()
        &&& self.grid == Grid::spec_over(self.chip.area, self.grid.tile_size)
        &&& self.grid.nx == tile_count(self.chip.area.width(), self.grid.tile_size as int)
        &&& self.grid.ny == tile_count(self.chip.area.height(), self.grid.tile_size as int)
        &&& self.grid.indexes(shapes_of(self.drawing@), self.drawing_index@)
        &&& self.grid.indexes(shapes_of(self.filled@), self.filled_index@)
        &&& self.how.window matches Some(w) ==> w > 0
    }

    /// This is the survey of the layer at position `k`.
    pub open spec fn is_for(self, ctx: RunContext, chip: Chip, k: int) -> bool {
        let layer = ctx.pdk.layers@[k].1;
        let db = ctx.pdk.db_unit_nm as int;
        &&& *self.chip == chip
        &&& shapes_of(self.drawing@) == counted_shapes(chip.map, layer)
        &&& shapes_of(self.filled@) == chip.map.shapes(fill_key(layer))
        &&& self.grid == Grid::spec_over(chip.area, units_of(ctx.pdk.tile_width_nm as int, db) as i64)
        &&& self.how == measure_of(layer, db)
    }

    /// The tile.
    pub open spec fn tile_rect(self, ix: int, iy: int) -> Rect {
        tile_rect(self.chip.area, self.grid.tile_size as int, ix, iy)
    }

    /// The drawn shapes listed for a tile.
    pub open spec fn drawn_in(self, ix: int, iy: int) -> Seq<usize> {
        self.grid.members(shapes_of(self.drawing@), self.drawing@.len() as int, ix, iy)
    }

    /// The filled shapes listed for a tile.
    pub open spec fn filled_in(self, ix: int, iy: int) -> Seq<usize> {
        self.grid.members(shapes_of(self.filled@), self.filled@.len() as int, ix, iy)
    }

    /// The areas in a tile can be computed.
    pub open spec fn areas_known(self, ix: int, iy: int) -> bool {
        &&& draw_area_known(shapes_of(self.drawing@), self.drawn_in(ix, iy), self.tile_rect(ix, iy), self.how)
        &&& old_area_known(shapes_of(self.filled@), self.filled_in(ix, iy), self.tile_rect(ix, iy))
    }

    /// Prepare the densities of the layer at position `k` of the table, in
    /// tiles of the width of the process.
    pub fn new(ctx: &'a RunContext, chip: &'a Chip, k: usize) -> (r: Result<LayerSurvey<'a>, RunError>)
        requires
            chip.valid(),
            k < ctx.pdk.layers@.len(),
        ensures
            match survey_error(*ctx, *chip, k as int) {
                Some(e) => r is Err && r->Err_0 == e,
                None => r is Ok && r->Ok_0.valid() && r->Ok_0.is_for(*ctx, *chip, k as int),
            },
    {
        let pdk = &ctx.pdk;
        let layer = &ctx.pdk.layers[k].1;
        let db = pdk.db_unit_nm;
        if !(0 < db && db <= LENGTH_LIMIT) || !check_tile_length(pdk.tile_width_nm, db) {
            return Err(RunError::Unusable);
        }
        let window = match layer.merge_window_nm {
            Some(w) => {
                if !check_tile_length(w, db) {
                    return Err(RunError::Unusable);
                }
                Some(to_units(w, db))
            },
            None => None,
        };
        let tile_size = to_units(pdk.tile_width_nm, db);
        let grid = match Grid::over(&chip.area, tile_size) {
            Some(g) => g,
            None => {
                return Err(RunError::NoTiles);
            },
        };
        let drawing = counted_polygons(&chip.map, layer);
        let filled = chip.map.polygons(layer.gds_layer, layer.fill_datatype);
        let flat = chip.area.x0 == chip.area.x1 || chip.area.y0 == chip.area.y1;
        if flat && !(check_pointless(&drawing) && check_pointless(filled)) {
            return Err(RunError::NoTiles);
        }
        proof {
            if !flat {
                some_tiles(chip.area.width(), tile_size as int);
                some_tiles(chip.area.height(), tile_size as int);
            }
            all_in_reach(shapes_of(drawing@));
            all_in_reach(shapes_of(filled@));
        }
        let drawing_index = build_tile_index(&drawing, grid.x_min, grid.y_min, tile_size, grid.nx, grid.ny);
        let filled_index = build_tile_index(filled, grid.x_min, grid.y_min, tile_size, grid.nx, grid.ny);
        let how = Measure { merge: layer.merge_for_density, window };
        Ok(LayerSurvey { chip, drawing, filled, grid, drawing_index, filled_index, how })
    }

    /// The density of a tile, `None` if its areas cannot be computed.
    pub fn tile(&self, ix: usize, iy: usize) -> (r: Option<TileDensity>)
        requires
            self.valid(),
            ix < self.grid.nx,
            iy < self.grid.ny,
        ensures
            r is Some <==> self.areas_known(ix as int, iy as int),
            r matches Some(d) ==> {
                let (x, y) = (ix as int, iy as int);
                &&& d.draw_area == draw_area2(shapes_of(self.drawing@), self.drawn_in(x, y), self.tile_rect(x, y), self.how)
                &&& d.fill_area == old_area2(shapes_of(self.filled@), self.filled_in(x, y), self.tile_rect(x, y))
                &&& d.tile_area == 2 * self.tile_rect(x, y).spec_area()
                &&& d.valid()
            },
    {
        let tile = tile_at(&self.chip.area, self.grid.tile_size, ix, iy);
        let drawn = self.grid.listed(&self.drawing_index, &self.drawing, ix, iy);
        let filled = self.grid.listed(&self.filled_index, self.filled, ix, iy);
        tile_density(&self.drawing, drawn, self.filled, filled, &tile, &self.how)
    }
}

} // verus!
