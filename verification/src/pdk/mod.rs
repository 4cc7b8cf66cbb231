//! Process descriptions: layer tables and fill parameters.
//!
//! Lengths are integer nanometres, densities integer millionths of a percent.

use crate::names::copy_name;
use crate::names::same_name;
use vstd::prelude::*;

pub mod gf180mcu;
pub mod ihp_sg13;
pub mod keepout;
pub mod tables;

verus! {

/// Largest length in nanometres, about one metre.
pub const LENGTH_LIMIT: i64 = 0x4000_0000;

/// One hundred percent, in millionths of a percent.
pub const FULL: i64 = 100_000_000;

/// One, as a fraction of a track-fill pass.
pub const FRACTION_ONE: i64 = 1000;

/// Layout units in a length: `nm` nanometres at `db_unit` nanometres per
/// database unit, rounded to the nearest unit.
pub open spec fn units_of(nm: int, db_unit: int) -> int {
    (4 * nm + db_unit) / (2 * db_unit)
}

/// `nm` is a length.
pub open spec fn is_length(nm: int) -> bool {
    0 <= nm <= LENGTH_LIMIT
}

/// Lengths are at most twice as many units as nanometres.
pub proof fn units_bounds(nm: int, db_unit: int)
    requires
        0 <= nm,
        1 <= db_unit,
    ensures
        0 <= units_of(nm, db_unit) <= 2 * nm + 1,
{
    assert(0 <= (4 * nm + db_unit) / (2 * db_unit) <= 2 * nm + 1) by (nonlinear_arith)
        requires
            0 <= nm,
            1 <= db_unit,
    ;
}

/// Convert a length to layout units.
pub fn to_units(nm: i64, db_unit: i64) -> (u: i64)
    requires
        is_length(nm as int),
        is_length(db_unit as int),
        db_unit > 0,
    ensures
        u == units_of(nm as int, db_unit as int),
        0 <= u <= 0x8000_0001,
{
    proof {
        units_bounds(nm as int, db_unit as int);
    }
    (4 * nm + db_unit) / (2 * db_unit)
}

/// Layout units in an offset, which may be negative.
pub open spec fn offset_units_of(nm: int, db_unit: int) -> int {
    if nm < 0 {
        -units_of(-nm, db_unit)
    } else {
        units_of(nm, db_unit)
    }
}

/// Convert an offset to layout units.
pub fn offset_to_units(nm: i64, db_unit: i64) -> (u: i64)
    requires
        -LENGTH_LIMIT <= nm <= LENGTH_LIMIT,
        is_length(db_unit as int),
        db_unit > 0,
    ensures
        u == offset_units_of(nm as int, db_unit as int),
        -0x8000_0001 <= u <= 0x8000_0001,
{
    if nm < 0 {
        -to_units(-nm, db_unit)
    } else {
        to_units(nm, db_unit)
    }
}

/// Parameters of the square (checkerboard) fill.
#[derive(Clone, Copy, Debug)]
pub struct SquareParams {
    pub min_width: i64,
    pub max_width: i64,
    pub min_space: i64,
    pub max_space: i64,
    /// Whether squares may be clipped at tile edges.
    pub clipping: bool,
    /// Lattice origin as an offset from the chip corner.  Distinct offsets keep
    /// consecutive layers from repeating the pattern.
    pub origin_nm: (i64, i64),
}

/// Orientation of fill tracks.
#[derive(Clone, Copy, Debug, PartialEq, Eq, Structural)]
pub enum TrackOrientation {
    Horizontal,
    Vertical,
}

/// Parameters of the track fill: parallel stripes on the routing tracks.
#[derive(Debug)]
pub struct TrackParams {
    pub min_width: i64,
    pub max_width: i64,
    pub min_space: i64,
    pub max_space: i64,
    pub orientation: TrackOrientation,
    /// Routing track pitch that stripes snap to.
    pub gaps: i64,
    /// Standard-cell row height.
    pub cell_height: i64,
    /// Fill up to the tile edge even where `max_space` is exceeded.
    pub aggressive_fill: bool,
    /// Sizes across the tracks, as fractions (of [`FRACTION_ONE`]) of the number
    /// of tracks in `max_width`.  `min_width` is always tried last.
    pub pass_fracs: Vec<i64>,
    /// Sizes along the tracks, tried in order.
    pub free_heights_nm: Vec<i64>,
}

/// Parameters of the overlap fill, which covers the fill of another layer.
#[derive(Debug)]
pub struct OverlapParams {
    pub min_width: i64,
    pub max_width: i64,
    /// How far the fill reaches past the reference rectangle.
    pub min_extension: i64,
    pub min_space: i64,
    /// Layer whose placed fill is the reference.
    pub ref_layer: String,
    /// `true`: the reference rectangle grown by `min_extension` on all four
    /// sides.  `false`: a stripe wider than the reference but lower, with its
    /// height chosen from the density budget.
    pub cover: bool,
}

/// Fill strategy of a layer.  Strategies apply in order, each on the space that
/// the previous ones left.
#[derive(Debug)]
pub enum FillAlgorithm {
    Square(SquareParams),
    Track(TrackParams),
    Overlap(OverlapParams),
}

/// A fillable layer.
#[derive(Debug)]
pub struct PdkLayer {
    /// GDS layer number.
    pub gds_layer: i16,
    /// Datatype of drawn shapes.
    pub drawing_datatype: i16,
    /// Datatype of generated fill.
    pub fill_datatype: i16,
    /// Datatype of no-fill markers on the same layer, if any.
    pub nofill_datatype: Option<i16>,
    /// Depth of the cell hierarchy that drawn shapes are expected in.
    pub max_depth: u32,
    /// Fill strategies, in order.
    pub algorithms: Vec<FillAlgorithm>,
    /// Default target density.
    pub default_density: i64,
    /// Default deviation accepted from the target.
    pub default_deviation: i64,
    /// Tile width during fill.
    pub tile_width_nm: i64,
    /// Merge drawn shapes before their density is taken.
    pub merge_for_density: bool,
    /// Window size of the merge; `None` merges the tile as a whole.
    pub merge_window_nm: Option<i64>,
}

/// Process-wide constants.
#[derive(Debug)]
pub struct PdkConstants {
    /// Fillable layers by name.
    pub layers: Vec<(String, PdkLayer)>,
    /// Nanometres per database unit.
    pub db_unit_nm: i64,
    /// Default tile width.
    pub tile_width_nm: i64,
    /// Layer and datatype of the region that fill may be placed in.
    pub fill_boundary_layer: Option<(i16, i16)>,
    /// Layer and datatype whose filled exterior is the reference area of
    /// densities.
    pub density_boundary_layer: Option<(i16, i16)>,
    /// Manufacturing grid in database units.
    pub grid_dbu: i64,
}

impl SquareParams {
    /// The parameters are usable: lengths, with ordered bounds and a positive
    /// width.
    pub open spec fn usable(self) -> bool {
        &&& 0 < self.min_width <= self.max_width <= LENGTH_LIMIT
        &&& 0 <= self.min_space <= self.max_space <= LENGTH_LIMIT
        &&& -LENGTH_LIMIT <= self.origin_nm.0 <= LENGTH_LIMIT
        &&& -LENGTH_LIMIT <= self.origin_nm.1 <= LENGTH_LIMIT
    }
}

/// Largest fraction of a track-fill pass.
pub const FRACTION_LIMIT: i64 = 0x10_0000;

impl TrackParams {
    /// There is a width and a height to fill with and a pitch of tracks to fill
    /// on.
    pub open spec fn has_tracks(self) -> bool {
        0 < self.min_width && 0 < self.gaps && self.free_heights_nm@.len() > 0
    }

    /// The parameters are usable: lengths, with a positive width and pitch and
    /// bounded fractions.
    pub open spec fn usable(self) -> bool {
        &&& 0 < self.min_width <= LENGTH_LIMIT
        &&& 0 <= self.max_width <= LENGTH_LIMIT
        &&& is_length(self.min_space as int)
        &&& 0 < self.gaps <= LENGTH_LIMIT
        &&& forall|i: int|
            0 <= i < self.pass_fracs@.len() ==> -FRACTION_LIMIT <= #[trigger] self.pass_fracs@[i] <= FRACTION_LIMIT
        &&& forall|i: int|
            0 <= i < self.free_heights_nm@.len() ==> is_length(#[trigger] self.free_heights_nm@[i] as int)
    }
}

impl OverlapParams {
    /// The parameters are usable: lengths, with ordered bounds and a positive
    /// width.
    pub open spec fn usable(self) -> bool {
        &&& 0 < self.min_width <= self.max_width <= LENGTH_LIMIT
        &&& is_length(self.min_extension as int)
        &&& is_length(self.min_space as int)
    }
}

/// What is wrong with a layer.
#[derive(Clone, Copy, Debug, PartialEq, Eq, Structural)]
pub enum LayerFault {
    /// The tile width is not positive.
    TileWidth(i64),
    /// The merge window is not positive.
    MergeWindow(i64),
    /// The layer has no fill algorithm.
    NoAlgorithm,
    /// The track pitch is not positive.
    TrackPitch(i64),
    /// The cell height is not positive.
    CellHeight(i64),
    /// The minimum fill width is not positive.
    MinWidth(i64),
    /// The maximum fill width is below the minimum.
    MaxWidth {
        max: i64,
        min: i64,
    },
}

/// What is wrong with a process description.
#[derive(Clone, Copy, Debug, PartialEq, Eq, Structural)]
pub enum PdkFault {
    /// The database unit is not positive.
    DatabaseUnit(i64),
    /// The tile width is not positive.
    TileWidth(i64),
    /// The manufacturing grid is not positive.
    Grid(i64),
    /// The layer at this position of the table is at fault.
    Layer(usize, LayerFault),
}

/// A process description that cannot be used.
#[derive(Debug)]
pub struct PdkError {
    pub process: String,
    pub fault: PdkFault,
}

impl FillAlgorithm {
    /// The fault of these parameters, if there is one.
    pub open spec fn fault(self) -> Option<LayerFault> {
        let (min, max) = match self {
            FillAlgorithm::Square(p) => (p.min_width, p.max_width),
            FillAlgorithm::Track(p) => (p.min_width, p.max_width),
            FillAlgorithm::Overlap(p) => (p.min_width, p.max_width),
        };
        if self is Track && self->Track_0.gaps <= 0 {
            Some(LayerFault::TrackPitch(self->Track_0.gaps))
        } else if self is Track && self->Track_0.cell_height <= 0 {
            Some(LayerFault::CellHeight(self->Track_0.cell_height))
        } else if min <= 0 {
            Some(LayerFault::MinWidth(min))
        } else if max < min {
            Some(LayerFault::MaxWidth { max, min })
        } else {
            None
        }
    }

    /// Check the parameters.
    fn check(&self) -> (f: Option<LayerFault>)
        ensures
            f == self.fault(),
    {
        let (min, max) = match self {
            FillAlgorithm::Square(p) => (p.min_width, p.max_width),
            FillAlgorithm::Overlap(p) => (p.min_width, p.max_width),
            FillAlgorithm::Track(p) => {
                if p.gaps <= 0 {
                    return Some(LayerFault::TrackPitch(p.gaps));
                }
                if p.cell_height <= 0 {
                    return Some(LayerFault::CellHeight(p.cell_height));
                }
                (p.min_width, p.max_width)
            },
        };
        if min <= 0 {
            return Some(LayerFault::MinWidth(min));
        }
        if max < min {
            return Some(LayerFault::MaxWidth { max, min });
        }
        None
    }
}

/// The first fault among the algorithms from position `i` on.
pub open spec fn first_algorithm_fault(algorithms: Seq<FillAlgorithm>, i: int) -> Option<LayerFault>
    decreases algorithms.len() - i,
{
    if i < 0 || i >= algorithms.len() {
        None
    } else if algorithms[i].fault() is Some {
        algorithms[i].fault()
    } else {
        first_algorithm_fault(algorithms, i + 1)
    }
}

impl PdkLayer {
    /// The first fault of the layer, if there is one.
    pub open spec fn fault(self) -> Option<LayerFault> {
        if self.tile_width_nm <= 0 {
            Some(LayerFault::TileWidth(self.tile_width_nm))
        } else if self.merge_window_nm is Some && self.merge_window_nm->0 <= 0 {
            Some(LayerFault::MergeWindow(self.merge_window_nm->0))
        } else if self.algorithms@.len() == 0 {
            Some(LayerFault::NoAlgorithm)
        } else {
            first_algorithm_fault(self.algorithms@, 0)
        }
    }

    /// Check the layer.
    fn check(&self) -> (f: Option<LayerFault>)
        ensures
            f == self.fault(),
    {
        if self.tile_width_nm <= 0 {
            return Some(LayerFault::TileWidth(self.tile_width_nm));
        }
        if let Some(w) = self.merge_window_nm {
            if w <= 0 {
                return Some(LayerFault::MergeWindow(w));
            }
        }
        if self.algorithms.len() == 0 {
            return Some(LayerFault::NoAlgorithm);
        }
        let mut i: usize = 0;
        while i < self.algorithms.len()
            invariant
                i <= self.algorithms@.len(),
                self.fault() == first_algorithm_fault(self.algorithms@, i as int),
            decreases self.algorithms@.len() - i,
        {
            let f = self.algorithms[i].check();
            if f.is_some() {
                return f;
            }
            i = i + 1;
        }
        None
    }
}

/// The first fault among the layers from position `i` on.
pub open spec fn first_layer_fault(layers: Seq<(String, PdkLayer)>, i: int) -> Option<PdkFault>
    decreases layers.len() - i,
{
    if i < 0 || i >= layers.len() {
        None
    } else if layers[i].1.fault() is Some {
        Some(PdkFault::Layer(i as usize, layers[i].1.fault()->0))
    } else {
        first_layer_fault(layers, i + 1)
    }
}

/// The position of the first layer with the given name from position `i` on.
pub open spec fn find_layer(layers: Seq<(String, PdkLayer)>, name: Seq<char>, i: int) -> Option<int>
    decreases layers.len() - i,
{
    if i < 0 || i >= layers.len() {
        None
    } else if layers[i].0@ == name {
        Some(i)
    } else {
        find_layer(layers, name, i + 1)
    }
}

/// `find_layer` finds a layer of that name exactly if there is one.
pub proof fn find_layer_finds(layers: Seq<(String, PdkLayer)>, name: Seq<char>, i: int)
    requires
        0 <= i <= layers.len(),
    ensures
        find_layer(layers, name, i) matches Some(k) ==> i <= k < layers.len() && layers[k].0@ == name,
        find_layer(layers, name, i) is None ==> forall|k: int|
            i <= k < layers.len() ==> (#[trigger] layers[k]).0@ != name,
    decreases layers.len() - i,
{
    if i < layers.len() {
        find_layer_finds(layers, name, i + 1);
    }
}

impl PdkConstants {
    /// Layer names occur once.
    pub open spec fn names_distinct(self) -> bool {
        forall|i: int, j: int|
            0 <= i < j < self.layers@.len() ==> (#[trigger] self.layers@[i]).0@ != (#[trigger] self.layers@[j]).0@
    }

    /// The first fault of the description, if there is one.
    pub open spec fn fault(self) -> Option<PdkFault> {
        if self.db_unit_nm <= 0 {
            Some(PdkFault::DatabaseUnit(self.db_unit_nm))
        } else if self.tile_width_nm <= 0 {
            Some(PdkFault::TileWidth(self.tile_width_nm))
        } else if self.grid_dbu <= 0 {
            Some(PdkFault::Grid(self.grid_dbu))
        } else {
            first_layer_fault(self.layers@, 0)
        }
    }

    /// Check the layer table for values that would produce nonsensical
    /// geometry: widths, pitches and grids that are not positive, a maximum
    /// width below the minimum, a layer without algorithm.
    pub fn validate(&self, process: &str) -> (r: Result<(), PdkError>)
        ensures
            r is Ok <==> self.fault() is None,
            r matches Err(e) ==> self.fault() == Some(e.fault) && e.process@ == process@,
    {
        match self.find_fault() {
            Some(fault) => Err(PdkError { process: copy_name(process), fault }),
            None => Ok(()),
        }
    }

    /// The first fault of the description.
    fn find_fault(&self) -> (f: Option<PdkFault>)
        ensures
            f == self.fault(),
    {
        if self.db_unit_nm <= 0 {
            return Some(PdkFault::DatabaseUnit(self.db_unit_nm));
        }
        if self.tile_width_nm <= 0 {
            return Some(PdkFault::TileWidth(self.tile_width_nm));
        }
        if self.grid_dbu <= 0 {
            return Some(PdkFault::Grid(self.grid_dbu));
        }
        let mut i: usize = 0;
        while i < self.layers.len()
            invariant
                i <= self.layers@.len(),
                self.fault() == first_layer_fault(self.layers@, i as int),
            decreases self.layers@.len() - i,
        {
            if let Some(f) = self.layers[i].1.check() {
                return Some(PdkFault::Layer(i, f));
            }
            i = i + 1;
        }
        None
    }

    /// The default tile width in layout units.
    pub fn tile_width_units(&self) -> (u: i64)
        requires
            is_length(self.tile_width_nm as int),
            is_length(self.db_unit_nm as int),
            self.db_unit_nm > 0,
        ensures
            u == units_of(self.tile_width_nm as int, self.db_unit_nm as int),
    {
        to_units(self.tile_width_nm, self.db_unit_nm)
    }

    /// The default tile width in whole database units, rounded down.
    pub fn tile_width_dbu(&self) -> (w: i64)
        requires
            self.db_unit_nm > 0,
        ensures
            w == self.tile_width_nm as int / self.db_unit_nm as int,
    {
        if self.tile_width_nm >= 0 {
            self.tile_width_nm / self.db_unit_nm
        } else {
            crate::num::floor_div(self.tile_width_nm, self.db_unit_nm)
        }
    }

    /// The position of the layer with the given name.
    pub fn position(&self, name: &str) -> (p: Option<usize>)
        ensures
            p is Some <==> find_layer(self.layers@, name@, 0) is Some,
            p matches Some(k) ==> find_layer(self.layers@, name@, 0) == Some(k as int) && k < self.layers@.len()
                && self.layers@[k as int].0@ == name@,
    {
        let mut i: usize = 0;
        while i < self.layers.len()
            invariant
                i <= self.layers@.len(),
                find_layer(self.layers@, name@, 0) == find_layer(self.layers@, name@, i as int),
            decreases self.layers@.len() - i,
        {
            if same_name(self.layers[i].0.as_str(), name) {
                return Some(i);
            }
            i = i + 1;
        }
        None
    }
}

} // verus!
