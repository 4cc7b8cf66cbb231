//! Dummy metal fill for GDSII layouts: layer tables, keep-outs, tile density
//! and fill placement, on integer coordinates.

pub mod additive;
pub mod area;
pub mod bands;
pub mod boundary;
pub mod chip;
pub mod config;
pub mod contain;
pub mod context;
pub mod contours;
pub mod coverage;
pub mod dedup;
pub mod density;
pub mod erase;
pub mod fill;
pub mod flatten;
pub mod gds;
pub mod geom;
pub mod ground;
pub mod hierarchy;
pub mod layer_map;
pub mod layout;
pub mod morph;
pub mod names;
pub mod num;
pub mod offset;
pub mod order;
pub mod overlay;
pub mod path;
pub mod pdk;
pub mod placement;
pub mod strokes;
pub mod survey;
pub mod tiles;
pub mod touch;
pub mod transform;
pub mod windows;

pub use area::clipped_area;
pub use area::tiled_merge_area;
pub use area::union_area;
pub use contain::remove_contained_polygons;
pub use context::get_target_layers;
pub use context::is_gzip;
pub use context::validate_process;
pub use context::RunContext;
pub use context::DEBUG_KEEPOUT_DT;
pub use context::DEBUG_MERGED_DT;
pub use coverage::covered_x_length;
pub use coverage::rect_union_area;
pub use gds::read_gds;
pub use layer_map::LayerMap;
pub use layout::is_fill_element;
pub use offset::offset_polygon;
pub use offset::offset_polygons;
pub use overlay::merge_polygons;
pub use tiles::build_tile_index;
