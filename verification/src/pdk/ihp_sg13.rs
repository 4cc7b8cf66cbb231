//! Keep-outs of the IHP SG13 process family.

use crate::geom::abs_of;
use crate::geom::bounds;
use crate::geom::bounds_in_range;
use crate::geom::max_i64;
use crate::geom::max_of;
use crate::geom::min_i64;
use crate::geom::min_of;
use crate::geom::shapes_in_range;
use crate::geom::shapes_in_reach;
use crate::geom::shapes_of;
use crate::geom::Polygon;
use crate::geom::Rect;
use crate::geom::Shape;
use crate::layer_map::LayerMap;
use crate::names::same_name;
use crate::pdk::is_length;
use crate::pdk::keepout::apply_rules;
use crate::pdk::keepout::ruled_shapes;
use crate::pdk::keepout::rules_valid;
use crate::pdk::keepout::SpaceRule;
use crate::pdk::PdkLayer;
use vstd::prelude::*;

verus! {

/// Space of Activ fill from Activ, in nanometres, as are all spaces here.
pub const ACTIV_SPACE: i64 = 420;

/// Space of metal fill from metal.
pub const METAL_SPACE: i64 = 420;

/// Space of top metal fill from top metal.
pub const TOPMETAL_SPACE: i64 = 3000;

/// Space of GatPoly fill from Activ, GatPoly, Cont, pSD, nSD:block, SalBlock,
/// NWell, nBuLay and Trans.
pub const GATPOLY_FILL_SPACE: i64 = 1100;

pub const ACTIV_GATPOLY_SPACE: i64 = 1100;

pub const ACTIV_CONT_SPACE: i64 = 1100;

pub const ACTIV_NWELL_SPACE: i64 = 1000;

pub const ACTIV_NBULAY_SPACE: i64 = 1000;

pub const ACTIV_PWBLK_SPACE: i64 = 1500;

pub const TRANS_ACTIV_SPACE: i64 = 1000;

pub const TRANS_METAL_SPACE: i64 = 1000;

pub const TRANS_TOPMETAL_SPACE: i64 = 4900;

/// Height of a standard-cell row.
pub const CELL_HEIGHT: i64 = 3780;

pub const ACTIV: (i16, i16) = (1, 0);

pub const GATPOLY: (i16, i16) = (5, 0);

pub const CONT: (i16, i16) = (6, 0);

pub const NSD_BLK: (i16, i16) = (7, 21);

pub const PSD: (i16, i16) = (14, 0);

pub const TRANS: (i16, i16) = (26, 0);

pub const SALBLOCK: (i16, i16) = (28, 0);

pub const NWELL: (i16, i16) = (31, 0);

pub const NBULAY: (i16, i16) = (32, 0);

pub const PWBLK: (i16, i16) = (46, 21);

/// prBoundary shapes of the standard cells.
pub const CORE: (i16, i16) = (189, 4);

/// The layers and datatypes that the keep-out rules read.
pub open spec fn needed() -> Seq<(i16, i16)> {
    seq![ACTIV, GATPOLY, CONT, NSD_BLK, PSD, SALBLOCK, NWELL, NBULAY, PWBLK, TRANS, CORE]
}

/// The layers and datatypes that the keep-out rules read, besides those of the
/// filled layer.  They have to be in the [`LayerMap`] before
/// [`build_keepout`] is called.
pub fn needed_layers() -> (v: Vec<(i16, i16)>)
    ensures
        v@ == needed(),
{
    let v = vec![ACTIV, GATPOLY, CONT, NSD_BLK, PSD, SALBLOCK, NWELL, NBULAY, PWBLK, TRANS, CORE];
    assert(v@ =~= needed());
    v
}

/// The family of keep-out rules of a layer.
#[derive(Clone, Copy, Debug, PartialEq, Eq, Structural)]
pub enum Family {
    Activ,
    GatPoly,
    Metal,
    TopMetal,
}

/// The rule family of a layer name.
pub open spec fn family_of(name: Seq<char>) -> Option<Family> {
    if name == "Activ"@ {
        Some(Family::Activ)
    } else if name == "GatPoly"@ {
        Some(Family::GatPoly)
    } else if name == "Metal1"@ || name == "Metal2"@ || name == "Metal3"@ || name == "Metal4"@ || name == "Metal5"@ {
        Some(Family::Metal)
    } else if name == "TopMetal1"@ || name == "TopMetal2"@ {
        Some(Family::TopMetal)
    } else {
        None
    }
}

/// The rule family of a layer name, `None` if there is no rule for it.
pub fn find_family(name: &str) -> (f: Option<Family>)
    ensures
        f == family_of(name@),
{
    if same_name(name, "Activ") {
        Some(Family::Activ)
    } else if same_name(name, "GatPoly") {
        Some(Family::GatPoly)
    } else if same_name(name, "Metal1") || same_name(name, "Metal2") || same_name(name, "Metal3") || same_name(
        name,
        "Metal4",
    ) || same_name(name, "Metal5") {
        Some(Family::Metal)
    } else if same_name(name, "TopMetal1") || same_name(name, "TopMetal2") {
        Some(Family::TopMetal)
    } else {
        None
    }
}

/// Keep `space` from the drawn and filled shapes of the layer itself, and off
/// its no-fill markers.
pub open spec fn base_rules(layer: PdkLayer, space: i64) -> Seq<SpaceRule> {
    let own = seq![
        SpaceRule { key: (layer.gds_layer, layer.drawing_datatype), space },
        SpaceRule { key: (layer.gds_layer, layer.fill_datatype), space },
    ];
    match layer.nofill_datatype {
        Some(d) => own.push(SpaceRule { key: (layer.gds_layer, d), space: 0 }),
        None => own,
    }
}

/// The rules of a family for a layer.
pub open spec fn family_rules(family: Family, layer: PdkLayer) -> Seq<SpaceRule> {
    match family {
        Family::Activ => base_rules(layer, ACTIV_SPACE) + seq![
            SpaceRule { key: TRANS, space: TRANS_ACTIV_SPACE },
            SpaceRule { key: GATPOLY, space: ACTIV_GATPOLY_SPACE },
            SpaceRule { key: CONT, space: ACTIV_CONT_SPACE },
            SpaceRule { key: NWELL, space: ACTIV_NWELL_SPACE },
            SpaceRule { key: NBULAY, space: ACTIV_NBULAY_SPACE },
            SpaceRule { key: PWBLK, space: ACTIV_PWBLK_SPACE },
        ],
        Family::GatPoly => base_rules(layer, GATPOLY_FILL_SPACE) + seq![
            SpaceRule { key: ACTIV, space: GATPOLY_FILL_SPACE },
            SpaceRule { key: CONT, space: GATPOLY_FILL_SPACE },
            SpaceRule { key: PSD, space: GATPOLY_FILL_SPACE },
            SpaceRule { key: NSD_BLK, space: GATPOLY_FILL_SPACE },
            SpaceRule { key: SALBLOCK, space: GATPOLY_FILL_SPACE },
            SpaceRule { key: NWELL, space: GATPOLY_FILL_SPACE },
            SpaceRule { key: NBULAY, space: GATPOLY_FILL_SPACE },
            SpaceRule { key: TRANS, space: GATPOLY_FILL_SPACE },
        ],
        Family::Metal => base_rules(layer, METAL_SPACE) + seq![SpaceRule { key: TRANS, space: TRANS_METAL_SPACE }],
        Family::TopMetal => base_rules(layer, TOPMETAL_SPACE) + seq![
            SpaceRule { key: TRANS, space: TRANS_TOPMETAL_SPACE },
        ],
    }
}

/// The rules of the layer itself.
fn list_base_rules(layer: &PdkLayer, space: i64) -> (v: Vec<SpaceRule>)
    ensures
        v@ == base_rules(*layer, space),
{
    let mut v: Vec<SpaceRule> = Vec::new();
    v.push(SpaceRule { key: (layer.gds_layer, layer.drawing_datatype), space });
    v.push(SpaceRule { key: (layer.gds_layer, layer.fill_datatype), space });
    if let Some(d) = layer.nofill_datatype {
        v.push(SpaceRule { key: (layer.gds_layer, d), space: 0 });
    }
    assert(v@ =~= base_rules(*layer, space));
    v
}

/// All rules of a family keep a space within the limits.
pub proof fn family_rules_are_valid(family: Family, layer: PdkLayer)
    ensures
        rules_valid(family_rules(family, layer)),
{
}

/// The rules of a family for a layer.
fn list_rules(family: Family, layer: &PdkLayer) -> (v: Vec<SpaceRule>)
    ensures
        v@ == family_rules(family, *layer),
        rules_valid(v@),
{
    let v = match family {
        Family::Activ => {
            let mut v = list_base_rules(layer, ACTIV_SPACE);
            v.push(SpaceRule { key: TRANS, space: TRANS_ACTIV_SPACE });
            v.push(SpaceRule { key: GATPOLY, space: ACTIV_GATPOLY_SPACE });
            v.push(SpaceRule { key: CONT, space: ACTIV_CONT_SPACE });
            v.push(SpaceRule { key: NWELL, space: ACTIV_NWELL_SPACE });
            v.push(SpaceRule { key: NBULAY, space: ACTIV_NBULAY_SPACE });
            v.push(SpaceRule { key: PWBLK, space: ACTIV_PWBLK_SPACE });
            v
        },
        Family::GatPoly => {
            let mut v = list_base_rules(layer, GATPOLY_FILL_SPACE);
            v.push(SpaceRule { key: ACTIV, space: GATPOLY_FILL_SPACE });
            v.push(SpaceRule { key: CONT, space: GATPOLY_FILL_SPACE });
            v.push(SpaceRule { key: PSD, space: GATPOLY_FILL_SPACE });
            v.push(SpaceRule { key: NSD_BLK, space: GATPOLY_FILL_SPACE });
            v.push(SpaceRule { key: SALBLOCK, space: GATPOLY_FILL_SPACE });
            v.push(SpaceRule { key: NWELL, space: GATPOLY_FILL_SPACE });
            v.push(SpaceRule { key: NBULAY, space: GATPOLY_FILL_SPACE });
            v.push(SpaceRule { key: TRANS, space: GATPOLY_FILL_SPACE });
            v
        },
        Family::Metal => {
            let mut v = list_base_rules(layer, METAL_SPACE);
            v.push(SpaceRule { key: TRANS, space: TRANS_METAL_SPACE });
            v
        },
        Family::TopMetal => {
            let mut v = list_base_rules(layer, TOPMETAL_SPACE);
            v.push(SpaceRule { key: TRANS, space: TRANS_TOPMETAL_SPACE });
            v
        },
    };
    assert(v@ =~= family_rules(family, *layer));
    v
}

/// The keep-out shapes of a layer: none for a layer without rules.
pub open spec fn keepout_shapes(map: LayerMap, name: Seq<char>, layer: PdkLayer, db_unit: int) -> Seq<Shape> {
    match family_of(name) {
        Some(f) => ruled_shapes(map, family_rules(f, layer), db_unit, family_rules(f, layer).len() as int),
        None => Seq::empty(),
    }
}

/// Build the keep-out polygons of a layer.
pub fn build_keepout(map: &LayerMap, layer_name: &str, layer: &PdkLayer, db_unit: i64) -> (out: Vec<Polygon>)
    requires
        map.valid(),
        is_length(db_unit as int),
        db_unit > 0,
    ensures
        shapes_of(out@) == keepout_shapes(*map, layer_name@, *layer, db_unit as int),
        shapes_in_reach(shapes_of(out@)),
{
    let mut out: Vec<Polygon> = Vec::new();
    assert(shapes_of(out@) =~= Seq::empty());
    if let Some(family) = find_family(layer_name) {
        let rules = list_rules(family, layer);
        apply_rules(map, &rules, db_unit, &mut out);
        assert(shapes_of(out@) =~= keepout_shapes(*map, layer_name@, *layer, db_unit as int));
    }
    out
}

/// A box as high as a standard-cell row, to two percent.
pub open spec fn is_row(b: Rect, db_unit: int) -> bool {
    // the height times the database unit is in half nanometres
    50 * abs_of(b.height() * db_unit - 2 * CELL_HEIGHT) < 2 * CELL_HEIGHT
}

/// The smallest rectangle around the rows among the first `n` shapes.
pub open spec fn row_hull(shapes: Seq<Shape>, db_unit: int, n: int) -> Option<Rect>
    decreases n,
{
    if n <= 0 {
        None
    } else {
        let before = row_hull(shapes, db_unit, n - 1);
        let b = bounds(shapes[n - 1].exterior);
        if shapes[n - 1].exterior.len() == 0 || !is_row(b, db_unit) {
            before
        } else {
            match before {
                None => Some(b),
                Some(h) => Some(
                    Rect {
                        x0: min_of(h.x0 as int, b.x0 as int) as i64,
                        y0: min_of(h.y0 as int, b.y0 as int) as i64,
                        x1: max_of(h.x1 as int, b.x1 as int) as i64,
                        y1: max_of(h.y1 as int, b.y1 as int) as i64,
                    },
                ),
            }
        }
    }
}

/// The digital core: the rectangle around all rows, if it has an area.
pub open spec fn core_rect(shapes: Seq<Shape>, db_unit: int) -> Option<Rect> {
    match row_hull(shapes, db_unit, shapes.len() as int) {
        Some(h) => if h.x0 < h.x1 && h.y0 < h.y1 {
            Some(h)
        } else {
            None
        },
        None => None,
    }
}

/// The digital core area: one rectangle around all core boundary shapes that
/// are one standard-cell row high, none if there is no such shape.
pub fn compute_core_area(map: &LayerMap, db_unit: i64) -> (out: Vec<Polygon>)
    requires
        map.valid(),
        is_length(db_unit as int),
        db_unit > 0,
    ensures
        shapes_of(out@) == match core_rect(map.shapes(CORE), db_unit as int) {
            Some(r) => seq![Shape { exterior: r.ring(), holes: Seq::empty() }],
            None => Seq::empty(),
        },
        shapes_in_range(shapes_of(out@)),
{
    let polys = map.polygons(CORE.0, CORE.1);
    let ghost shapes = shapes_of(polys@);
    let mut hull: Option<Rect> = None;
    let mut i: usize = 0;
    while i < polys.len()
        invariant
            i <= polys@.len(),
            shapes == shapes_of(polys@),
            shapes_in_range(shapes),
            is_length(db_unit as int),
            db_unit > 0,
            hull == row_hull(shapes, db_unit as int, i as int),
            hull matches Some(h) ==> h.in_range(),
        decreases polys@.len() - i,
    {
        assert(shapes[i as int] == polys@[i as int]@);
        assert(shapes[i as int].in_range());
        if let Some(b) = polys[i].bounding_rect() {
            proof {
                bounds_in_range(shapes[i as int].exterior);
                let h = b.height();
                assert(0 <= h * db_unit <= 0x4000_0000_0000_0000) by (nonlinear_arith)
                    requires
                        0 <= h <= 0x1_0000_0000,
                        0 < db_unit <= 0x4000_0000,
                ;
            }
            let excess: i64 = (b.y1 - b.y0) * db_unit - 2 * CELL_HEIGHT;
            let diff: i128 = if excess < 0 {
                -(excess as i128)
            } else {
                excess as i128
            };
            if 50 * diff < 2 * CELL_HEIGHT as i128 {
                hull = match hull {
                    None => Some(b),
                    Some(h) => Some(
                        Rect {
                            x0: min_i64(h.x0, b.x0),
                            y0: min_i64(h.y0, b.y0),
                            x1: max_i64(h.x1, b.x1),
                            y1: max_i64(h.y1, b.y1),
                        },
                    ),
                };
            }
        }
        i = i + 1;
    }
    let mut out: Vec<Polygon> = Vec::new();
    assert(shapes_of(out@) =~= Seq::empty());
    if let Some(h) = hull {
        if h.x0 < h.x1 && h.y0 < h.y1 {
            out.push(h.to_polygon());
            assert(shapes_of(out@) =~= seq![Shape { exterior: h.ring(), holes: Seq::empty() }]);
        }
    }
    out
}

} // verus!
