//! Layer table and keep-outs of GlobalFoundries GF180MCU.
//!
//! Variants differ in the metal stack only: A has three metals, B four, C and
//! D five.  The top metal, whichever it is, takes the wider dummy space.

use crate::geom::all_in_reach;
use crate::geom::shapes_in_reach;
use crate::geom::shapes_of;
use crate::geom::Polygon;
use crate::geom::Rect;
use crate::geom::Shape;
use crate::layer_map::LayerMap;
use crate::morph::Morph;
use crate::names::copy_name;
use crate::names::same_name;
use crate::pdk::first_algorithm_fault;
use crate::pdk::first_layer_fault;
use crate::pdk::is_length;
use crate::pdk::keepout::apply_rules;
use crate::pdk::keepout::die_edge_ring;
use crate::pdk::keepout::edge_ring;
use crate::pdk::keepout::rect_shapes;
use crate::pdk::keepout::ruled_shapes;
use crate::pdk::keepout::rules_valid;
use crate::pdk::keepout::SPACE_LIMIT;
use crate::pdk::keepout::SpaceRule;
use crate::pdk::to_units;
use crate::pdk::units_bounds;
use crate::pdk::units_of;
use crate::pdk::FillAlgorithm;
use crate::pdk::OverlapParams;
use crate::pdk::PdkConstants;
use crate::pdk::PdkLayer;
use crate::pdk::SquareParams;
use vstd::prelude::*;

verus! {

/// PR_bndry.  Sub-cell boundaries land on it too, but the merged exterior is
/// the die outline.
pub const DIE_LAYER: (i16, i16) = (0, 0);

pub const COMP: (i16, i16) = (22, 0);

pub const POLY2: (i16, i16) = (30, 0);

pub const NWELL: (i16, i16) = (21, 0);

pub const DNWELL: (i16, i16) = (12, 0);

pub const LVPWELL: (i16, i16) = (204, 0);

pub const DUALGATE: (i16, i16) = (55, 0);

pub const RES_MK: (i16, i16) = (110, 5);

pub const IND_MK: (i16, i16) = (151, 5);

pub const PAD: (i16, i16) = (37, 0);

pub const NDMY: (i16, i16) = (111, 5);

pub const PMNDMY: (i16, i16) = (152, 5);

pub const MTPMK: (i16, i16) = (122, 5);

/// Side of the dummy COMP squares (DCF.1c) and the space between them
/// (DCF.2a), in nanometres, as are all lengths here.
pub const DCF_SIZE: i64 = 5000;

pub const DCF_SPACE: i64 = 3000;

/// Gaps between circuit COMP of less than twice this receive no dummies
/// (DCF.1a).
pub const DCF_CLOSING: i64 = 10_000;

/// Window size of the closing.
pub const CLOSING_WINDOW: i64 = 30_000;

/// Window size of the well boundaries.
pub const WELL_WINDOW: i64 = 100_000;

/// DCF.4 and DCF.5.
pub const DCF_COMP_SPACE: i64 = 3500;

pub const DCF_POLY2_SPACE: i64 = 1500;

/// DCF.6a-d.
pub const DCF_NWELL: i64 = 1300;

pub const DCF_DNWELL: i64 = 4000;

pub const DCF_LVPWELL: i64 = 1300;

pub const DCF_DUALGATE: i64 = 1300;

/// DCF.8a, DCF.9, DCF.11a and DCF.12.
pub const DCF_RES_MK: i64 = 3500;

pub const DCF_PAD: i64 = 7000;

pub const DCF_NDMY: i64 = 3500;

pub const DCF_IND_MK: i64 = 3000;

/// Dummy Poly2 is dummy COMP sized up by this (DPF.1).
pub const DPF_EXTENSION: i64 = 300;

pub const DPF_SIZE: i64 = 5600;

/// DPF.2a.
pub const DPF_SPACE: i64 = 2400;

/// DPF.4 and DPF.5.
pub const DPF_COMP_SPACE: i64 = 3200;

pub const DPF_POLY2_SPACE: i64 = 5000;

/// DPF.6a-d.
pub const DPF_NWELL: i64 = 1000;

pub const DPF_DNWELL: i64 = 2000;

pub const DPF_LVPWELL: i64 = 1000;

pub const DPF_DUALGATE: i64 = 1000;

/// DPF.8, DPF.9, DPF.11, DPF.14, DPF.16 and DPF.19.
pub const DPF_RES_MK: i64 = 19_700;

pub const DPF_PAD: i64 = 6700;

pub const DPF_NDMY: i64 = 29_700;

pub const DPF_IND_MK: i64 = 3000;

pub const DPF_MTPMK: i64 = 3000;

pub const DPF_PMNDMY: i64 = 8000;

/// DPF.12 and DPF.13: space to circuit Metal1 and Metal2.
pub const DPF_METAL_SPACE: i64 = 2000;

/// DM.1.
pub const DM_SIZE: i64 = 2000;

/// DM.2a and, for the thick top metal, DM.2c.
pub const DM_SPACE: i64 = 1200;

pub const DM_SPACE_TOP: i64 = 2000;

/// DM.3.
pub const DM_CIRCUIT_SPACE: i64 = 2000;

/// DM.8.
pub const DM_MARKER_SPACE: i64 = 6000;

/// DM.9: consecutive layers must not repeat the pattern.
pub const DM_LAYER_OFFSET: i64 = 500;

/// DCF.7a, DPF.7: space to the die edge.
pub const DIE_EDGE_SPACE: i64 = 26_000;

/// Largest gap between fill squares.
pub const MAX_SPACE: i64 = 10_000;

/// DM.8 marker layers.
pub open spec fn markers() -> Seq<(i16, i16)> {
    seq![(75i16, 0i16), (220i16, 0i16), (96i16, 1i16), (152i16, 5i16), (122i16, 5i16), (173i16, 5i16)]
}

/// The name of metal `i`, counted from zero.
pub open spec fn metal_name(i: int) -> Seq<char> {
    if i == 0 {
        "Metal1"@
    } else if i == 1 {
        "Metal2"@
    } else if i == 2 {
        "Metal3"@
    } else if i == 3 {
        "Metal4"@
    } else {
        "Metal5"@
    }
}

/// The GDS layer of metal `i`, counted from zero.
pub open spec fn metal_gds(i: int) -> i16 {
    if i == 0 {
        34
    } else if i == 1 {
        36
    } else if i == 2 {
        42
    } else if i == 3 {
        46
    } else {
        81
    }
}

/// The name and the GDS layer of metal `i`.
fn metal(i: usize) -> (r: (String, i16))
    requires
        i < 5,
    ensures
        r.0@ == metal_name(i as int),
        r.1 == metal_gds(i as int),
{
    if i == 0 {
        (copy_name("Metal1"), 34)
    } else if i == 1 {
        (copy_name("Metal2"), 36)
    } else if i == 2 {
        (copy_name("Metal3"), 42)
    } else if i == 3 {
        (copy_name("Metal4"), 46)
    } else {
        (copy_name("Metal5"), 81)
    }
}

/// A layer that is filled with squares of one size.
pub open spec fn is_square_layer(
    l: PdkLayer,
    gds: i16,
    size: i64,
    space: i64,
    origin: i64,
    density: i64,
    deviation: i64,
) -> bool {
    &&& l.gds_layer == gds
    &&& l.drawing_datatype == 0
    &&& l.fill_datatype == 4
    &&& l.nofill_datatype is None
    &&& l.max_depth == 10
    &&& l.algorithms@.len() == 1
    &&& l.algorithms@[0] == FillAlgorithm::Square(
        SquareParams {
            min_width: size,
            max_width: size,
            min_space: space,
            max_space: MAX_SPACE,
            clipping: true,
            origin_nm: (origin, origin),
        },
    )
    &&& l.default_density == density
    &&& l.default_deviation == deviation
    &&& l.tile_width_nm == 100_000
    &&& l.merge_for_density
    &&& l.merge_window_nm == Some(50_000i64)
}

/// The Poly2 layer: dummy COMP, covered.
pub open spec fn is_poly2_layer(l: PdkLayer) -> bool {
    &&& l.gds_layer == POLY2.0
    &&& l.drawing_datatype == 0
    &&& l.fill_datatype == 4
    &&& l.nofill_datatype is None
    &&& l.max_depth == 10
    &&& l.algorithms@.len() == 1
    &&& l.algorithms@[0] matches FillAlgorithm::Overlap(p) && {
        &&& p.min_width == DPF_SIZE
        &&& p.max_width == DPF_SIZE
        &&& p.min_extension == DPF_EXTENSION
        &&& p.min_space == DPF_SPACE
        &&& p.ref_layer@ == "COMP"@
        &&& p.cover
    }
    &&& l.default_density == 20_000_000
    &&& l.default_deviation == 6_000_000
    &&& l.tile_width_nm == 100_000
    &&& l.merge_for_density
    &&& l.merge_window_nm == Some(50_000i64)
}

/// The metal layer number `i` of `n`.
pub open spec fn is_metal_layer(l: PdkLayer, i: int, n: int) -> bool {
    is_square_layer(
        l,
        metal_gds(i),
        DM_SIZE,
        if i == n - 1 {
            DM_SPACE_TOP
        } else {
            DM_SPACE
        },
        (i * DM_LAYER_OFFSET) as i64,
        35_000_000,
        5_000_000,
    )
}

/// The number of metals of a variant.
pub open spec fn metal_count(variant: char) -> Option<int> {
    if variant == 'A' {
        Some(3)
    } else if variant == 'B' {
        Some(4)
    } else if variant == 'C' || variant == 'D' {
        Some(5)
    } else {
        None
    }
}

/// The process description with `n` metals.
pub open spec fn is_stack(pdk: PdkConstants, n: int) -> bool {
    &&& pdk.db_unit_nm == 5
    &&& pdk.tile_width_nm == 200_000
    &&& pdk.fill_boundary_layer == Some(DIE_LAYER)
    &&& pdk.density_boundary_layer == Some(DIE_LAYER)
    &&& pdk.grid_dbu == 1
    &&& pdk.layers@.len() == n + 2
    &&& pdk.layers@[0].0@ == "COMP"@
    &&& is_square_layer(pdk.layers@[0].1, COMP.0, DCF_SIZE, DCF_SPACE, 0, 40_000_000, 15_000_000)
    &&& pdk.layers@[1].0@ == "Poly2"@
    &&& is_poly2_layer(pdk.layers@[1].1)
    &&& forall|i: int|
        0 <= i < n ==> (#[trigger] pdk.layers@[i + 2]).0@ == metal_name(i) && is_metal_layer(pdk.layers@[i + 2].1, i, n)
}

/// A layer that is filled with squares of one size.
fn square_layer(gds: i16, size: i64, space: i64, origin: i64, density: i64, deviation: i64) -> (l: PdkLayer)
    ensures
        is_square_layer(l, gds, size, space, origin, density, deviation),
{
    let mut algorithms: Vec<FillAlgorithm> = Vec::new();
    algorithms.push(
        FillAlgorithm::Square(
            SquareParams {
                min_width: size,
                max_width: size,
                min_space: space,
                max_space: MAX_SPACE,
                clipping: true,
                origin_nm: (origin, origin),
            },
        ),
    );
    PdkLayer {
        gds_layer: gds,
        drawing_datatype: 0,
        fill_datatype: 4,
        nofill_datatype: None,
        max_depth: 10,
        algorithms,
        default_density: density,
        default_deviation: deviation,
        tile_width_nm: 100_000,
        merge_for_density: true,
        merge_window_nm: Some(50_000),
    }
}

/// The Poly2 layer.
fn poly2_layer() -> (l: PdkLayer)
    ensures
        is_poly2_layer(l),
{
    let mut algorithms: Vec<FillAlgorithm> = Vec::new();
    algorithms.push(
        FillAlgorithm::Overlap(
            OverlapParams {
                min_width: DPF_SIZE,
                max_width: DPF_SIZE,
                min_extension: DPF_EXTENSION,
                min_space: DPF_SPACE,
                ref_layer: copy_name("COMP"),
                cover: true,
            },
        ),
    );
    PdkLayer {
        gds_layer: POLY2.0,
        drawing_datatype: 0,
        fill_datatype: 4,
        nofill_datatype: None,
        max_depth: 10,
        algorithms,
        default_density: 20_000_000,
        default_deviation: 6_000_000,
        tile_width_nm: 100_000,
        merge_for_density: true,
        merge_window_nm: Some(50_000),
    }
}

/// The process description with `n` metals.
fn gf180mcu(n: usize) -> (pdk: PdkConstants)
    requires
        0 < n <= 5,
    ensures
        is_stack(pdk, n as int),
{
    let mut layers: Vec<(String, PdkLayer)> = Vec::new();
    // Dummy COMP is wanted wherever it is allowed; its lattice stays below 40 %.
    layers.push((copy_name("COMP"), square_layer(COMP.0, DCF_SIZE, DCF_SPACE, 0, 40_000_000, 15_000_000)));
    layers.push((copy_name("Poly2"), poly2_layer()));
    let mut i: usize = 0;
    while i < n
        invariant
            0 < n <= 5,
            i <= n,
            layers@.len() == i + 2,
            layers@[0].0@ == "COMP"@,
            is_square_layer(layers@[0].1, COMP.0, DCF_SIZE, DCF_SPACE, 0, 40_000_000, 15_000_000),
            layers@[1].0@ == "Poly2"@,
            is_poly2_layer(layers@[1].1),
            forall|k: int|
                0 <= k < i ==> (#[trigger] layers@[k + 2]).0@ == metal_name(k) && is_metal_layer(
                    layers@[k + 2].1,
                    k,
                    n as int,
                ),
        decreases n - i,
    {
        let (name, gds) = metal(i);
        let space = if i == n - 1 {
            DM_SPACE_TOP
        } else {
            DM_SPACE
        };
        let ghost before = layers@;
        layers.push((name, square_layer(gds, DM_SIZE, space, i as i64 * DM_LAYER_OFFSET, 35_000_000, 5_000_000)));
        proof {
            assert forall|k: int| 0 <= k < i + 1 implies (#[trigger] layers@[k + 2]).0@ == metal_name(k)
                && is_metal_layer(layers@[k + 2].1, k, n as int) by {
                if k < i {
                    assert(layers@[k + 2] == before[k + 2]);
                }
            }
        }
        i = i + 1;
    }
    PdkConstants {
        layers,
        db_unit_nm: 5,
        tile_width_nm: 200_000,
        fill_boundary_layer: Some(DIE_LAYER),
        density_boundary_layer: Some(DIE_LAYER),
        grid_dbu: 1,
    }
}

/// The process description of a variant, `None` if there is no such variant.
pub fn for_variant(variant: char) -> (r: Option<PdkConstants>)
    ensures
        r is Some <==> metal_count(variant) is Some,
        r matches Some(pdk) ==> is_stack(pdk, metal_count(variant)->0),
{
    if variant == 'A' {
        Some(gf180mcu(3))
    } else if variant == 'B' {
        Some(gf180mcu(4))
    } else if variant == 'C' || variant == 'D' {
        Some(gf180mcu(5))
    } else {
        None
    }
}

proof fn no_layer_fault(pdk: PdkConstants, n: int, i: int)
    requires
        is_stack(pdk, n),
        0 < n <= 5,
        0 <= i <= pdk.layers@.len(),
    ensures
        first_layer_fault(pdk.layers@, i) is None,
    decreases pdk.layers@.len() - i,
{
    if i < pdk.layers@.len() {
        no_layer_fault(pdk, n, i + 1);
        if i >= 2 {
            assert(is_metal_layer(pdk.layers@[(i - 2) + 2].1, i - 2, n));
        }
        let l = pdk.layers@[i].1;
        reveal_with_fuel(first_algorithm_fault, 3);
        assert(l.fault() is None);
    }
}

/// The tables of all variants pass validation.
pub proof fn stacks_are_valid(pdk: PdkConstants, n: int)
    requires
        is_stack(pdk, n),
        0 < n <= 5,
    ensures
        pdk.fault() is None,
{
    no_layer_fault(pdk, n, 0);
}

/// In the tables of all variants, layer names occur once.
pub proof fn stack_names_are_distinct(pdk: PdkConstants, n: int)
    requires
        is_stack(pdk, n),
        0 < n <= 5,
    ensures
        pdk.names_distinct(),
{
    reveal_strlit("COMP");
    reveal_strlit("Poly2");
    reveal_strlit("Metal1");
    reveal_strlit("Metal2");
    reveal_strlit("Metal3");
    reveal_strlit("Metal4");
    reveal_strlit("Metal5");
    assert forall|i: int, j: int| 0 <= i < j < pdk.layers@.len() implies (#[trigger] pdk.layers@[i]).0@ != (
    #[trigger] pdk.layers@[j]).0@ by {
        let (a, b) = (pdk.layers@[i].0@, pdk.layers@[j].0@);
        if j >= 2 {
            assert(pdk.layers@[(j - 2) + 2].0@ == metal_name(j - 2));
            assert(b.len() == 6);
            if i >= 2 {
                assert(pdk.layers@[(i - 2) + 2].0@ == metal_name(i - 2));
                assert(a[5] != b[5]);
            } else {
                assert(a.len() < 6);
            }
        } else {
            assert(a.len() == 4 && b.len() == 5);
        }
    }
}

/// The layers and datatypes that the keep-out rules read.
pub open spec fn needed() -> Seq<(i16, i16)> {
    seq![DIE_LAYER, COMP, POLY2, NWELL, DNWELL, LVPWELL, DUALGATE, RES_MK, IND_MK, PAD, NDMY, PMNDMY, MTPMK]
        + markers() + seq![(34i16, 0i16), (36i16, 0i16), (42i16, 0i16), (46i16, 0i16), (81i16, 0i16)]
}

/// The layers and datatypes that the keep-out rules read besides the filled
/// layers: boundary, devices, wells, markers and all metals.
pub fn needed_layers() -> (v: Vec<(i16, i16)>)
    ensures
        v@ == needed(),
{
    let v: Vec<(i16, i16)> = vec![
        DIE_LAYER,
        COMP,
        POLY2,
        NWELL,
        DNWELL,
        LVPWELL,
        DUALGATE,
        RES_MK,
        IND_MK,
        PAD,
        NDMY,
        PMNDMY,
        MTPMK,
        (75, 0),
        (220, 0),
        (96, 1),
        (152, 5),
        (122, 5),
        (173, 5),
        (34, 0),
        (36, 0),
        (42, 0),
        (46, 0),
        (81, 0),
    ];
    assert(v@ =~= needed());
    v
}

/// The family of keep-out rules of a layer.
#[derive(Clone, Copy, Debug, PartialEq, Eq, Structural)]
pub enum Family {
    Comp,
    Poly2,
    Metal,
}

/// The rule family of a layer name.
pub open spec fn family_of(name: Seq<char>) -> Option<Family> {
    if name == "Metal1"@ || name == "Metal2"@ || name == "Metal3"@ || name == "Metal4"@ || name == "Metal5"@ {
        Some(Family::Metal)
    } else if name == "COMP"@ {
        Some(Family::Comp)
    } else if name == "Poly2"@ {
        Some(Family::Poly2)
    } else {
        None
    }
}

/// The rule family of a layer name, `None` if there is no rule for it.
pub fn find_family(name: &str) -> (f: Option<Family>)
    ensures
        f == family_of(name@),
{
    if same_name(name, "Metal1") || same_name(name, "Metal2") || same_name(name, "Metal3") || same_name(name, "Metal4")
        || same_name(name, "Metal5") {
        Some(Family::Metal)
    } else if same_name(name, "COMP") {
        Some(Family::Comp)
    } else if same_name(name, "Poly2") {
        Some(Family::Poly2)
    } else {
        None
    }
}

/// How circuit COMP is closed for a family: dilated by the first amount,
/// eroded by the second, in windows of the third.
pub open spec fn closing_of(family: Family) -> Option<(i64, i64, i64)> {
    match family {
        Family::Comp => Some((DCF_CLOSING, (DCF_CLOSING - DCF_COMP_SPACE) as i64, CLOSING_WINDOW)),
        Family::Poly2 => Some((DCF_CLOSING, (DCF_CLOSING - DPF_COMP_SPACE) as i64, CLOSING_WINDOW)),
        Family::Metal => None,
    }
}

/// How circuit COMP is closed for a family, `None` if it does not matter.
pub fn closing(family: Family) -> (r: Option<(i64, i64, i64)>)
    ensures
        r == closing_of(family),
{
    match family {
        Family::Comp => Some((DCF_CLOSING, DCF_CLOSING - DCF_COMP_SPACE, CLOSING_WINDOW)),
        Family::Poly2 => Some((DCF_CLOSING, DCF_CLOSING - DPF_COMP_SPACE, CLOSING_WINDOW)),
        Family::Metal => None,
    }
}

/// The wells whose boundary, to both sides, is a keep-out of a family.
pub open spec fn well_rules(family: Family) -> Seq<SpaceRule> {
    match family {
        Family::Comp => seq![
            SpaceRule { key: NWELL, space: DCF_NWELL },
            SpaceRule { key: DNWELL, space: DCF_DNWELL },
            SpaceRule { key: LVPWELL, space: DCF_LVPWELL },
            SpaceRule { key: DUALGATE, space: DCF_DUALGATE },
        ],
        Family::Poly2 => seq![
            SpaceRule { key: NWELL, space: DPF_NWELL },
            SpaceRule { key: DNWELL, space: DPF_DNWELL },
            SpaceRule { key: LVPWELL, space: DPF_LVPWELL },
            SpaceRule { key: DUALGATE, space: DPF_DUALGATE },
        ],
        Family::Metal => Seq::empty(),
    }
}

/// The wells whose boundary is a keep-out of a family.
pub fn list_well_rules(family: Family) -> (v: Vec<SpaceRule>)
    ensures
        v@ == well_rules(family),
{
    let mut v: Vec<SpaceRule> = Vec::new();
    match family {
        Family::Comp => {
            v.push(SpaceRule { key: NWELL, space: DCF_NWELL });
            v.push(SpaceRule { key: DNWELL, space: DCF_DNWELL });
            v.push(SpaceRule { key: LVPWELL, space: DCF_LVPWELL });
            v.push(SpaceRule { key: DUALGATE, space: DCF_DUALGATE });
        },
        Family::Poly2 => {
            v.push(SpaceRule { key: NWELL, space: DPF_NWELL });
            v.push(SpaceRule { key: DNWELL, space: DPF_DNWELL });
            v.push(SpaceRule { key: LVPWELL, space: DPF_LVPWELL });
            v.push(SpaceRule { key: DUALGATE, space: DPF_DUALGATE });
        },
        Family::Metal => {},
    }
    assert(v@ =~= well_rules(family));
    v
}

/// The minimum space of the first square algorithm from position `i` on.
pub open spec fn square_space(algorithms: Seq<FillAlgorithm>, i: int) -> i64
    decreases algorithms.len() - i,
{
    if i < 0 || i >= algorithms.len() {
        DM_SPACE
    } else {
        match algorithms[i] {
            FillAlgorithm::Square(p) => p.min_space,
            _ => square_space(algorithms, i + 1),
        }
    }
}

/// The minimum space of the square fill of a layer, that of the metals if it
/// has none.
pub fn find_square_space(layer: &PdkLayer) -> (s: i64)
    ensures
        s == square_space(layer.algorithms@, 0),
{
    let mut i: usize = 0;
    while i < layer.algorithms.len()
        invariant
            i <= layer.algorithms@.len(),
            square_space(layer.algorithms@, 0) == square_space(layer.algorithms@, i as int),
        decreases layer.algorithms@.len() - i,
    {
        match &layer.algorithms[i] {
            FillAlgorithm::Square(p) => {
                return p.min_space;
            },
            _ => {},
        }
        i = i + 1;
    }
    DM_SPACE
}

/// The rules of a family for a layer, without closing, wells and die edge.
pub open spec fn family_rules(family: Family, layer: PdkLayer) -> Seq<SpaceRule> {
    let own_fill = (layer.gds_layer, layer.fill_datatype);
    match family {
        Family::Comp => seq![
            SpaceRule { key: own_fill, space: DCF_SPACE },
            SpaceRule { key: POLY2, space: DCF_POLY2_SPACE },
            SpaceRule { key: RES_MK, space: DCF_RES_MK },
            SpaceRule { key: PAD, space: DCF_PAD },
            SpaceRule { key: IND_MK, space: DCF_IND_MK },
            SpaceRule { key: NDMY, space: DCF_NDMY },
        ],
        Family::Poly2 => seq![
            SpaceRule { key: own_fill, space: DPF_SPACE },
            SpaceRule { key: POLY2, space: DPF_POLY2_SPACE },
            SpaceRule { key: RES_MK, space: DPF_RES_MK },
            SpaceRule { key: PAD, space: DPF_PAD },
            SpaceRule { key: IND_MK, space: DPF_IND_MK },
            SpaceRule { key: MTPMK, space: DPF_MTPMK },
            SpaceRule { key: NDMY, space: DPF_NDMY },
            SpaceRule { key: PMNDMY, space: DPF_PMNDMY },
            SpaceRule { key: (34, 0), space: DPF_METAL_SPACE },
            SpaceRule { key: (36, 0), space: DPF_METAL_SPACE },
        ],
        Family::Metal => seq![
            SpaceRule { key: (layer.gds_layer, layer.drawing_datatype), space: DM_CIRCUIT_SPACE },
            SpaceRule { key: own_fill, space: square_space(layer.algorithms@, 0) },
        ] + markers().map_values(|m: (i16, i16)| SpaceRule { key: m, space: DM_MARKER_SPACE }),
    }
}

/// All rules of a family keep a space within the limits.
pub proof fn family_rules_are_valid(family: Family, layer: PdkLayer)
    requires
        0 <= square_space(layer.algorithms@, 0) <= SPACE_LIMIT,
    ensures
        rules_valid(family_rules(family, layer)),
{
}

/// The rules of a family for a layer.
fn list_rules(family: Family, layer: &PdkLayer) -> (v: Vec<SpaceRule>)
    requires
        0 <= square_space(layer.algorithms@, 0) <= SPACE_LIMIT,
    ensures
        v@ == family_rules(family, *layer),
        rules_valid(v@),
{
    let mut v: Vec<SpaceRule> = Vec::new();
    let own_fill = (layer.gds_layer, layer.fill_datatype);
    match family {
        Family::Comp => {
            v.push(SpaceRule { key: own_fill, space: DCF_SPACE });
            v.push(SpaceRule { key: POLY2, space: DCF_POLY2_SPACE });
            v.push(SpaceRule { key: RES_MK, space: DCF_RES_MK });
            v.push(SpaceRule { key: PAD, space: DCF_PAD });
            v.push(SpaceRule { key: IND_MK, space: DCF_IND_MK });
            v.push(SpaceRule { key: NDMY, space: DCF_NDMY });
        },
        Family::Poly2 => {
            v.push(SpaceRule { key: own_fill, space: DPF_SPACE });
            v.push(SpaceRule { key: POLY2, space: DPF_POLY2_SPACE });
            v.push(SpaceRule { key: RES_MK, space: DPF_RES_MK });
            v.push(SpaceRule { key: PAD, space: DPF_PAD });
            v.push(SpaceRule { key: IND_MK, space: DPF_IND_MK });
            v.push(SpaceRule { key: MTPMK, space: DPF_MTPMK });
            v.push(SpaceRule { key: NDMY, space: DPF_NDMY });
            v.push(SpaceRule { key: PMNDMY, space: DPF_PMNDMY });
            v.push(SpaceRule { key: (34, 0), space: DPF_METAL_SPACE });
            v.push(SpaceRule { key: (36, 0), space: DPF_METAL_SPACE });
        },
        Family::Metal => {
            v.push(SpaceRule { key: (layer.gds_layer, layer.drawing_datatype), space: DM_CIRCUIT_SPACE });
            v.push(SpaceRule { key: own_fill, space: find_square_space(layer) });
            v.push(SpaceRule { key: (75, 0), space: DM_MARKER_SPACE });
            v.push(SpaceRule { key: (220, 0), space: DM_MARKER_SPACE });
            v.push(SpaceRule { key: (96, 1), space: DM_MARKER_SPACE });
            v.push(SpaceRule { key: (152, 5), space: DM_MARKER_SPACE });
            v.push(SpaceRule { key: (122, 5), space: DM_MARKER_SPACE });
            v.push(SpaceRule { key: (173, 5), space: DM_MARKER_SPACE });
        },
    }
    assert(v@ =~= family_rules(family, *layer));
    v
}

/// Circuit COMP closed for a family, none if it does not matter.
pub open spec fn closed_comp(map: LayerMap, family: Family, db_unit: int) -> Option<Seq<Shape>> {
    match closing_of(family) {
        Some((grow, shrink, window)) => (Morph::Closing {
            grow: units_of(grow as int, db_unit) as i64,
            shrink: units_of(shrink as int, db_unit) as i64,
        }).result(map.shapes(COMP), units_of(window as int, db_unit)),
        None => Some(Seq::empty()),
    }
}

/// The bands along the boundaries of the wells of the first `n` rules.
pub open spec fn well_bands(map: LayerMap, rules: Seq<SpaceRule>, db_unit: int, n: int) -> Option<Seq<Shape>>
    decreases n,
{
    if n <= 0 {
        Some(Seq::empty())
    } else {
        let r = rules[n - 1];
        let band = Morph::Bands { space: units_of(r.space as int, db_unit) as i64 };
        match (
            well_bands(map, rules, db_unit, n - 1),
            band.result(map.shapes(r.key), units_of(WELL_WINDOW as int, db_unit)),
        ) {
            (Some(before), Some(now)) => Some(before + now),
            _ => None,
        }
    }
}

/// The keep-out shapes of a layer: closed COMP, well boundaries, those of the
/// rules, and the die edge; none for a layer without rules.
pub open spec fn keepout_shapes(map: LayerMap, chip: Rect, name: Seq<char>, layer: PdkLayer, db_unit: int) -> Option<
    Seq<Shape>,
> {
    match family_of(name) {
        Some(f) => match (
            closed_comp(map, f, db_unit),
            well_bands(map, well_rules(f), db_unit, well_rules(f).len() as int),
        ) {
            (Some(comp), Some(wells)) => Some(
                comp + wells + ruled_shapes(
                    map,
                    family_rules(f, layer),
                    db_unit,
                    family_rules(f, layer).len() as int,
                ) + rect_shapes(edge_ring(chip, units_of(DIE_EDGE_SPACE as int, db_unit))),
            ),
            _ => None,
        },
        None => Some(Seq::empty()),
    }
}

/// Close circuit COMP for a family.
fn close_comp(map: &LayerMap, family: Family, db_unit: i64) -> (out: Option<Vec<Polygon>>)
    requires
        map.valid(),
        is_length(db_unit as int),
        db_unit > 0,
    ensures
        out matches Some(v) ==> closed_comp(*map, family, db_unit as int) == Some(shapes_of(v@)) && shapes_in_reach(
            shapes_of(v@),
        ),
        out is None ==> closed_comp(*map, family, db_unit as int) is None,
{
    match closing(family) {
        Some((grow, shrink, window)) => {
            proof {
                units_bounds(grow as int, db_unit as int);
                units_bounds(shrink as int, db_unit as int);
            }
            let op = Morph::Closing { grow: to_units(grow, db_unit), shrink: to_units(shrink, db_unit) };
            let out = op.apply_tiled(map.polygons(COMP.0, COMP.1), to_units(window, db_unit));
            proof {
                if out is Some {
                    all_in_reach(shapes_of(out->0@));
                }
            }
            out
        },
        None => {
            let out: Vec<Polygon> = Vec::new();
            assert(shapes_of(out@) =~= Seq::empty());
            Some(out)
        },
    }
}

/// Add the bands along well boundaries; `false` if one leaves the coordinate
/// range.
fn add_wells(map: &LayerMap, family: Family, db_unit: i64, out: &mut Vec<Polygon>) -> (done: bool)
    requires
        map.valid(),
        is_length(db_unit as int),
        db_unit > 0,
        shapes_in_reach(shapes_of(old(out)@)),
    ensures
        done == (well_bands(*map, well_rules(family), db_unit as int, well_rules(family).len() as int) is Some),
        done ==> shapes_of(final(out)@) == shapes_of(old(out)@) + well_bands(
            *map,
            well_rules(family),
            db_unit as int,
            well_rules(family).len() as int,
        )->0,
        shapes_in_reach(shapes_of(final(out)@)),
{
    let rules = list_well_rules(family);
    let ghost start = shapes_of(out@);
    let mut i: usize = 0;
    assert(start + Seq::<Shape>::empty() =~= start);
    while i < rules.len()
        invariant
            i <= rules@.len(),
            rules@ == well_rules(family),
            map.valid(),
            is_length(db_unit as int),
            db_unit > 0,
            shapes_in_reach(shapes_of(out@)),
            well_bands(*map, rules@, db_unit as int, i as int) is Some,
            shapes_of(out@) == start + well_bands(*map, rules@, db_unit as int, i as int)->0,
        decreases rules@.len() - i,
    {
        let space = rules[i].space;
        let key = rules[i].key;
        assert(0 <= space <= 4000);
        proof {
            units_bounds(space as int, db_unit as int);
        }
        let band = Morph::Bands { space: to_units(space, db_unit) };
        match band.apply_tiled(map.polygons(key.0, key.1), to_units(WELL_WINDOW, db_unit)) {
            Some(v) => {
                let mut v = v;
                let ghost now = shapes_of(v@);
                let ghost before = shapes_of(out@);
                proof {
                    all_in_reach(now);
                }
                out.append(&mut v);
                proof {
                    assert(shapes_of(out@) =~= before + now);
                    assert(shapes_of(out@) =~= start + well_bands(*map, rules@, db_unit as int, i + 1)->0);
                    assert forall|k: int| 0 <= k < shapes_of(out@).len() implies (
                    #[trigger] shapes_of(out@)[k]).in_reach() by {
                        if k < before.len() {
                            assert(before[k].in_reach());
                        } else {
                            assert(now[k - before.len()].in_reach());
                        }
                    }
                }
            },
            None => {
                proof {
                    failed_wells(*map, rules@, db_unit as int, i + 1, rules@.len() as int);
                }
                return false;
            },
        }
        i = i + 1;
    }
    true
}

/// The wells have failed if one has.
proof fn failed_wells(map: LayerMap, rules: Seq<SpaceRule>, db_unit: int, k: int, n: int)
    requires
        k <= n,
        well_bands(map, rules, db_unit, k) is None,
    ensures
        well_bands(map, rules, db_unit, n) is None,
    decreases n - k,
{
    if k < n {
        failed_wells(map, rules, db_unit, k, n - 1);
    }
}

/// Build the keep-out polygons of a layer; `None` if they leave the coordinate
/// range.  `chip` is the bounding box of the die outline.
pub fn build_keepout(map: &LayerMap, chip: &Rect, layer_name: &str, layer: &PdkLayer, db_unit: i64) -> (out: Option<
    Vec<Polygon>,
>)
    requires
        map.valid(),
        chip.in_range(),
        is_length(db_unit as int),
        db_unit > 0,
        0 <= square_space(layer.algorithms@, 0) <= SPACE_LIMIT,
    ensures
        out matches Some(v) ==> keepout_shapes(*map, *chip, layer_name@, *layer, db_unit as int) == Some(
            shapes_of(v@),
        ) && shapes_in_reach(shapes_of(v@)),
        out is None ==> keepout_shapes(*map, *chip, layer_name@, *layer, db_unit as int) is None,
{
    match find_family(layer_name) {
        Some(family) => {
            let mut out = match close_comp(map, family, db_unit) {
                Some(v) => v,
                None => {
                    return None;
                },
            };
            if !add_wells(map, family, db_unit, &mut out) {
                return None;
            }
            let rules = list_rules(family, layer);
            apply_rules(map, &rules, db_unit, &mut out);
            die_edge_ring(chip, to_units(DIE_EDGE_SPACE, db_unit), &mut out);
            Some(out)
        },
        None => {
            let out: Vec<Polygon> = Vec::new();
            assert(shapes_of(out@) =~= Seq::empty());
            Some(out)
        },
    }
}

} // verus!
