//! The chip: its layers, outline and reference area.

use crate::contain::lies_in_larger;
use crate::contain::only_the_contained_go;
use crate::contain::remove_contained_polygons;
use crate::contain::uncontained;
use crate::context::family_of_process;
use crate::context::process_family;
use crate::context::ProcessFamily;
use crate::context::RunContext;
use crate::density::outer_area2;
use crate::density::reference_area;
use crate::flatten::flat_tops;
use crate::flatten::Drawn;
use crate::geom::abs_of;
use crate::geom::bounds;
use crate::geom::ring_area2;
use crate::geom::shapes_in_range;
use crate::geom::shapes_of;
use crate::geom::Polygon;
use crate::geom::Rect;
use crate::geom::Shape;
use crate::layer_map::all_points;
use crate::layer_map::box_is_drawn_around_the_shapes;
use crate::layer_map::has_point_at;
use crate::layer_map::layer_of;
use crate::layer_map::uncontained_in_range;
use crate::layer_map::LayerMap;
use crate::layout::Layout;
use crate::layout::LayoutError;
use crate::overlay::merged_shapes;
use crate::pdk::gf180mcu;
use crate::pdk::ihp_sg13;
use crate::pdk::LENGTH_LIMIT;
use crate::pdk::PdkConstants;
use crate::pdk::PdkLayer;
use crate::touch::doubled_exterior;
use crate::touch::Outline;
use vstd::prelude::*;

verus! {

/// Why a run stops.
#[derive(Clone, Copy, Debug, PartialEq, Eq, Structural)]
pub enum RunError {
    /// The process has no boundary layer.
    NoBoundaryLayer,
    /// The boundary layer and datatype hold no shape.
    BoundaryMissing(i16, i16),
    /// The hierarchy cannot be flattened.
    Layout(LayoutError),
    /// The parameters of the process or the layer are outside their limits.
    Unusable,
    /// The chip has no area but shapes to measure, or more tiles than can be
    /// counted.
    NoTiles,
    /// Shapes or areas leave the range of exact arithmetic.
    OutOfRange,
}

/// What a chip is loaded for.
#[derive(Clone, Copy, Debug, PartialEq, Eq, Structural)]
pub enum Purpose {
    Fill,
    Density,
}

/// Layer and datatype of drawn shapes.
pub open spec fn drawing_key(layer: PdkLayer) -> (i16, i16) {
    (layer.gds_layer, layer.drawing_datatype)
}

/// Layer and datatype of fill.
pub open spec fn fill_key(layer: PdkLayer) -> (i16, i16) {
    (layer.gds_layer, layer.fill_datatype)
}

/// The layers and datatypes of a target; fill also respects no-fill markers.
pub open spec fn target_keys(layer: PdkLayer, purpose: Purpose) -> Seq<(i16, i16)> {
    let own = seq![drawing_key(layer), fill_key(layer)];
    match (purpose, layer.nofill_datatype) {
        (Purpose::Fill, Some(dt)) => own.push((layer.gds_layer, dt)),
        _ => own,
    }
}

/// The layers and datatypes of the first `n` targets.
pub open spec fn targets_keys(pdk: PdkConstants, targets: Seq<usize>, purpose: Purpose, n: int) -> Seq<(i16, i16)>
    decreases n,
{
    if n <= 0 {
        Seq::empty()
    } else {
        targets_keys(pdk, targets, purpose, n - 1) + target_keys(pdk.layers@[targets[n - 1] as int].1, purpose)
    }
}

/// The layers and datatypes that the rules of a process read.
pub open spec fn rule_keys(process: Seq<char>, purpose: Purpose) -> Seq<(i16, i16)> {
    match (purpose, family_of_process(process)) {
        (Purpose::Fill, Some(ProcessFamily::IhpSg13)) => ihp_sg13::needed(),
        (Purpose::Fill, Some(ProcessFamily::Gf180mcu)) => gf180mcu::needed(),
        _ => Seq::empty(),
    }
}

/// The boundary layer of a run: where fill may be placed, or the reference of
/// densities.
pub open spec fn boundary_key(pdk: PdkConstants, purpose: Purpose) -> Option<(i16, i16)> {
    match purpose {
        Purpose::Fill => pdk.fill_boundary_layer,
        Purpose::Density => pdk.density_boundary_layer,
    }
}

/// All layers and datatypes that a run reads.
pub open spec fn run_keys(ctx: RunContext, targets: Seq<usize>, purpose: Purpose) -> Seq<(i16, i16)> {
    seq![boundary_key(ctx.pdk, purpose)->0, ctx.pdk.density_boundary_layer->0] + targets_keys(
        ctx.pdk,
        targets,
        purpose,
        targets.len() as int,
    ) + rule_keys(ctx.process@, purpose)
}

/// The drawn shapes whose area counts: those of the layer that lie in the
/// bounding box of no larger one.
pub open spec fn counted_shapes(map: LayerMap, layer: PdkLayer) -> Seq<Shape> {
    let all = map.shapes(drawing_key(layer));
    uncontained(all, all.len() as int)
}

/// The drawn polygons whose area counts.
pub fn counted_polygons(map: &LayerMap, layer: &PdkLayer) -> (out: Vec<Polygon>)
    requires
        map.valid(),
    ensures
        shapes_of(out@) == counted_shapes(*map, *layer),
        shapes_in_range(shapes_of(out@)),
{
    let all = map.polygons(layer.gds_layer, layer.drawing_datatype);
    proof {
        let shapes = shapes_of(all@);
        uncontained_in_range(shapes, shapes.len() as int);
    }
    remove_contained_polygons(all)
}

/// The shapes of a layer that may be absent.
pub open spec fn shapes_or_none(layer: Option<Seq<Shape>>) -> Seq<Shape> {
    match layer {
        Some(s) => s,
        None => Seq::empty(),
    }
}

/// A chip as loaded for a run.
#[derive(Debug)]
pub struct Chip {
    /// The layers, without the boundaries.
    pub map: LayerMap,
    /// Bounding box of the boundary.
    pub area: Rect,
    /// Exteriors of the merged boundary.
    pub outline: Outline,
    /// Reference area of densities, doubled.
    pub density_area: i128,
    /// The digital core.
    pub cores: Vec<Polygon>,
}

/// The merged boundary and reference of drawn shapes stay in range, and the
/// reference area fits.
pub open spec fn boundary_fits(drawn: Seq<Drawn>, bound: (i16, i16), reference: (i16, i16)) -> bool {
    let outer = merged_shapes(shapes_or_none(layer_of(drawn, bound)));
    let base = merged_shapes(shapes_or_none(layer_of(drawn, reference)));
    &&& shapes_in_range(outer)
    &&& shapes_in_range(base)
    &&& outer_area2(base, base.len() as int) <= i128::MAX
}

impl Chip {
    /// The parts belong together and are in range.
    pub open spec fn valid(self) -> bool {
        &&& self.map.valid()
        &&& self.area.in_range()
        &&& self.area.ordered()
        &&& self.outline.valid()
        &&& self.density_area >= 0
        &&& shapes_in_range(shapes_of(self.cores@))
    }

    /// The chip holds what a run reads of the drawn shapes.
    pub open spec fn holds_drawn(self, ctx: RunContext, targets: Seq<usize>, purpose: Purpose, drawn: Seq<Drawn>) -> bool {
        let bound = boundary_key(ctx.pdk, purpose)->0;
        let reference = ctx.pdk.density_boundary_layer->0;
        let outer = shapes_or_none(layer_of(drawn, bound));
        let base = merged_shapes(shapes_or_none(layer_of(drawn, reference)));
        &&& self.area == bounds(all_points(outer, outer.len() as int))
        &&& self.outline.exteriors() == merged_shapes(outer).map_values(|s: Shape| doubled_exterior(s))
        &&& self.density_area == outer_area2(base, base.len() as int)
        &&& forall|key: (i16, i16)| #[trigger]
            self.map.layer(key) == if key == bound || key == reference {
                None
            } else {
                layer_of(drawn, key)
            }
        &&& shapes_of(self.cores@) == if purpose == Purpose::Fill && family_of_process(ctx.process@) == Some(
            ProcessFamily::IhpSg13,
        ) {
            match ihp_sg13::core_rect(self.map.shapes(ihp_sg13::CORE), ctx.pdk.db_unit_nm as int) {
                Some(r) => seq![Shape { exterior: r.ring(), holes: Seq::empty() }],
                None => Seq::empty(),
            }
        } else {
            Seq::empty()
        }
    }

    /// Load a chip: collect the layers of the targets and those that the rules
    /// read, and take the bounding box and outline of the boundary and the area
    /// inside the reference.
    pub fn load(ctx: &RunContext, layout: &Layout, targets: &Vec<usize>, purpose: Purpose) -> (r: Result<Chip, RunError>)
        requires
            forall|i: int| 0 <= i < targets@.len() ==> (#[trigger] targets@[i]) < ctx.pdk.layers@.len(),
        ensures
            ({
                let bound = boundary_key(ctx.pdk, purpose);
                let reference = ctx.pdk.density_boundary_layer;
                let flat = flat_tops(
                    layout.cells@,
                    Some(run_keys(*ctx, targets@, purpose)),
                    layout.cells@.len() as int,
                );
                if bound is None || reference is None {
                    r == Err::<Chip, RunError>(RunError::NoBoundaryLayer)
                } else if !(0 < ctx.pdk.db_unit_nm <= LENGTH_LIMIT) {
                    r == Err::<Chip, RunError>(RunError::Unusable)
                } else {
                    match flat {
                        Err(e) => r == Err::<Chip, RunError>(RunError::Layout(e)),
                        Ok(drawn) => {
                            let outer = shapes_or_none(layer_of(drawn, bound->0));
                            if all_points(outer, outer.len() as int).len() == 0 {
                                r == Err::<Chip, RunError>(RunError::BoundaryMissing((bound->0).0, (bound->0).1))
                            } else if !boundary_fits(drawn, bound->0, reference->0) {
                                r == Err::<Chip, RunError>(RunError::OutOfRange)
                            } else {
                                r matches Ok(chip) && chip.valid() && chip.holds_drawn(*ctx, targets@, purpose, drawn)
                            }
                        },
                    }
                }
            }),
    {
        let pdk = &ctx.pdk;
        let fill_bound = match purpose {
            Purpose::Fill => pdk.fill_boundary_layer,
            Purpose::Density => pdk.density_boundary_layer,
        };
        let (bound, reference) = match (fill_bound, pdk.density_boundary_layer) {
            (Some(b), Some(d)) => (b, d),
            _ => {
                return Err(RunError::NoBoundaryLayer);
            },
        };
        if !(0 < pdk.db_unit_nm && pdk.db_unit_nm <= LENGTH_LIMIT) {
            return Err(RunError::Unusable);
        }
        let needed = Some(list_keys(ctx, targets, purpose, bound, reference));
        let mut map = match LayerMap::build_for(layout, &needed) {
            Ok(m) => m,
            Err(e) => {
                return Err(RunError::Layout(e));
            },
        };
        let ghost drawn = flat_tops(layout.cells@, Some(run_keys(*ctx, targets@, purpose)), layout.cells@.len() as int)->Ok_0;
        let ghost outer = shapes_or_none(layer_of(drawn, bound));
        assert(map.shapes(bound) == outer);
        let area = match map.bbox(bound.0, bound.1) {
            Some(b) => b,
            None => {
                return Err(RunError::BoundaryMissing(bound.0, bound.1));
            },
        };
        if !map.merge(bound.0, bound.1) {
            return Err(RunError::OutOfRange);
        }
        assert(map.shapes(bound) == merged_shapes(outer));
        let outline = Outline::new(map.polygons(bound.0, bound.1));
        let ghost base = merged_shapes(shapes_or_none(layer_of(drawn, reference)));
        if reference.0 != bound.0 || reference.1 != bound.1 {
            assert(map.shapes(reference) == shapes_or_none(layer_of(drawn, reference)));
            if !map.merge(reference.0, reference.1) {
                return Err(RunError::OutOfRange);
            }
        }
        proof {
            if layer_of(drawn, reference) is None {
                assert(base =~= Seq::empty());
            }
            assert(map.shapes(reference) == base);
        }
        let density_area = match reference_area(map.polygons(reference.0, reference.1)) {
            Some(a) => a,
            None => {
                return Err(RunError::OutOfRange);
            },
        };
        map.drop(bound.0, bound.1);
        map.drop(reference.0, reference.1);
        let cores = match (purpose, process_family(ctx.process.as_str())) {
            (Purpose::Fill, Some(ProcessFamily::IhpSg13)) => ihp_sg13::compute_core_area(&map, ctx.pdk.db_unit_nm),
            _ => {
                let none: Vec<Polygon> = Vec::new();
                assert(shapes_of(none@) =~= Seq::empty());
                none
            },
        };
        Ok(Chip { map, area, outline, density_area, cores })
    }
}

/// All layers and datatypes that a run reads.
fn list_keys(
    ctx: &RunContext,
    targets: &Vec<usize>,
    purpose: Purpose,
    bound: (i16, i16),
    reference: (i16, i16),
) -> (keys: Vec<(i16, i16)>)
    requires
        forall|i: int| 0 <= i < targets@.len() ==> (#[trigger] targets@[i]) < ctx.pdk.layers@.len(),
        boundary_key(ctx.pdk, purpose) == Some(bound),
        ctx.pdk.density_boundary_layer == Some(reference),
    ensures
        keys@ == run_keys(*ctx, targets@, purpose),
{
    let ghost start = seq![bound, reference];
    let mut keys: Vec<(i16, i16)> = Vec::new();
    keys.push(bound);
    keys.push(reference);
    let mut i: usize = 0;
    assert(keys@ =~= start + targets_keys(ctx.pdk, targets@, purpose, 0));
    while i < targets.len()
        invariant
            i <= targets@.len(),
            forall|k: int| 0 <= k < targets@.len() ==> (#[trigger] targets@[k]) < ctx.pdk.layers@.len(),
            keys@ == start + targets_keys(ctx.pdk, targets@, purpose, i as int),
        decreases targets@.len() - i,
    {
        assert(targets@[i as int] < ctx.pdk.layers@.len());
        let layer = &ctx.pdk.layers[targets[i]].1;
        keys.push((layer.gds_layer, layer.drawing_datatype));
        keys.push((layer.gds_layer, layer.fill_datatype));
        match (purpose, layer.nofill_datatype) {
            (Purpose::Fill, Some(dt)) => {
                keys.push((layer.gds_layer, dt));
            },
            _ => {},
        }
        assert(keys@ =~= start + targets_keys(ctx.pdk, targets@, purpose, i + 1));
        i = i + 1;
    }
    match (purpose, process_family(ctx.process.as_str())) {
        (Purpose::Fill, Some(ProcessFamily::IhpSg13)) => {
            let mut more = ihp_sg13::needed_layers();
            keys.append(&mut more);
        },
        (Purpose::Fill, Some(ProcessFamily::Gf180mcu)) => {
            let mut more = gf180mcu::needed_layers();
            keys.append(&mut more);
        },
        _ => {},
    }
    assert(keys@ =~= run_keys(*ctx, targets@, purpose));
    keys
}

/// The chip reaches as far as its boundary: no point of a shape on the boundary
/// layer of the run lies outside of it, and each of its sides goes through one.
pub proof fn chip_is_drawn_around_its_boundary(
    chip: Chip,
    ctx: RunContext,
    targets: Seq<usize>,
    purpose: Purpose,
    drawn: Seq<Drawn>,
    shapes: Seq<Shape>,
)
    requires
        chip.holds_drawn(ctx, targets, purpose, drawn),
        match purpose {
            Purpose::Fill => ctx.pdk.fill_boundary_layer matches Some(key) && layer_of(drawn, key) == Some(shapes),
            Purpose::Density => ctx.pdk.density_boundary_layer matches Some(key) && layer_of(drawn, key) == Some(shapes),
        },
        all_points(shapes, shapes.len() as int).len() > 0,
    ensures
        forall|k: int, i: int|
            0 <= k < shapes.len() && 0 <= i < shapes[k].exterior.len() ==> chip.area.x0 <= (
            #[trigger] shapes[k].exterior[i]).x <= chip.area.x1 && chip.area.y0 <= shapes[k].exterior[i].y
                <= chip.area.y1,
        exists|k: int| 0 <= k < shapes.len() && #[trigger] has_point_at(shapes[k], Some(chip.area.x0 as int), None),
        exists|k: int| 0 <= k < shapes.len() && #[trigger] has_point_at(shapes[k], Some(chip.area.x1 as int), None),
        exists|k: int| 0 <= k < shapes.len() && #[trigger] has_point_at(shapes[k], None, Some(chip.area.y0 as int)),
        exists|k: int| 0 <= k < shapes.len() && #[trigger] has_point_at(shapes[k], None, Some(chip.area.y1 as int)),
{
    box_is_drawn_around_the_shapes(shapes);
}

/// The reference area of a chip with one polygon on the reference layer is that
/// inside the polygon, its holes counted in.
pub proof fn reference_is_the_density_boundary(
    chip: Chip,
    ctx: RunContext,
    targets: Seq<usize>,
    purpose: Purpose,
    drawn: Seq<Drawn>,
    s: Shape,
)
    requires
        chip.holds_drawn(ctx, targets, purpose, drawn),
        ctx.pdk.density_boundary_layer matches Some(key) && layer_of(drawn, key) == Some(seq![s]),
    ensures
        chip.density_area == abs_of(ring_area2(s.exterior)),
{
    let base = seq![s];
    assert(merged_shapes(base) == base);
    reveal_with_fuel(outer_area2, 2);
}

/// Every other layer is there as it is drawn, and the boundaries are not.
pub proof fn chip_holds_the_other_layers(
    chip: Chip,
    ctx: RunContext,
    targets: Seq<usize>,
    purpose: Purpose,
    drawn: Seq<Drawn>,
    key: (i16, i16),
)
    requires
        chip.holds_drawn(ctx, targets, purpose, drawn),
        ctx.pdk.fill_boundary_layer is Some,
        ctx.pdk.density_boundary_layer is Some,
    ensures
        ctx.pdk.fill_boundary_layer != Some(key) && ctx.pdk.density_boundary_layer != Some(key) ==> chip.map.layer(key)
            == layer_of(drawn, key),
        ctx.pdk.density_boundary_layer == Some(key) ==> chip.map.layer(key) is None,
        purpose == Purpose::Fill && ctx.pdk.fill_boundary_layer == Some(key) ==> chip.map.layer(key) is None,
{
    assert(chip.map.layer(key) == chip.map.layer(key));
}

/// A run reads the boundary, the drawing and the fill of each target, for fill its
/// no-fill markers too, and what the rules of the process need.
pub proof fn run_reads_targets_and_rules(ctx: RunContext, targets: Seq<usize>, purpose: Purpose, k: int, i: int)
    requires
        0 <= k < targets.len(),
        ctx.pdk.fill_boundary_layer is Some,
        ctx.pdk.density_boundary_layer is Some,
    ensures
        ({
            let keys = run_keys(ctx, targets, purpose);
            let layer = ctx.pdk.layers@[targets[k] as int].1;
            &&& keys.contains((layer.gds_layer, layer.drawing_datatype))
            &&& keys.contains((layer.gds_layer, layer.fill_datatype))
            &&& purpose == Purpose::Fill ==> (layer.nofill_datatype matches Some(d) ==> keys.contains((layer.gds_layer, d)))
            &&& keys.contains(ctx.pdk.density_boundary_layer->0)
            &&& purpose == Purpose::Fill ==> keys.contains(ctx.pdk.fill_boundary_layer->0)
            &&& purpose == Purpose::Fill && family_of_process(ctx.process@) == Some(ProcessFamily::IhpSg13) ==> (0 <= i
                < ihp_sg13::needed().len() ==> keys.contains(ihp_sg13::needed()[i]))
            &&& purpose == Purpose::Fill && family_of_process(ctx.process@) == Some(ProcessFamily::Gf180mcu) ==> (0 <= i
                < gf180mcu::needed().len() ==> keys.contains(gf180mcu::needed()[i]))
        }),
{
    let keys = run_keys(ctx, targets, purpose);
    let n = targets.len() as int;
    let own = targets_keys(ctx.pdk, targets, purpose, n);
    let layer = ctx.pdk.layers@[targets[k] as int].1;
    let mine = target_keys(layer, purpose);
    assert(mine[0] == (layer.gds_layer, layer.drawing_datatype));
    assert(mine[1] == (layer.gds_layer, layer.fill_datatype));
    target_is_read(ctx, targets, purpose, n, k, 0);
    target_is_read(ctx, targets, purpose, n, k, 1);
    if purpose == Purpose::Fill && layer.nofill_datatype is Some {
        assert(mine[2] == (layer.gds_layer, layer.nofill_datatype->0));
        target_is_read(ctx, targets, purpose, n, k, 2);
    }
    assert forall|key: (i16, i16)| #[trigger] own.contains(key) implies keys.contains(key) by {
        let b = choose|b: int| 0 <= b < own.len() && own[b] == key;
        assert(keys[2 + b] == key);
    }
    assert(keys[0] == boundary_key(ctx.pdk, purpose)->0);
    assert(keys[1] == ctx.pdk.density_boundary_layer->0);
    let rules = rule_keys(ctx.process@, purpose);
    if 0 <= i < rules.len() {
        assert(keys[2 + own.len() + i] == rules[i]);
    }
}

proof fn target_is_read(ctx: RunContext, targets: Seq<usize>, purpose: Purpose, n: int, k: int, i: int)
    requires
        0 <= k < n <= targets.len(),
        0 <= i < target_keys(ctx.pdk.layers@[targets[k] as int].1, purpose).len(),
    ensures
        targets_keys(ctx.pdk, targets, purpose, n).contains(
            target_keys(ctx.pdk.layers@[targets[k] as int].1, purpose)[i],
        ),
    decreases n,
{
    let (before, now) = (targets_keys(ctx.pdk, targets, purpose, n - 1), targets_keys(ctx.pdk, targets, purpose, n));
    let key = target_keys(ctx.pdk.layers@[targets[k] as int].1, purpose)[i];
    if k == n - 1 {
        assert(now[before.len() + i] == key);
    } else {
        target_is_read(ctx, targets, purpose, n - 1, k, i);
        let b = choose|b: int| 0 <= b < before.len() && before[b] == key;
        assert(now[b] == key);
    }
}

/// Of up to 8192 drawn shapes of a layer, those count towards its area whose box lies
/// in that of no larger one.
pub proof fn outermost_shapes_count(map: LayerMap, layer: PdkLayer, s: Shape)
    requires
        map.shapes((layer.gds_layer, layer.drawing_datatype)).len() <= 8192,
    ensures
        ({
            let all = map.shapes((layer.gds_layer, layer.drawing_datatype));
            counted_shapes(map, layer).contains(s) <==> exists|i: int|
                0 <= i < all.len() && (#[trigger] all[i]) == s && forall|j: int| !#[trigger] lies_in_larger(all, i, j)
        }),
{
    only_the_contained_go(map.shapes((layer.gds_layer, layer.drawing_datatype)), s);
}

} // verus!
