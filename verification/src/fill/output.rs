//! What a run places and writes, layer by layer.

use crate::area::check_polygons;
use crate::boundary::poly_points;
use crate::boundary::poly_to_boundary;
use crate::boundary::rect_points;
use crate::boundary::rect_to_boundary;
use crate::context::DEBUG_KEEPOUT_DT;
use crate::context::DEBUG_MERGED_DT;
use crate::context::RunContext;
use crate::erase::erase_keeps_the_clean;
use crate::erase::erase_undoes_fill;
use crate::erase::erased;
use crate::erase::is_on;
use crate::erase::is_output_of;
use crate::erase::may_write;
use crate::erase::what_fill_writes_is_erased;
use crate::erase::EraseTargets;
use crate::fill::are_fill_rects;
use crate::fill::is_fill_rect;
use crate::fill::plan::layout_rects;
use crate::fill::plan::placed_on;
use crate::fill::plan::reference_key;
use crate::fill::plan::references;
use crate::fill::plan::LayerPlan;
use crate::fill::plan::PlacedLayer;
use crate::fill::plan::TileFill;
use crate::fill::report::all_rects;
use crate::fill::report::collect_rects;
use crate::fill::report::tiles_filled;
use crate::geom::all_in_reach;
use crate::geom::copy_polygons;
use crate::geom::shapes_in_range;
use crate::geom::shapes_in_reach;
use crate::geom::shapes_of;
use crate::geom::Polygon;
use crate::geom::Rect;
use crate::geom::Shape;
use crate::layout::Boundary;
use crate::layout::BoundaryView;
use crate::layout::Element;
use crate::overlay::merge_polygons;
use crate::overlay::merged_shapes;
use crate::pdk::PdkConstants;
use crate::pdk::PdkLayer;
use crate::touch::keepouts_of;
use vstd::prelude::*;

verus! {

/// What has been placed so far, and what will be written.
#[derive(Debug)]
pub struct FillOutput {
    /// The fill of each layer done.
    pub placed: Vec<PlacedLayer>,
    /// The elements to write.
    pub boundaries: Vec<Boundary>,
}

/// The elements as values.
pub open spec fn boundaries_of(list: Seq<Boundary>) -> Seq<BoundaryView> {
    list.map_values(|b: Boundary| b@)
}

/// Shapes as they are written on a layer and datatype.
pub open spec fn written_shapes(shapes: Seq<Shape>, layer: i16, datatype: i16) -> Seq<BoundaryView> {
    shapes.map_values(|s: Shape| BoundaryView { layer, datatype, xy: poly_points(s) })
}

/// Rectangles as they are written on a layer and datatype.
pub open spec fn written_rects(rects: Seq<Rect>, layer: i16, datatype: i16) -> Seq<BoundaryView> {
    rects.map_values(|r: Rect| BoundaryView { layer, datatype, xy: rect_points(r) })
}

/// The merged metal of a layer, drawn and filled; `None` if it leaves the
/// supported range.
pub fn merged_metal(drawing: &[Polygon], filled: &[Polygon]) -> (out: Option<Vec<Polygon>>)
    requires
        shapes_in_range(shapes_of(drawing@)),
        shapes_in_range(shapes_of(filled@)),
    ensures
        out is Some <==> shapes_in_range(merged_shapes(shapes_of(drawing@) + shapes_of(filled@))),
        out matches Some(v) ==> shapes_of(v@) == merged_shapes(shapes_of(drawing@) + shapes_of(filled@)),
{
    let ghost (x, y) = (shapes_of(drawing@), shapes_of(filled@));
    let mut all = copy_polygons(drawing);
    let mut rest = copy_polygons(filled);
    all.append(&mut rest);
    proof {
        assert(shapes_of(all@) =~= x + y);
        assert forall|i: int| 0 <= i < shapes_of(all@).len() implies (#[trigger] shapes_of(all@)[i]).in_range() by {
            if i < x.len() {
                assert(x[i].in_range());
            } else {
                assert(y[i - x.len()].in_range());
            }
        }
    }
    let merged = merge_polygons(&all);
    if check_polygons(&merged) {
        Some(merged)
    } else {
        None
    }
}

/// Add a polygon to what is written.
fn push_polygon(out: &mut Vec<Boundary>, p: &Polygon, layer: i16, datatype: i16)
    requires
        p@.in_reach(),
    ensures
        boundaries_of(final(out)@) == boundaries_of(old(out)@).push(
            BoundaryView { layer, datatype, xy: poly_points(p@) },
        ),
{
    let ghost before = out@;
    let b = poly_to_boundary(p, layer, datatype);
    let ghost view = b@;
    out.push(b);
    assert(boundaries_of(out@) =~= boundaries_of(before).push(view));
}

/// The layer is a target of the run.
pub open spec fn is_target(ctx: RunContext, targets: Seq<usize>, layer: PdkLayer) -> bool {
    exists|k: int| 0 <= k < targets.len() && #[trigger] ctx.pdk.layers@[targets[k] as int].1 == layer
}

/// Elements on the fill or inspection datatypes of a target may be written.
proof fn output_is_on(ctx: RunContext, targets: Seq<usize>, layer: PdkLayer, list: Seq<BoundaryView>)
    requires
        is_target(ctx, targets, layer),
        forall|i: int| 0 <= i < list.len() ==> is_output_of(layer, #[trigger] list[i]),
    ensures
        forall|i: int| 0 <= i < list.len() ==> may_write(ctx, targets, #[trigger] list[i]),
{
    let k = choose|k: int| 0 <= k < targets.len() && #[trigger] ctx.pdk.layers@[targets[k] as int].1 == layer;
    assert forall|i: int| 0 <= i < list.len() implies may_write(ctx, targets, #[trigger] list[i]) by {
        assert(is_output_of(ctx.pdk.layers@[targets[k] as int].1, list[i]));
    }
}

/// What is written stays on the keys of the targets when elements of one of them
/// are added.
proof fn adding_stays_on(start: FillOutput, end: FillOutput, layer: PdkLayer, more: Seq<BoundaryView>)
    requires
        boundaries_of(end.boundaries@) == boundaries_of(start.boundaries@) + more,
        forall|i: int| 0 <= i < more.len() ==> is_output_of(layer, #[trigger] more[i]),
    ensures
        forall|ctx: RunContext, targets: Seq<usize>|
            start.stays_on(ctx, targets) && is_target(ctx, targets, layer) ==> #[trigger] end.stays_on(ctx, targets),
{
    assert forall|ctx: RunContext, targets: Seq<usize>|
        start.stays_on(ctx, targets) && is_target(ctx, targets, layer) implies #[trigger] end.stays_on(ctx, targets) by {
        output_is_on(ctx, targets, layer, more);
        let (before, now) = (boundaries_of(start.boundaries@), boundaries_of(end.boundaries@));
        assert forall|i: int| 0 <= i < now.len() implies may_write(ctx, targets, #[trigger] now[i]) by {
            if i < before.len() {
                assert(now[i] == before[i]);
            } else {
                assert(now[i] == more[i - before.len()]);
            }
        }
    }
}

proof fn placed_before(before: Seq<PlacedLayer>, now: Seq<PlacedLayer>, key: (i16, i16), n: int)
    requires
        0 <= n <= before.len(),
        now.drop_last() == before,
        now.len() > 0,
    ensures
        placed_on(now, key, n) == placed_on(before, key, n),
    decreases n,
{
    if n > 0 {
        placed_before(before, now, key, n - 1);
        assert(now.drop_last()[n - 1] == now[n - 1]);
    }
}

/// The elements are those that the output writes.
pub open spec fn are_written(added: Seq<Element>, output: FillOutput) -> bool {
    &&& added.len() == output.boundaries@.len()
    &&& forall|i: int|
        0 <= i < added.len() ==> (#[trigger] added[i] matches Element::Boundary(b) && b@ == output.boundaries@[i]@)
}

/// Erasing undoes filling: with all that a fill of the targets writes appended to
/// a cell, an erasure with the same configuration leaves what it leaves of the cell
/// itself, and the cell as it was if that held no fill and no inspection shapes.
pub proof fn erasing_undoes_filling(
    ctx: RunContext,
    targets: Seq<usize>,
    output: FillOutput,
    t: EraseTargets,
    elems: Seq<Element>,
    added: Seq<Element>,
)
    requires
        ctx.is_target_list(targets),
        output.stays_on(ctx, targets),
        t.are_those_of(ctx),
        are_written(added, output),
    ensures
        erased(elems + added, t) == erased(elems, t),
        (forall|i: int| 0 <= i < elems.len() ==> !is_on(#[trigger] elems[i], t.fill@) && !is_on(elems[i], t.debug@))
            ==> erased(elems + added, t) == elems,
{
    let list = boundaries_of(output.boundaries@);
    assert forall|i: int| 0 <= i < added.len() implies is_on(#[trigger] added[i], t.fill@) || is_on(
        added[i],
        t.debug@,
    ) by {
        assert(may_write(ctx, targets, list[i]));
        what_fill_writes_is_erased(ctx, targets, t, added[i]);
    }
    erase_undoes_fill(elems, added, t);
    if forall|i: int| 0 <= i < elems.len() ==> !is_on(#[trigger] elems[i], t.fill@) && !is_on(elems[i], t.debug@) {
        erase_keeps_the_clean(elems, t);
    }
}

impl FillOutput {
    /// Everything to write is on the fill datatype or an inspection datatype of a
    /// target.
    pub open spec fn stays_on(self, ctx: RunContext, targets: Seq<usize>) -> bool {
        forall|i: int|
            0 <= i < boundaries_of(self.boundaries@).len() ==> may_write(
                ctx,
                targets,
                #[trigger] boundaries_of(self.boundaries@)[i],
            )
    }

    /// Nothing placed yet.
    pub fn new() -> (o: FillOutput)
        ensures
            o.placed@.len() == 0,
            o.boundaries@.len() == 0,
            forall|ctx: RunContext, targets: Seq<usize>| #[trigger] o.stays_on(ctx, targets),
    {
        FillOutput { placed: Vec::new(), boundaries: Vec::new() }
    }

    /// Add the keep-outs and the merged metal of a layer, for inspection.
    /// Returns false, and adds nothing, if the merged metal leaves the supported
    /// range.
    pub fn add_inspection(&mut self, plan: &LayerPlan) -> (done: bool)
        requires
            plan.valid(),
        ensures
            final(self).placed == old(self).placed,
            done == shapes_in_range(merged_shapes(plan.all_metal())),
            !done ==> boundaries_of(final(self).boundaries@) == boundaries_of(old(self).boundaries@),
            done ==> boundaries_of(final(self).boundaries@) == boundaries_of(old(self).boundaries@) + written_shapes(
                plan.keepout_shapes(),
                plan.layer.gds_layer,
                DEBUG_KEEPOUT_DT,
            ) + written_shapes(
                merged_shapes(plan.all_metal()),
                plan.layer.gds_layer,
                DEBUG_MERGED_DT,
            ),
            forall|ctx: RunContext, targets: Seq<usize>|
                old(self).stays_on(ctx, targets) && is_target(ctx, targets, *plan.layer)
                    ==> #[trigger] final(self).stays_on(ctx, targets),
    {
        let drawing = plan.chip.map.polygons(plan.layer.gds_layer, plan.layer.drawing_datatype);
        let metal = match merged_metal(drawing, plan.filled) {
            Some(v) => v,
            None => {
                return false;
            },
        };
        let ghost start = boundaries_of(self.boundaries@);
        let gds = plan.layer.gds_layer;
        let ghost views = keepouts_of(plan.keepouts@);
        let ghost solid = plan.keepout_shapes();
        let mut i: usize = 0;
        assert(start + written_shapes(solid.take(0), gds, DEBUG_KEEPOUT_DT) =~= start);
        while i < plan.keepouts.len()
            invariant
                i <= plan.keepouts@.len(),
                plan.valid(),
                gds == plan.layer.gds_layer,
                views == keepouts_of(plan.keepouts@),
                solid == plan.keepout_shapes(),
                self.placed == old(self).placed,
                boundaries_of(self.boundaries@) == start + written_shapes(
                    solid.take(i as int),
                    gds,
                    DEBUG_KEEPOUT_DT,
                ),
            decreases plan.keepouts@.len() - i,
        {
            assert(views[i as int].in_reach());
            assert(views[i as int] == plan.keepouts@[i as int]@);
            if let Some(p) = &plan.keepouts[i].shape {
                push_polygon(&mut self.boundaries, p, gds, DEBUG_KEEPOUT_DT);
                assert(solid[i as int] == p@);
            }
            assert(start + written_shapes(solid.take(i + 1), gds, DEBUG_KEEPOUT_DT) =~= (start + written_shapes(
                solid.take(i as int),
                gds,
                DEBUG_KEEPOUT_DT,
            )).push(BoundaryView { layer: gds, datatype: DEBUG_KEEPOUT_DT, xy: poly_points(solid[i as int]) }));
            i = i + 1;
        }
        assert(solid.take(i as int) =~= solid);
        let ghost middle = boundaries_of(self.boundaries@);
        let ghost drawn = shapes_of(metal@);
        let n = metal.len();
        let mut i: usize = 0;
        proof {
            all_in_reach(drawn);
            assert(middle + written_shapes(drawn.take(0), gds, DEBUG_MERGED_DT) =~= middle);
        }
        while i < n
            invariant
                i <= n,
                n == metal@.len(),
                drawn == shapes_of(metal@),
                shapes_in_reach(drawn),
                self.placed == old(self).placed,
                boundaries_of(self.boundaries@) == middle + written_shapes(drawn.take(i as int), gds, DEBUG_MERGED_DT),
            decreases n - i,
        {
            assert(drawn[i as int] == metal@[i as int]@);
            assert(drawn[i as int].in_reach());
            push_polygon(&mut self.boundaries, &metal[i], gds, DEBUG_MERGED_DT);
            assert(middle + written_shapes(drawn.take(i + 1), gds, DEBUG_MERGED_DT) =~= (middle + written_shapes(
                drawn.take(i as int),
                gds,
                DEBUG_MERGED_DT,
            )).push(BoundaryView { layer: gds, datatype: DEBUG_MERGED_DT, xy: poly_points(drawn[i as int]) }));
            i = i + 1;
        }
        assert(drawn.take(i as int) =~= drawn);
        proof {
            let more = written_shapes(solid, gds, DEBUG_KEEPOUT_DT) + written_shapes(drawn, gds, DEBUG_MERGED_DT);
            assert(boundaries_of(self.boundaries@) =~= start + more);
            adding_stays_on(*old(self), *self, *plan.layer, more);
        }
        true
    }

    /// Add the fill of a layer: its rectangles are written on the fill
    /// datatype, and later layers may refer to them.  Returns their number.
    pub fn add_layer(&mut self, layer: &PdkLayer, tiles: &Vec<TileFill>) -> (count: usize)
        requires
            tiles_filled(tiles@),
        ensures
            ({
                let rects = all_rects(tiles@, tiles@.len() as int);
                &&& count == rects.len()
                &&& final(self).placed@.len() == old(self).placed@.len() + 1
                &&& final(self).placed@.drop_last() == old(self).placed@
                &&& final(self).placed@.last().key == (layer.gds_layer, layer.fill_datatype)
                &&& final(self).placed@.last().rects@ == rects
                &&& boundaries_of(final(self).boundaries@) == boundaries_of(old(self).boundaries@) + written_rects(
                    rects,
                    layer.gds_layer,
                    layer.fill_datatype,
                )
            }),
            forall|ctx: RunContext, targets: Seq<usize>|
                old(self).stays_on(ctx, targets) && is_target(ctx, targets, *layer)
                    ==> #[trigger] final(self).stays_on(ctx, targets),
            forall|pdk: PdkConstants, over: PdkLayer| #[trigger]
                references(pdk, over, final(self).placed@) == if reference_key(pdk, over.algorithms@, 0) == Some(
                    (layer.gds_layer, layer.fill_datatype),
                ) {
                    layout_rects(
                        all_rects(tiles@, tiles@.len() as int),
                        all_rects(tiles@, tiles@.len() as int).len() as int,
                    )
                } else {
                    references(pdk, over, old(self).placed@)
                },
    {
        let rects = collect_rects(tiles);
        let (gds, datatype) = (layer.gds_layer, layer.fill_datatype);
        let ghost start = boundaries_of(self.boundaries@);
        let ghost all = rects@;
        let n = rects.len();
        let mut i: usize = 0;
        assert(start + written_rects(all.take(0), gds, datatype) =~= start);
        while i < n
            invariant
                i <= n,
                n == rects@.len(),
                all == rects@,
                are_fill_rects(all),
                self.placed == old(self).placed,
                boundaries_of(self.boundaries@) == start + written_rects(all.take(i as int), gds, datatype),
            decreases n - i,
        {
            assert(is_fill_rect(all[i as int]));
            let ghost before = self.boundaries@;
            let b = rect_to_boundary(&rects[i], gds, datatype);
            let ghost view = b@;
            self.boundaries.push(b);
            proof {
                assert(boundaries_of(self.boundaries@) =~= boundaries_of(before).push(view));
                assert(start + written_rects(all.take(i + 1), gds, datatype) =~= (start + written_rects(
                    all.take(i as int),
                    gds,
                    datatype,
                )).push(BoundaryView { layer: gds, datatype, xy: rect_points(all[i as int]) }));
            }
            i = i + 1;
        }
        assert(all.take(i as int) =~= all);
        self.placed.push(PlacedLayer { key: (gds, datatype), rects });
        proof {
            assert(self.placed@.drop_last() =~= old(self).placed@);
            adding_stays_on(*old(self), *self, *layer, written_rects(all, gds, datatype));
            let (before, now) = (old(self).placed@, self.placed@);
            assert forall|pdk: PdkConstants, over: PdkLayer| #[trigger] references(pdk, over, now) == if reference_key(
                pdk,
                over.algorithms@,
                0,
            ) == Some((gds, datatype)) {
                layout_rects(all, all.len() as int)
            } else {
                references(pdk, over, before)
            } by {
                if let Some(key) = reference_key(pdk, over.algorithms@, 0) {
                    placed_before(before, now, key, before.len() as int);
                }
            }
        }
        n
    }
}

} // verus!
