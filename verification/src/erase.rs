//! Removal of fill from a layout.

use crate::context::target_positions;
use crate::context::targets_hold_alike;
use crate::context::DEBUG_KEEPOUT_DT;
use crate::context::DEBUG_MERGED_DT;
use crate::context::RunContext;
use crate::layout::is_fill_element;
use crate::layout::BoundaryView;
use crate::layout::Cell;
use crate::layout::Element;
use crate::layout::Layout;
use crate::pdk::PdkLayer;
use vstd::prelude::*;

verus! {

/// The layers and datatypes to erase.
#[derive(Debug)]
pub struct EraseTargets {
    /// Those of generated fill.
    pub fill: Vec<(i16, i16)>,
    /// Those of shapes written for inspection.
    pub debug: Vec<(i16, i16)>,
}

/// The fill of each target layer.
pub open spec fn fill_keys(ctx: RunContext, positions: Seq<usize>) -> Seq<(i16, i16)> {
    positions.map_values(|p: usize| (ctx.pdk.layers@[p as int].1.gds_layer, ctx.pdk.layers@[p as int].1.fill_datatype))
}

/// The inspection shapes of each target layer: keep-outs and merged shapes.
pub open spec fn debug_keys(ctx: RunContext, positions: Seq<usize>, n: int) -> Seq<(i16, i16)>
    decreases n,
{
    if n <= 0 {
        Seq::empty()
    } else {
        let gds = ctx.pdk.layers@[positions[n - 1] as int].1.gds_layer;
        debug_keys(ctx, positions, n - 1).push((gds, DEBUG_KEEPOUT_DT)).push((gds, DEBUG_MERGED_DT))
    }
}

impl EraseTargets {
    /// These are the fill and the inspection shapes of the targets of a run.
    pub open spec fn are_those_of(self, ctx: RunContext) -> bool {
        exists|positions: Seq<usize>|
            #[trigger] ctx.is_target_list(positions) && self.fill@ == fill_keys(ctx, positions) && self.debug@
                == debug_keys(ctx, positions, positions.len() as int)
    }
}

/// What to erase: the fill datatype and both inspection datatypes of every
/// target layer.
pub fn erase_targets(ctx: &RunContext) -> (t: EraseTargets)
    ensures
        t.are_those_of(*ctx),
{
    let positions = target_positions(ctx);
    let mut fill: Vec<(i16, i16)> = Vec::new();
    let mut debug: Vec<(i16, i16)> = Vec::new();
    let mut i: usize = 0;
    while i < positions.len()
        invariant
            i <= positions@.len(),
            forall|k: int| 0 <= k < positions@.len() ==> (#[trigger] positions@[k]) < ctx.pdk.layers@.len(),
            fill@.len() == i,
            forall|k: int| 0 <= k < i ==> (#[trigger] fill@[k]) == fill_keys(*ctx, positions@)[k],
            debug@ == debug_keys(*ctx, positions@, i as int),
        decreases positions@.len() - i,
    {
        assert(positions@[i as int] < ctx.pdk.layers@.len());
        let layer = &ctx.pdk.layers[positions[i]].1;
        fill.push((layer.gds_layer, layer.fill_datatype));
        debug.push((layer.gds_layer, DEBUG_KEEPOUT_DT));
        debug.push((layer.gds_layer, DEBUG_MERGED_DT));
        i = i + 1;
    }
    assert(fill@ =~= fill_keys(*ctx, positions@));
    EraseTargets { fill, debug }
}

/// The element is drawn on one of the keys.
pub open spec fn is_on(e: Element, keys: Seq<(i16, i16)>) -> bool {
    e.drawn_on() matches Some(k) && keys.contains(k)
}

/// The number of the first `n` elements on one of the keys.
pub open spec fn count_on(elems: Seq<Element>, keys: Seq<(i16, i16)>, n: int) -> int
    decreases n,
{
    if n <= 0 {
        0
    } else {
        count_on(elems, keys, n - 1) + if is_on(elems[n - 1], keys) {
            1int
        } else {
            0int
        }
    }
}

/// The number of elements of the first `n` cells on one of the keys.
pub open spec fn count_in_cells(cells: Seq<Cell>, keys: Seq<(i16, i16)>, n: int) -> int
    decreases n,
{
    if n <= 0 {
        0
    } else {
        count_in_cells(cells, keys, n - 1) + count_on(cells[n - 1].elems@, keys, cells[n - 1].elems@.len() as int)
    }
}

/// What an erasure keeps, and how much it removes.
#[derive(Debug)]
pub struct ErasePlan {
    /// For each cell, which elements stay.
    pub keep: Vec<Vec<bool>>,
    pub erased_fill: u128,
    pub erased_debug: u128,
}

/// `flags` keeps exactly the elements on none of the targets.
pub open spec fn keeps_rest(elems: Seq<Element>, t: EraseTargets, flags: Seq<bool>) -> bool {
    &&& flags.len() == elems.len()
    &&& forall|e: int|
        0 <= e < elems.len() ==> (#[trigger] flags[e]) == !(is_on(elems[e], t.fill@) || is_on(elems[e], t.debug@))
}

/// Plan the erasure of a layout: which elements of each cell stay, and how many
/// fill and inspection elements go.
pub fn plan_erase(layout: &Layout, targets: &EraseTargets) -> (plan: ErasePlan)
    ensures
        plan.keep@.len() == layout.cells@.len(),
        forall|c: int|
            0 <= c < layout.cells@.len() ==> keeps_rest(
                (#[trigger] layout.cells@[c]).elems@,
                *targets,
                plan.keep@[c]@,
            ),
        plan.erased_fill == count_in_cells(layout.cells@, targets.fill@, layout.cells@.len() as int),
        plan.erased_debug == count_in_cells(layout.cells@, targets.debug@, layout.cells@.len() as int),
{
    let cells = &layout.cells;
    let mut keep: Vec<Vec<bool>> = Vec::new();
    let mut erased_fill: u128 = 0;
    let mut erased_debug: u128 = 0;
    let mut c: usize = 0;
    while c < cells.len()
        invariant
            c <= cells@.len(),
            keep@.len() == c,
            forall|b: int|
                0 <= b < c ==> keeps_rest((#[trigger] cells@[b]).elems@, *targets, keep@[b]@),
            erased_fill == count_in_cells(cells@, targets.fill@, c as int),
            erased_debug == count_in_cells(cells@, targets.debug@, c as int),
            erased_fill <= c * 0xffff_ffff_ffff_ffff,
            erased_debug <= c * 0xffff_ffff_ffff_ffff,
        decreases cells@.len() - c,
    {
        let n = cells[c].elems.len();
        let ghost elems = cells@[c as int].elems@;
        let mut flags: Vec<bool> = Vec::new();
        let mut fills: u128 = 0;
        let mut debugs: u128 = 0;
        let mut e: usize = 0;
        while e < n
            invariant
                c < cells@.len(),
                elems == cells@[c as int].elems@,
                n == elems.len(),
                e <= n,
                flags@.len() == e,
                forall|k: int|
                    0 <= k < e ==> (#[trigger] flags@[k]) == !(is_on(elems[k], targets.fill@) || is_on(
                        elems[k],
                        targets.debug@,
                    )),
                fills == count_on(elems, targets.fill@, e as int),
                debugs == count_on(elems, targets.debug@, e as int),
                fills <= e,
                debugs <= e,
            decreases n - e,
        {
            let on_fill = is_fill_element(&cells[c].elems[e], &targets.fill);
            let on_debug = is_fill_element(&cells[c].elems[e], &targets.debug);
            if on_fill {
                fills = fills + 1;
            }
            if on_debug {
                debugs = debugs + 1;
            }
            flags.push(!on_fill && !on_debug);
            e = e + 1;
        }
        keep.push(flags);
        erased_fill = erased_fill + fills;
        erased_debug = erased_debug + debugs;
        c = c + 1;
    }
    ErasePlan { keep, erased_fill, erased_debug }
}

/// The elements that stay.
pub open spec fn erased(elems: Seq<Element>, t: EraseTargets) -> Seq<Element> {
    elems.filter(|e: Element| !(is_on(e, t.fill@) || is_on(e, t.debug@)))
}

/// The elements that `flags` keeps among the first `n`.
pub open spec fn kept_by(elems: Seq<Element>, flags: Seq<bool>, n: int) -> Seq<Element>
    decreases n,
{
    if n <= 0 {
        Seq::empty()
    } else if flags[n - 1] {
        kept_by(elems, flags, n - 1).push(elems[n - 1])
    } else {
        kept_by(elems, flags, n - 1)
    }
}

/// The flags of a plan keep exactly the elements that are not erased, in order.
pub proof fn plan_keeps_the_rest(elems: Seq<Element>, t: EraseTargets, flags: Seq<bool>)
    requires
        keeps_rest(elems, t, flags),
    ensures
        kept_by(elems, flags, elems.len() as int) == erased(elems, t),
{
    kept_prefix(elems, t, flags, elems.len() as int);
    assert(elems.take(elems.len() as int) =~= elems);
}

proof fn kept_prefix(elems: Seq<Element>, t: EraseTargets, flags: Seq<bool>, n: int)
    requires
        keeps_rest(elems, t, flags),
        0 <= n <= elems.len(),
    ensures
        kept_by(elems, flags, n) == erased(elems.take(n), t),
    decreases n,
{
    let pred = |e: Element| !(is_on(e, t.fill@) || is_on(e, t.debug@));
    reveal(Seq::filter);
    if n > 0 {
        kept_prefix(elems, t, flags, n - 1);
        assert(elems.take(n).drop_last() =~= elems.take(n - 1));
        assert(elems.take(n).last() == elems[n - 1]);
        assert(flags[n - 1] == pred(elems[n - 1]));
    } else {
        assert(elems.take(0) =~= Seq::empty());
    }
}

/// Nothing that is left is fill or an inspection shape, and nothing is added.
pub proof fn erased_is_clean(elems: Seq<Element>, t: EraseTargets)
    ensures
        forall|i: int|
            0 <= i < erased(elems, t).len() ==> !is_on(#[trigger] erased(elems, t)[i], t.fill@) && !is_on(
                erased(elems, t)[i],
                t.debug@,
            ) && elems.contains(erased(elems, t)[i]),
    decreases elems.len(),
{
    reveal(Seq::filter);
    if elems.len() > 0 {
        let head = elems.drop_last();
        erased_is_clean(head, t);
        let (before, now) = (erased(head, t), erased(elems, t));
        assert forall|i: int| 0 <= i < now.len() implies !is_on(#[trigger] now[i], t.fill@) && !is_on(
            now[i],
            t.debug@,
        ) && elems.contains(now[i]) by {
            if i < before.len() {
                assert(now[i] == before[i]);
                let k = choose|k: int| 0 <= k < head.len() && head[k] == before[i];
                assert(elems[k] == now[i]);
            } else {
                assert(now[i] == elems[elems.len() - 1]);
            }
        }
    }
}

/// Elements that are none of the targets stay, all of them.
proof fn clean_stays(elems: Seq<Element>, t: EraseTargets)
    requires
        forall|i: int|
            0 <= i < elems.len() ==> !is_on(#[trigger] elems[i], t.fill@) && !is_on(elems[i], t.debug@),
    ensures
        erased(elems, t) == elems,
    decreases elems.len(),
{
    reveal(Seq::filter);
    if elems.len() > 0 {
        let head = elems.drop_last();
        assert forall|i: int| 0 <= i < head.len() implies !is_on(#[trigger] head[i], t.fill@) && !is_on(
            head[i],
            t.debug@,
        ) by {
            assert(head[i] == elems[i]);
        }
        clean_stays(head, t);
        assert(elems =~= head.push(elems.last()));
        assert(!is_on(elems[elems.len() - 1], t.fill@));
    } else {
        assert(erased(elems, t) =~= elems);
    }
}

/// Erasing twice is erasing once.
pub proof fn erase_is_idempotent(elems: Seq<Element>, t: EraseTargets)
    ensures
        erased(erased(elems, t), t) == erased(elems, t),
{
    erased_is_clean(elems, t);
    clean_stays(erased(elems, t), t);
}

/// One more element stays or not by itself.
proof fn erased_with_one_more(elems: Seq<Element>, e: Element, t: EraseTargets)
    ensures
        erased(elems.push(e), t) == if is_on(e, t.fill@) || is_on(e, t.debug@) {
            erased(elems, t)
        } else {
            erased(elems, t).push(e)
        },
{
    reveal(Seq::filter);
    assert(elems.push(e).drop_last() =~= elems);
}

/// Erasing undoes a fill: with fill and inspection shapes appended to a cell,
/// what is left is what erasing the cell itself leaves.
pub proof fn erase_undoes_fill(elems: Seq<Element>, added: Seq<Element>, t: EraseTargets)
    requires
        forall|i: int|
            0 <= i < added.len() ==> is_on(#[trigger] added[i], t.fill@) || is_on(added[i], t.debug@),
    ensures
        erased(elems + added, t) == erased(elems, t),
    decreases added.len(),
{
    if added.len() == 0 {
        assert(elems + added =~= elems);
    } else {
        let less = added.drop_last();
        assert forall|i: int| 0 <= i < less.len() implies is_on(#[trigger] less[i], t.fill@) || is_on(
            less[i],
            t.debug@,
        ) by {
            assert(less[i] == added[i]);
        }
        erase_undoes_fill(elems, less, t);
        let last = added[added.len() - 1];
        assert(elems + added =~= (elems + less).push(last));
        erased_with_one_more(elems + less, last, t);
    }
}

/// A cell without fill and inspection shapes is left as it is.
pub proof fn erase_keeps_the_clean(elems: Seq<Element>, t: EraseTargets)
    requires
        forall|i: int|
            0 <= i < elems.len() ==> !is_on(#[trigger] elems[i], t.fill@) && !is_on(elems[i], t.debug@),
    ensures
        erased(elems, t) == elems,
{
    clean_stays(elems, t);
}

proof fn debug_keys_listed(ctx: RunContext, positions: Seq<usize>, n: int, k: int)
    requires
        0 <= k < n <= positions.len(),
    ensures
        ({
            let gds = ctx.pdk.layers@[positions[k] as int].1.gds_layer;
            &&& debug_keys(ctx, positions, n).contains((gds, DEBUG_KEEPOUT_DT))
            &&& debug_keys(ctx, positions, n).contains((gds, DEBUG_MERGED_DT))
        }),
    decreases n,
{
    let gds = ctx.pdk.layers@[positions[k] as int].1.gds_layer;
    let before = debug_keys(ctx, positions, n - 1);
    let now = debug_keys(ctx, positions, n);
    if k == n - 1 {
        assert(now[before.len() as int] == (gds, DEBUG_KEEPOUT_DT));
        assert(now[before.len() as int + 1] == (gds, DEBUG_MERGED_DT));
    } else {
        debug_keys_listed(ctx, positions, n - 1, k);
        let i = choose|i: int| 0 <= i < before.len() && before[i] == (gds, DEBUG_KEEPOUT_DT);
        let j = choose|j: int| 0 <= j < before.len() && before[j] == (gds, DEBUG_MERGED_DT);
        assert(now[i] == before[i] && now[j] == before[j]);
    }
}

/// What a fill of a target layer writes, on its fill datatype or on one of the
/// inspection datatypes, is what an erasure with the same targets removes.
pub proof fn what_fill_writes_is_erased(ctx: RunContext, targets: Seq<usize>, t: EraseTargets, e: Element)
    requires
        ctx.is_target_list(targets),
        t.are_those_of(ctx),
        e matches Element::Boundary(b) && may_write(ctx, targets, b@),
    ensures
        is_on(e, t.fill@) || is_on(e, t.debug@),
{
    let b = e->Boundary_0@;
    let positions = choose|positions: Seq<usize>|
        #[trigger] ctx.is_target_list(positions) && t.fill@ == fill_keys(ctx, positions) && t.debug@ == debug_keys(
            ctx,
            positions,
            positions.len() as int,
        );
    let j = choose|j: int| 0 <= j < targets.len() && #[trigger] is_output_of(ctx.pdk.layers@[targets[j] as int].1, b);
    let k = targets_hold_alike(ctx, targets, positions, j);
    assert(t.fill@[k] == fill_keys(ctx, positions)[k]);
    debug_keys_listed(ctx, positions, positions.len() as int, k);
}

/// The polygon is on the fill datatype or an inspection datatype of the layer.
pub open spec fn is_output_of(layer: PdkLayer, b: BoundaryView) -> bool {
    b.layer == layer.gds_layer && (b.datatype == layer.fill_datatype || b.datatype == DEBUG_KEEPOUT_DT || b.datatype
        == DEBUG_MERGED_DT)
}

/// The polygon is on the fill datatype or an inspection datatype of a target.
pub open spec fn may_write(ctx: RunContext, targets: Seq<usize>, b: BoundaryView) -> bool {
    exists|k: int| 0 <= k < targets.len() && #[trigger] is_output_of(ctx.pdk.layers@[targets[k] as int].1, b)
}

/// The element is a polygon on the datatype.
pub open spec fn is_boundary_of(e: Element, datatype: i16) -> bool {
    e matches Element::Boundary(b) && b.datatype == datatype
}

/// Which elements of a cell stay when the polygons on a datatype are replaced.
pub fn plan_replace(cell: &Cell, datatype: i16) -> (keep: Vec<bool>)
    ensures
        keep@.len() == cell.elems@.len(),
        forall|i: int| 0 <= i < keep@.len() ==> #[trigger] keep@[i] == !is_boundary_of(cell.elems@[i], datatype),
{
    let mut keep: Vec<bool> = Vec::new();
    let mut i: usize = 0;
    while i < cell.elems.len()
        invariant
            i <= cell.elems@.len(),
            keep@.len() == i,
            forall|k: int| 0 <= k < i ==> #[trigger] keep@[k] == !is_boundary_of(cell.elems@[k], datatype),
        decreases cell.elems@.len() - i,
    {
        let stays = match &cell.elems[i] {
            Element::Boundary(b) => b.datatype != datatype,
            _ => true,
        };
        keep.push(stays);
        i = i + 1;
    }
    keep
}

/// What is counted is what goes: of elements on the fill or the inspection keys,
/// but on no key of both, as many go as are counted, and the rest stays.
pub proof fn count_is_what_goes(elems: Seq<Element>, t: EraseTargets, n: int)
    requires
        0 <= n <= elems.len(),
        forall|e: int| 0 <= e < elems.len() ==> !(is_on(#[trigger] elems[e], t.fill@) && is_on(elems[e], t.debug@)),
    ensures
        count_on(elems, t.fill@, n) + count_on(elems, t.debug@, n) + erased(elems.take(n), t).len() == n,
    decreases n,
{
    let now = elems.take(n);
    if n > 0 {
        count_is_what_goes(elems, t, n - 1);
        let before = elems.take(n - 1);
        assert(now =~= before.push(elems[n - 1]));
        assert(now.drop_last() =~= before);
        assert(!(is_on(elems[n - 1], t.fill@) && is_on(elems[n - 1], t.debug@)));
        reveal(Seq::filter);
    } else {
        reveal(Seq::filter);
    }
}

/// The element is a polygon or a path on a fill or inspection key.
pub open spec fn is_fill_or_inspection(e: Element, t: EraseTargets) -> bool {
    match e {
        Element::Boundary(b) => t.fill@.contains((b.layer, b.datatype)) || t.debug@.contains((b.layer, b.datatype)),
        Element::Path(p) => t.fill@.contains((p.layer, p.datatype)) || t.debug@.contains((p.layer, p.datatype)),
        _ => false,
    }
}

/// Erasing takes the polygons and paths on the fill and inspection keys, and nothing
/// else: placements, texts and what is drawn on other keys stay.
pub proof fn only_fill_and_inspection_go(elems: Seq<Element>, t: EraseTargets, e: Element)
    ensures
        erased(elems, t).contains(e) <==> elems.contains(e) && !is_fill_or_inspection(e, t),
    decreases elems.len(),
{
    reveal(Seq::filter);
    assert(is_fill_or_inspection(e, t) == (is_on(e, t.fill@) || is_on(e, t.debug@)));
    if elems.len() > 0 {
        let before = elems.drop_last();
        only_fill_and_inspection_go(before, t, e);
        let last = elems.last();
        assert(is_fill_or_inspection(last, t) == (is_on(last, t.fill@) || is_on(last, t.debug@)));
        let (a, b) = (erased(before, t), erased(elems, t));
        if before.contains(e) {
            let i = choose|i: int| 0 <= i < before.len() && before[i] == e;
            assert(elems[i] == e);
        }
        if elems.contains(e) {
            let i = choose|i: int| 0 <= i < elems.len() && elems[i] == e;
            if i < before.len() {
                assert(before[i] == e);
            }
        }
        assert(elems[elems.len() - 1] == last);
        if !is_fill_or_inspection(last, t) {
            assert(b == a.push(last));
            assert(b[a.len() as int] == last);
            if a.contains(e) {
                let i = choose|i: int| 0 <= i < a.len() && a[i] == e;
                assert(b[i] == e);
            }
            if b.contains(e) {
                let i = choose|i: int| 0 <= i < b.len() && b[i] == e;
                if i < a.len() {
                    assert(a[i] == e);
                }
            }
        } else {
            assert(b == a);
        }
    }
}

} // verus!
