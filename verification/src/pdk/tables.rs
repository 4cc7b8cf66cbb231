//! What the tables of the processes hold, and what their rules read.

use crate::chip::target_keys;
use crate::chip::Purpose;
use crate::geom::abs_of;
use crate::geom::bounds;
use crate::geom::bounds_are_tight;
use crate::geom::max_of;
use crate::geom::min_of;
use crate::geom::Rect;
use crate::geom::Shape;
use crate::pdk::first_algorithm_fault;
use crate::pdk::first_layer_fault;
use crate::pdk::gf180mcu;
use crate::pdk::ihp_sg13;
use crate::pdk::FillAlgorithm;
use crate::pdk::OverlapParams;
use crate::pdk::PdkConstants;
use crate::pdk::PdkFault;
use crate::pdk::PdkLayer;
use crate::pdk::SquareParams;
use crate::pdk::TrackParams;
use vstd::prelude::*;

verus! {

/// The layer is filled with squares of one size on datatype 4, cut at the tile
/// edges, with gaps of `space` to 10 um, and measured merged in windows of 50 um.
pub open spec fn has_squares(l: PdkLayer, gds: int, size: int, space: int, origin: int) -> bool {
    &&& l.gds_layer == gds && l.drawing_datatype == 0 && l.fill_datatype == 4 && l.nofill_datatype is None
    &&& l.algorithms@.len() == 1
    &&& l.algorithms@[0] matches FillAlgorithm::Square(sq) && {
        &&& sq.min_width == size && sq.max_width == size
        &&& sq.min_space == space && sq.max_space == 10_000
        &&& sq.origin_nm.0 == origin && sq.origin_nm.1 == origin
        &&& sq.clipping
    }
    &&& l.merge_for_density && l.merge_window_nm == Some(50_000i64) && l.tile_width_nm == 100_000
}

/// The gf180mcu stacks.  COMP has squares of 5 um with gaps of 3 um and a target of
/// 40 to 15 percent; Poly2 covers them by 0.3 um, 5.6 um wide and 2.4 um apart, with
/// a target of 20 to 6 percent; the metals have squares of 2 um with gaps of 1.2 um,
/// the top one of 2 um, a target of 35 to 5 percent, and origins that move by half a
/// micrometre from layer to layer.  A database unit is 5 nm.
pub proof fn stack_holds_its_values(pdk: PdkConstants, n: int, i: int)
    requires
        gf180mcu::is_stack(pdk, n),
        0 < n <= 5,
        0 <= i < n,
    ensures
        pdk.db_unit_nm == 5 && pdk.grid_dbu == 1 && pdk.tile_width_nm == 200_000,
        pdk.fill_boundary_layer == Some((0i16, 0i16)) && pdk.density_boundary_layer == Some((0i16, 0i16)),
        pdk.layers@.len() == n + 2,
        pdk.layers@[0].0@ == "COMP"@ && has_squares(pdk.layers@[0].1, 22, 5000, 3000, 0),
        pdk.layers@[0].1.default_density == 40_000_000 && pdk.layers@[0].1.default_deviation == 15_000_000,
        pdk.layers@[1].0@ == "Poly2"@ && pdk.layers@[1].1.gds_layer == 30 && pdk.layers@[1].1.fill_datatype == 4,
        pdk.layers@[1].1.default_density == 20_000_000 && pdk.layers@[1].1.default_deviation == 6_000_000,
        pdk.layers@[1].1.algorithms@.len() == 1,
        pdk.layers@[1].1.algorithms@[0] matches FillAlgorithm::Overlap(op) && op.cover && op.min_extension == 300
            && op.min_width == 5600 && op.max_width == 5600 && op.min_space == 2400 && op.ref_layer@ == "COMP"@,
        has_squares(
            pdk.layers@[i + 2].1,
            if i == 0 {
                34
            } else if i == 1 {
                36
            } else if i == 2 {
                42
            } else if i == 3 {
                46
            } else {
                81
            },
            2000,
            if i == n - 1 {
                2000
            } else {
                1200
            },
            500 * i,
        ),
        pdk.layers@[i + 2].1.default_density == 35_000_000 && pdk.layers@[i + 2].1.default_deviation == 5_000_000,
        pdk.layers@[i + 2].0@ == if i == 0 {
            "Metal1"@
        } else if i == 1 {
            "Metal2"@
        } else if i == 2 {
            "Metal3"@
        } else if i == 3 {
            "Metal4"@
        } else {
            "Metal5"@
        },
{
}

/// Variant A has three metals, B four, C and D five; there is no other variant.
pub proof fn variants_have_their_metals(variant: char)
    ensures
        gf180mcu::metal_count(variant) == if variant == 'A' {
            Some(3int)
        } else if variant == 'B' {
            Some(4int)
        } else if variant == 'C' || variant == 'D' {
            Some(5int)
        } else {
            None::<int>
        },
{
}

/// Consecutive metals do not repeat their pattern: the origins of their lattices
/// differ by half a micrometre in x and y.
pub proof fn consecutive_metals_are_shifted(pdk: PdkConstants, n: int, i: int, a: SquareParams, b: SquareParams)
    requires
        gf180mcu::is_stack(pdk, n),
        0 <= i,
        i + 1 < n <= 5,
        pdk.layers@[i + 2].1.algorithms@[0] == FillAlgorithm::Square(a),
        pdk.layers@[i + 3].1.algorithms@[0] == FillAlgorithm::Square(b),
    ensures
        b.origin_nm.0 - a.origin_nm.0 == 500,
        b.origin_nm.1 - a.origin_nm.1 == 500,
{
    assert(gf180mcu::is_metal_layer(pdk.layers@[i + 2].1, i, n));
    assert(gf180mcu::is_metal_layer(pdk.layers@[(i + 1) + 2].1, i + 1, n));
}

/// Every layer that a rule of an SG13 process reads is one that is loaded for it:
/// one of the layer itself, or one that the rules are said to need.
pub proof fn sg13_rules_read_what_is_needed(family: ihp_sg13::Family, layer: PdkLayer, i: int)
    requires
        0 <= i < ihp_sg13::family_rules(family, layer).len(),
    ensures
        ({
            let key = ihp_sg13::family_rules(family, layer)[i].key;
            target_keys(layer, Purpose::Fill).contains(key) || ihp_sg13::needed().contains(key)
        }),
{
    let rules = ihp_sg13::family_rules(family, layer);
    let base = ihp_sg13::base_rules(layer, rules[0].space);
    let own = target_keys(layer, Purpose::Fill);
    let all = ihp_sg13::needed();
    if i < base.len() {
        assert(own[0] == (layer.gds_layer, layer.drawing_datatype));
        assert(own[1] == (layer.gds_layer, layer.fill_datatype));
        if i == 0 {
            assert(own[0] == rules[i].key);
        } else if i == 1 {
            assert(own[1] == rules[i].key);
        } else {
            assert(own[2] == rules[i].key);
        }
    } else {
        assert(all[0] == (1i16, 0i16));
        assert(all[1] == (5i16, 0i16));
        assert(all[2] == (6i16, 0i16));
        assert(all[3] == (7i16, 21i16));
        assert(all[4] == (14i16, 0i16));
        assert(all[5] == (28i16, 0i16));
        assert(all[6] == (31i16, 0i16));
        assert(all[7] == (32i16, 0i16));
        assert(all[8] == (46i16, 21i16));
        assert(all[9] == (26i16, 0i16));
    }
}

/// The cells of the core boundary layer, which the tracks need, are loaded too.
pub proof fn sg13_needs_the_core()
    ensures
        ihp_sg13::needed().contains((189i16, 4i16)),
{
    assert(ihp_sg13::needed()[10] == (189i16, 4i16));
}

/// Every layer that a rule of a gf180mcu process reads is one that is loaded for
/// it, as are circuit COMP and the wells.
pub proof fn gf180_rules_read_what_is_needed(family: gf180mcu::Family, layer: PdkLayer, i: int)
    ensures
        ({
            let rules = gf180mcu::family_rules(family, layer);
            0 <= i < rules.len() ==> target_keys(layer, Purpose::Fill).contains(rules[i].key)
                || gf180mcu::needed().contains(rules[i].key)
        }),
        ({
            let wells = gf180mcu::well_rules(family);
            0 <= i < wells.len() ==> gf180mcu::needed().contains(wells[i].key)
        }),
        gf180mcu::needed().contains((22i16, 0i16)),
{
    let rules = gf180mcu::family_rules(family, layer);
    let own = target_keys(layer, Purpose::Fill);
    let all = gf180mcu::needed();
    assert(all[1] == (22i16, 0i16));
    assert(all[2] == (30i16, 0i16));
    assert(all[3] == (21i16, 0i16));
    assert(all[4] == (12i16, 0i16));
    assert(all[5] == (204i16, 0i16));
    assert(all[6] == (55i16, 0i16));
    assert(all[7] == (110i16, 5i16));
    assert(all[8] == (151i16, 5i16));
    assert(all[9] == (37i16, 0i16));
    assert(all[10] == (111i16, 5i16));
    assert(all[11] == (152i16, 5i16));
    assert(all[12] == (122i16, 5i16));
    assert(all[13] == (75i16, 0i16));
    assert(all[14] == (220i16, 0i16));
    assert(all[15] == (96i16, 1i16));
    assert(all[16] == (152i16, 5i16));
    assert(all[17] == (122i16, 5i16));
    assert(all[18] == (173i16, 5i16));
    assert(all[19] == (34i16, 0i16));
    assert(all[20] == (36i16, 0i16));
    assert(own[0] == (layer.gds_layer, layer.drawing_datatype));
    assert(own[1] == (layer.gds_layer, layer.fill_datatype));
    if 0 <= i < rules.len() {
        if family == gf180mcu::Family::Metal && i >= 2 {
            assert(rules[i].key == gf180mcu::markers()[i - 2]);
            assert(all[13 + (i - 2)] == rules[i].key);
        }
    }
}

/// The shape is as high as a standard-cell row of 3.78 um, to two percent.
pub open spec fn is_row_high(s: Shape, db: int) -> bool {
    let b = bounds(s.exterior);
    s.exterior.len() > 0 && 50 * abs_of((b.y1 - b.y0) * db - 7560) < 7560
}

/// `r` is drawn tightly around the boxes of the rows among the first `n` shapes.
spec fn is_tight(shapes: Seq<Shape>, db: int, n: int, r: Rect) -> bool {
    &&& forall|j: int|
        0 <= j < n && #[trigger] is_row_high(shapes[j], db) ==> r.spec_encloses(bounds(shapes[j].exterior))
    &&& exists|j: int| 0 <= j < n && #[trigger] is_row_high(shapes[j], db) && bounds(shapes[j].exterior).x0 == r.x0
    &&& exists|j: int| 0 <= j < n && #[trigger] is_row_high(shapes[j], db) && bounds(shapes[j].exterior).y0 == r.y0
    &&& exists|j: int| 0 <= j < n && #[trigger] is_row_high(shapes[j], db) && bounds(shapes[j].exterior).x1 == r.x1
    &&& exists|j: int| 0 <= j < n && #[trigger] is_row_high(shapes[j], db) && bounds(shapes[j].exterior).y1 == r.y1
}

proof fn hull_is_tight(shapes: Seq<Shape>, db: int, n: int)
    requires
        0 <= n <= shapes.len(),
    ensures
        ihp_sg13::row_hull(shapes, db, n) matches Some(r) ==> is_tight(shapes, db, n, r),
        ihp_sg13::row_hull(shapes, db, n) is None ==> forall|j: int|
            0 <= j < n ==> !#[trigger] is_row_high(shapes[j], db),
    decreases n,
{
    if n > 0 {
        hull_is_tight(shapes, db, n - 1);
        let s = shapes[n - 1];
        let b = bounds(s.exterior);
        let before = ihp_sg13::row_hull(shapes, db, n - 1);
        let now = ihp_sg13::row_hull(shapes, db, n);
        assert(is_row_high(s, db) == (s.exterior.len() > 0 && ihp_sg13::is_row(b, db)));
        if s.exterior.len() > 0 {
            bounds_are_tight(s.exterior, s.exterior.len() as int);
        }
        if is_row_high(s, db) {
            if let Some(h) = before {
                let r = now->0;
                assert(r.x0 == min_of(h.x0 as int, b.x0 as int) && r.x1 == max_of(h.x1 as int, b.x1 as int));
                assert(r.y0 == min_of(h.y0 as int, b.y0 as int) && r.y1 == max_of(h.y1 as int, b.y1 as int));
                assert forall|j: int| 0 <= j < n && #[trigger] is_row_high(shapes[j], db) implies r.spec_encloses(
                    bounds(shapes[j].exterior),
                ) by {
                    if j < n - 1 {
                        assert(h.spec_encloses(bounds(shapes[j].exterior)));
                    }
                }
                let (p, q, u, v) = (
                    choose|j: int|
                        0 <= j < n - 1 && #[trigger] is_row_high(shapes[j], db) && bounds(shapes[j].exterior).x0 == h.x0,
                    choose|j: int|
                        0 <= j < n - 1 && #[trigger] is_row_high(shapes[j], db) && bounds(shapes[j].exterior).y0 == h.y0,
                    choose|j: int|
                        0 <= j < n - 1 && #[trigger] is_row_high(shapes[j], db) && bounds(shapes[j].exterior).x1 == h.x1,
                    choose|j: int|
                        0 <= j < n - 1 && #[trigger] is_row_high(shapes[j], db) && bounds(shapes[j].exterior).y1 == h.y1,
                );
                assert(is_row_high(shapes[p], db) && is_row_high(shapes[q], db));
                assert(is_row_high(shapes[u], db) && is_row_high(shapes[v], db));
                assert(is_tight(shapes, db, n, r));
            } else {
                assert(is_tight(shapes, db, n, b));
            }
        }
    }
}

/// The digital core is the smallest rectangle around all boundary shapes that are
/// one row high: it encloses each of them, and each of its sides is that of one of
/// them.  It is there if one of them has a width.
pub proof fn core_is_drawn_around_the_rows(shapes: Seq<Shape>, db: int, j: int)
    requires
        0 <= j < shapes.len(),
        is_row_high(shapes[j], db),
        bounds(shapes[j].exterior).x0 < bounds(shapes[j].exterior).x1,
        db > 0,
    ensures
        ihp_sg13::core_rect(shapes, db) matches Some(r) && {
            &&& r.spec_encloses(bounds(shapes[j].exterior))
            &&& exists|i: int|
                0 <= i < shapes.len() && #[trigger] is_row_high(shapes[i], db) && bounds(shapes[i].exterior).x0 == r.x0
            &&& exists|i: int|
                0 <= i < shapes.len() && #[trigger] is_row_high(shapes[i], db) && bounds(shapes[i].exterior).y0 == r.y0
            &&& exists|i: int|
                0 <= i < shapes.len() && #[trigger] is_row_high(shapes[i], db) && bounds(shapes[i].exterior).x1 == r.x1
            &&& exists|i: int|
                0 <= i < shapes.len() && #[trigger] is_row_high(shapes[i], db) && bounds(shapes[i].exterior).y1 == r.y1
        },
{
    let n = shapes.len() as int;
    hull_is_tight(shapes, db, n);
    let b = bounds(shapes[j].exterior);
    bounds_are_tight(shapes[j].exterior, shapes[j].exterior.len() as int);
    let h = b.y1 - b.y0;
    assert(h > 0) by (nonlinear_arith)
        requires
            h * db > 0,
            db > 0,
    ;
}

/// Without a shape that is one row high there is no core.
pub proof fn no_rows_no_core(shapes: Seq<Shape>, db: int)
    requires
        forall|i: int| 0 <= i < shapes.len() ==> !#[trigger] is_row_high(shapes[i], db),
    ensures
        ihp_sg13::core_rect(shapes, db) is None,
{
    hull_is_tight(shapes, db, shapes.len() as int);
    if let Some(r) = ihp_sg13::row_hull(shapes, db, shapes.len() as int) {
        let i = choose|i: int|
            0 <= i < shapes.len() && #[trigger] is_row_high(shapes[i], db) && bounds(shapes[i].exterior).x0 == r.x0;
        assert(is_row_high(shapes[i], db));
    }
}

/// The widths are positive and ordered, as are the pitch and the cell height of
/// tracks.
pub open spec fn is_sensible(a: FillAlgorithm) -> bool {
    match a {
        FillAlgorithm::Square(p) => 0 < p.min_width <= p.max_width,
        FillAlgorithm::Track(p) => 0 < p.min_width <= p.max_width && 0 < p.gaps && 0 < p.cell_height,
        FillAlgorithm::Overlap(p) => 0 < p.min_width <= p.max_width,
    }
}

/// A layer with a positive tile width and merge window, and with algorithms, all of
/// which are sensible.
pub open spec fn is_sensible_layer(l: PdkLayer) -> bool {
    &&& 0 < l.tile_width_nm
    &&& l.merge_window_nm matches Some(w) ==> 0 < w
    &&& l.algorithms@.len() > 0
    &&& forall|i: int| 0 <= i < l.algorithms@.len() ==> is_sensible(#[trigger] l.algorithms@[i])
}

proof fn sensible_algorithms_have_no_fault(algorithms: Seq<FillAlgorithm>, i: int)
    requires
        0 <= i <= algorithms.len(),
    ensures
        first_algorithm_fault(algorithms, i) is None <==> forall|k: int|
            i <= k < algorithms.len() ==> is_sensible(#[trigger] algorithms[k]),
    decreases algorithms.len() - i,
{
    if i < algorithms.len() {
        sensible_algorithms_have_no_fault(algorithms, i + 1);
        assert(algorithms[i].fault() is None <==> is_sensible(algorithms[i]));
    }
}

proof fn sensible_layers_have_no_fault(layers: Seq<(String, PdkLayer)>, i: int)
    requires
        0 <= i <= layers.len(),
    ensures
        first_layer_fault(layers, i) is None <==> forall|k: int|
            i <= k < layers.len() ==> is_sensible_layer((#[trigger] layers[k]).1),
        first_layer_fault(layers, i) matches Some(f) ==> exists|k: int|
            i <= k < layers.len() && !is_sensible_layer((#[trigger] layers[k]).1) && (f matches PdkFault::Layer(n, _) && n
                == k as usize) && forall|j: int| i <= j < k ==> is_sensible_layer((#[trigger] layers[j]).1),
    decreases layers.len() - i,
{
    if i < layers.len() {
        sensible_layers_have_no_fault(layers, i + 1);
        let l = layers[i].1;
        sensible_algorithms_have_no_fault(l.algorithms@, 0);
        assert(l.fault() is None <==> is_sensible_layer(l));
        if is_sensible_layer(l) {
            if let Some(f) = first_layer_fault(layers, i) {
                let k = choose|k: int|
                    i + 1 <= k < layers.len() && !is_sensible_layer((#[trigger] layers[k]).1) && (
                    f matches PdkFault::Layer(n, _) && n == k as usize) && forall|j: int|
                        i + 1 <= j < k ==> is_sensible_layer((#[trigger] layers[j]).1);
                assert forall|j: int| i <= j < k implies is_sensible_layer((#[trigger] layers[j]).1) by {}
            }
        } else {
            assert(!is_sensible_layer(layers[i].1));
        }
    }
}

/// A description is accepted exactly if its unit, tile width and grid are positive
/// and every layer is sensible; else, with those three positive, the first layer
/// that is not is reported.
pub proof fn only_sensible_tables_are_accepted(pdk: PdkConstants)
    ensures
        pdk.fault() is None <==> 0 < pdk.db_unit_nm && 0 < pdk.tile_width_nm && 0 < pdk.grid_dbu && forall|k: int|
            0 <= k < pdk.layers@.len() ==> is_sensible_layer((#[trigger] pdk.layers@[k]).1),
        0 < pdk.db_unit_nm && 0 < pdk.tile_width_nm && 0 < pdk.grid_dbu ==> (pdk.fault() matches Some(f) ==> exists|k: int|
            0 <= k < pdk.layers@.len() && !is_sensible_layer((#[trigger] pdk.layers@[k]).1) && (f matches PdkFault::Layer(
                n,
                _,
            ) && n == k as usize) && forall|j: int| 0 <= j < k ==> is_sensible_layer((#[trigger] pdk.layers@[j]).1)),
{
    sensible_layers_have_no_fault(pdk.layers@, 0);
}

/// Lengths are at most about a metre.
pub open spec fn is_short(nm: int) -> bool {
    0 <= nm <= 0x4000_0000
}

/// What squares, tracks and stripes can be made with: widths that are positive and
/// ordered, spaces that are not negative, a positive pitch, and nothing too long.
pub proof fn usable_sizes_are_sensible(sq: SquareParams, tp: TrackParams, op: OverlapParams)
    ensures
        sq.usable() <==> 0 < sq.min_width <= sq.max_width && 0 <= sq.min_space <= sq.max_space && is_short(
            sq.max_width as int,
        ) && is_short(sq.max_space as int) && is_short(abs_of(sq.origin_nm.0 as int)) && is_short(
            abs_of(sq.origin_nm.1 as int),
        ),
        op.usable() <==> 0 < op.min_width <= op.max_width && is_short(op.max_width as int) && is_short(
            op.min_extension as int,
        ) && is_short(op.min_space as int),
        tp.usable() ==> 0 < tp.min_width && is_short(tp.min_width as int) && is_short(tp.max_width as int) && is_short(
            tp.min_space as int,
        ) && 0 < tp.gaps && is_short(tp.gaps as int),
        tp.usable() ==> forall|i: int|
            0 <= i < tp.free_heights_nm@.len() ==> is_short(#[trigger] tp.free_heights_nm@[i] as int),
{
}

} // verus!
