//! Keep-outs made of layers and the space to keep from them.

use crate::geom::shapes_in_reach;
use crate::geom::shapes_of;
use crate::geom::Polygon;
use crate::geom::Rect;
use crate::geom::Shape;
use crate::layer_map::LayerMap;
use crate::offset::grown_shapes;
use crate::offset::offset_polygons;
use crate::pdk::is_length;
use crate::pdk::to_units;
use crate::pdk::units_bounds;
use crate::pdk::units_of;
use vstd::prelude::*;

verus! {

/// Largest space in nanometres that a rule keeps.
pub const SPACE_LIMIT: i64 = 0x1000_0000;

/// Keep `space` nanometres from the shapes on a layer and datatype.
#[derive(Debug)]
pub struct SpaceRule {
    pub key: (i16, i16),
    pub space: i64,
}

/// The space is one that a rule keeps.
pub open spec fn rules_valid(rules: Seq<SpaceRule>) -> bool {
    forall|i: int| 0 <= i < rules.len() ==> 0 <= (#[trigger] rules[i]).space <= SPACE_LIMIT
}

/// The shapes that the first `n` rules keep out of: those on each layer, grown
/// by the space.
pub open spec fn ruled_shapes(map: LayerMap, rules: Seq<SpaceRule>, db_unit: int, n: int) -> Seq<Shape>
    decreases n,
{
    if n <= 0 {
        Seq::empty()
    } else {
        ruled_shapes(map, rules, db_unit, n - 1) + grown_shapes(
            map.shapes(rules[n - 1].key),
            units_of(rules[n - 1].space as int, db_unit),
        )
    }
}

/// Append the keep-outs of the rules.
pub fn apply_rules(map: &LayerMap, rules: &Vec<SpaceRule>, db_unit: i64, out: &mut Vec<Polygon>)
    requires
        map.valid(),
        rules_valid(rules@),
        is_length(db_unit as int),
        db_unit > 0,
        shapes_in_reach(shapes_of(old(out)@)),
    ensures
        shapes_of(final(out)@) == shapes_of(old(out)@) + ruled_shapes(
            *map,
            rules@,
            db_unit as int,
            rules@.len() as int,
        ),
        shapes_in_reach(shapes_of(final(out)@)),
{
    let ghost start = shapes_of(out@);
    let mut i: usize = 0;
    assert(start =~= start + ruled_shapes(*map, rules@, db_unit as int, 0));
    while i < rules.len()
        invariant
            map.valid(),
            rules_valid(rules@),
            is_length(db_unit as int),
            db_unit > 0,
            i <= rules@.len(),
            shapes_of(out@) == start + ruled_shapes(*map, rules@, db_unit as int, i as int),
            shapes_in_reach(shapes_of(out@)),
        decreases rules@.len() - i,
    {
        let rule = &rules[i];
        assert(0 <= rules@[i as int].space <= SPACE_LIMIT);
        let ghost before = shapes_of(out@);
        let polys = map.polygons(rule.key.0, rule.key.1);
        proof {
            units_bounds(rule.space as int, db_unit as int);
        }
        let mut grown = offset_polygons(polys, to_units(rule.space, db_unit));
        let ghost more = shapes_of(grown@);
        out.append(&mut grown);
        proof {
            assert(shapes_of(out@) =~= before + more);
            assert forall|k: int| 0 <= k < shapes_of(out@).len() implies (#[trigger] shapes_of(out@)[k]).in_reach() by {
                if k < before.len() {
                    assert(shapes_of(out@)[k] == before[k]);
                } else {
                    assert(shapes_of(out@)[k] == more[k - before.len()]);
                }
            }
            assert(shapes_of(out@) =~= start + ruled_shapes(*map, rules@, db_unit as int, i + 1));
        }
        i = i + 1;
    }
}

/// The four bands of the given width along the inside of the chip edges.
pub open spec fn edge_ring(chip: Rect, space: int) -> Seq<Rect> {
    seq![
        Rect { x0: chip.x0, y0: chip.y0, x1: (chip.x0 + space) as i64, y1: chip.y1 },
        Rect { x0: (chip.x1 - space) as i64, y0: chip.y0, x1: chip.x1, y1: chip.y1 },
        Rect { x0: chip.x0, y0: chip.y0, x1: chip.x1, y1: (chip.y0 + space) as i64 },
        Rect { x0: chip.x0, y0: (chip.y1 - space) as i64, x1: chip.x1, y1: chip.y1 },
    ]
}

/// Rectangles as shapes.
pub open spec fn rect_shapes(rects: Seq<Rect>) -> Seq<Shape> {
    rects.map_values(|r: Rect| Shape { exterior: r.ring(), holes: Seq::empty() })
}

/// Append the four bands along the inside of the chip edges.
pub fn die_edge_ring(chip: &Rect, space: i64, out: &mut Vec<Polygon>)
    requires
        chip.in_range(),
        0 <= space <= 0x8000_0001,
        shapes_in_reach(shapes_of(old(out)@)),
    ensures
        shapes_of(final(out)@) == shapes_of(old(out)@) + rect_shapes(edge_ring(*chip, space as int)),
        shapes_in_reach(shapes_of(final(out)@)),
{
    let ghost start = shapes_of(out@);
    out.push((Rect { x0: chip.x0, y0: chip.y0, x1: chip.x0 + space, y1: chip.y1 }).to_polygon());
    out.push((Rect { x0: chip.x1 - space, y0: chip.y0, x1: chip.x1, y1: chip.y1 }).to_polygon());
    out.push((Rect { x0: chip.x0, y0: chip.y0, x1: chip.x1, y1: chip.y0 + space }).to_polygon());
    out.push((Rect { x0: chip.x0, y0: chip.y1 - space, x1: chip.x1, y1: chip.y1 }).to_polygon());
    proof {
        let more = rect_shapes(edge_ring(*chip, space as int));
        assert(shapes_of(out@) =~= start + more);
        assert forall|k: int| 0 <= k < shapes_of(out@).len() implies (#[trigger] shapes_of(out@)[k]).in_reach() by {
            if k < start.len() {
                assert(shapes_of(out@)[k] == start[k]);
            }
        }
    }
}

} // verus!
