//! Flattened polygons by layer and datatype.

use crate::area::check_polygons;
use crate::contain::remove_contained_polygons;
use crate::contain::uncontained;
use crate::dedup::dbu_ring;
use crate::dedup::first_is_kept;
use crate::dedup::first_occurrences;
use crate::dedup::is_repeated;
use crate::dedup::kept_are_distinct;
use crate::dedup::remove_repeated;
use crate::flatten::drawn_in_range;
use crate::flatten::drawn_of;
use crate::flatten::drawn_on_keys;
use crate::flatten::flat_tops;
use crate::flatten::flatten;
use crate::flatten::flattening_restricts;
use crate::flatten::wanted_keys;
use crate::flatten::Drawn;
use crate::flatten::DrawnPolygon;
use crate::geom::bounds;
use crate::geom::bounds_are_tight;
use crate::geom::bounds_in_range;
use crate::geom::bounds_upto;
use crate::geom::max_i64;
use crate::geom::max_of;
use crate::geom::min_i64;
use crate::geom::min_of;
use crate::geom::shapes_in_range;
use crate::geom::shapes_of;
use crate::geom::Point;
use crate::geom::Polygon;
use crate::geom::Rect;
use crate::geom::Shape;
use crate::layout::Cell;
use crate::layout::Layout;
use crate::layout::LayoutError;
use crate::overlay::merge_polygons;
use crate::overlay::merged_shapes;
use vstd::prelude::*;

verus! {

/// The polygons of one layer and datatype.
#[derive(Debug)]
struct LayerEntry {
    key: (i16, i16),
    polys: Vec<Polygon>,
}

/// All flattened polygons, by layer and datatype.
#[derive(Debug)]
pub struct LayerMap {
    entries: Vec<LayerEntry>,
}

/// The shapes among the first `n` drawn ones that are on a key.
pub open spec fn shapes_on(drawn: Seq<Drawn>, key: (i16, i16), n: int) -> Seq<Shape>
    decreases n,
{
    if n <= 0 {
        Seq::empty()
    } else if drawn[n - 1].key == key {
        shapes_on(drawn, key, n - 1).push(drawn[n - 1].shape)
    } else {
        shapes_on(drawn, key, n - 1)
    }
}

/// The layer that drawn shapes make: none without a shape, else each one once.
pub open spec fn layer_of(drawn: Seq<Drawn>, key: (i16, i16)) -> Option<Seq<Shape>> {
    let shapes = shapes_on(drawn, key, drawn.len() as int);
    if shapes.len() == 0 {
        None
    } else {
        Some(first_occurrences(shapes, shapes.len() as int))
    }
}

/// The shapes of the first of `n` entries with the given key.
spec fn entry_shapes(entries: Seq<LayerEntry>, key: (i16, i16), n: int) -> Option<Seq<Shape>>
    decreases n,
{
    if n <= 0 {
        None
    } else if entries[n - 1].key == key {
        Some(shapes_of(entries[n - 1].polys@))
    } else {
        entry_shapes(entries, key, n - 1)
    }
}

/// Keys occur once.
spec fn keys_distinct(entries: Seq<LayerEntry>) -> bool {
    forall|i: int, j: int| 0 <= i < j < entries.len() ==> (#[trigger] entries[i]).key != (#[trigger] entries[j]).key
}

/// All entries are in range.
spec fn entries_in_range(entries: Seq<LayerEntry>) -> bool {
    forall|i: int| 0 <= i < entries.len() ==> shapes_in_range(shapes_of((#[trigger] entries[i]).polys@))
}

proof fn entry_found(entries: Seq<LayerEntry>, key: (i16, i16), n: int, i: int)
    requires
        keys_distinct(entries),
        0 <= i < n <= entries.len(),
        entries[i].key == key,
    ensures
        entry_shapes(entries, key, n) == Some(shapes_of(entries[i].polys@)),
    decreases n,
{
    if i < n - 1 {
        assert(entries[i].key != entries[n - 1].key);
        entry_found(entries, key, n - 1, i);
    }
}

proof fn entry_absent(entries: Seq<LayerEntry>, key: (i16, i16), n: int)
    requires
        0 <= n <= entries.len(),
        forall|i: int| 0 <= i < n ==> (#[trigger] entries[i]).key != key,
    ensures
        entry_shapes(entries, key, n) is None,
    decreases n,
{
    if n > 0 {
        entry_absent(entries, key, n - 1);
    }
}

proof fn entries_agree(a: Seq<LayerEntry>, b: Seq<LayerEntry>, key: (i16, i16), n: int)
    requires
        0 <= n <= a.len(),
        n <= b.len(),
        forall|i: int|
            0 <= i < n ==> (#[trigger] a[i]).key == b[i].key && (a[i].key == key ==> shapes_of(a[i].polys@) == shapes_of(
                b[i].polys@,
            )),
    ensures
        entry_shapes(a, key, n) == entry_shapes(b, key, n),
    decreases n,
{
    if n > 0 {
        entries_agree(a, b, key, n - 1);
    }
}

proof fn entry_in_range(entries: Seq<LayerEntry>, key: (i16, i16), n: int)
    requires
        entries_in_range(entries),
        0 <= n <= entries.len(),
    ensures
        entry_shapes(entries, key, n) matches Some(s) ==> shapes_in_range(s),
    decreases n,
{
    if n > 0 {
        entry_in_range(entries, key, n - 1);
    }
}

/// The position of the entry with the given key.
fn find_entry(entries: &Vec<LayerEntry>, key: (i16, i16)) -> (p: Option<usize>)
    ensures
        p matches Some(i) ==> i < entries@.len() && entries@[i as int].key == key,
        p is None ==> forall|i: int| 0 <= i < entries@.len() ==> (#[trigger] entries@[i]).key != key,
{
    let mut i: usize = 0;
    while i < entries.len()
        invariant
            i <= entries@.len(),
            forall|j: int| 0 <= j < i ==> (#[trigger] entries@[j]).key != key,
        decreases entries@.len() - i,
    {
        if entries[i].key.0 == key.0 && entries[i].key.1 == key.1 {
            return Some(i);
        }
        i = i + 1;
    }
    None
}

/// Whether drawn shapes make the entries, before repeated ones are removed.
spec fn holds_drawn(entries: Seq<LayerEntry>, drawn: Seq<Drawn>, n: int) -> bool {
    forall|key: (i16, i16)|
        #![trigger entry_shapes(entries, key, entries.len() as int)]
        entry_shapes(entries, key, entries.len() as int) == if shapes_on(drawn, key, n).len() == 0 {
            None
        } else {
            Some(shapes_on(drawn, key, n))
        }
}

/// Sort drawn polygons by key.
fn group(list: Vec<DrawnPolygon>) -> (entries: Vec<LayerEntry>)
    requires
        drawn_in_range(list@),
    ensures
        keys_distinct(entries@),
        entries_in_range(entries@),
        holds_drawn(entries@, drawn_of(list@), list@.len() as int),
{
    let ghost drawn = drawn_of(list@);
    let mut entries: Vec<LayerEntry> = Vec::new();
    let mut i: usize = 0;
    while i < list.len()
        invariant
            i <= list@.len(),
            drawn == drawn_of(list@),
            drawn_in_range(list@),
            keys_distinct(entries@),
            entries_in_range(entries@),
            holds_drawn(entries@, drawn, i as int),
        decreases list@.len() - i,
    {
        let key = list[i].key;
        let poly = list[i].poly.duplicate();
        let ghost before = entries@;
        let ghost shape = poly@;
        assert(list@[i as int]@.shape.in_range());
        assert(drawn[i as int] == list@[i as int]@);
        match find_entry(&entries, key) {
            Some(k) => {
                entries[k].polys.push(poly);
                proof {
                    assert(shapes_of(entries@[k as int].polys@) =~= shapes_of(before[k as int].polys@).push(shape));
                    assert forall|j: int| 0 <= j < entries@.len() implies shapes_in_range(
                        shapes_of((#[trigger] entries@[j]).polys@),
                    ) by {
                        assert(shapes_in_range(shapes_of(before[j].polys@)));
                    }
                    assert forall|other: (i16, i16)|
                        #![trigger entry_shapes(entries@, other, entries@.len() as int)]
                        entry_shapes(entries@, other, entries@.len() as int) == if shapes_on(
                            drawn,
                            other,
                            i + 1,
                        ).len() == 0 {
                            None
                        } else {
                            Some(shapes_on(drawn, other, i + 1))
                        } by {
                        assert(entry_shapes(before, other, before.len() as int) == if shapes_on(
                            drawn,
                            other,
                            i as int,
                        ).len() == 0 {
                            None
                        } else {
                            Some(shapes_on(drawn, other, i as int))
                        });
                        if other == key {
                            entry_found(before, key, before.len() as int, k as int);
                            entry_found(entries@, key, entries@.len() as int, k as int);
                        } else {
                            entries_agree(before, entries@, other, before.len() as int);
                        }
                    }
                }
            },
            None => {
                let mut polys: Vec<Polygon> = Vec::new();
                polys.push(poly);
                entries.push(LayerEntry { key, polys });
                proof {
                    let last = before.len() as int;
                    assert(shapes_of(entries@[last].polys@) =~= seq![shape]);
                    assert forall|other: (i16, i16)|
                        #![trigger entry_shapes(entries@, other, entries@.len() as int)]
                        entry_shapes(entries@, other, entries@.len() as int) == if shapes_on(
                            drawn,
                            other,
                            i + 1,
                        ).len() == 0 {
                            None
                        } else {
                            Some(shapes_on(drawn, other, i + 1))
                        } by {
                        assert(entry_shapes(before, other, before.len() as int) == if shapes_on(
                            drawn,
                            other,
                            i as int,
                        ).len() == 0 {
                            None
                        } else {
                            Some(shapes_on(drawn, other, i as int))
                        });
                        if other == key {
                            entry_absent(before, key, last);
                            assert(shapes_on(drawn, key, i as int).len() == 0);
                            assert(shapes_on(drawn, key, i + 1) =~= seq![shape]);
                        } else {
                            entries_agree(before, entries@, other, last);
                        }
                    }
                }
            },
        }
        i = i + 1;
    }
    entries
}

impl LayerMap {
    /// The shapes on a layer and datatype, `None` if it is absent.
    pub closed spec fn layer(self, key: (i16, i16)) -> Option<Seq<Shape>> {
        entry_shapes(self.entries@, key, self.entries@.len() as int)
    }

    /// The shapes on a layer and datatype, none if it is absent.
    pub open spec fn shapes(self, key: (i16, i16)) -> Seq<Shape> {
        match self.layer(key) {
            Some(s) => s,
            None => Seq::empty(),
        }
    }

    /// Keys occur once and all polygons are in range.
    pub closed spec fn valid(self) -> bool {
        &&& keys_distinct(self.entries@)
        &&& entries_in_range(self.entries@)
    }

    /// All shapes of a valid map are in range.
    pub proof fn shapes_are_in_range(self, key: (i16, i16))
        requires
            self.valid(),
        ensures
            shapes_in_range(self.shapes(key)),
    {
        entry_in_range(self.entries@, key, self.entries@.len() as int);
    }

    /// Traverse the whole hierarchy and collect every shape, in the frame of
    /// the top cells.
    pub fn build(layout: &Layout) -> (r: Result<LayerMap, LayoutError>)
        ensures
            match (flat_tops(layout.cells@, None, layout.cells@.len() as int), r) {
                (Ok(s), Ok(m)) => m.valid() && forall|key: (i16, i16)| #[trigger] m.layer(key) == layer_of(s, key),
                (Err(e), Err(f)) => e == f,
                _ => false,
            },
    {
        Self::build_for(layout, &None)
    }

    /// Like `build`, but with only the layers and datatypes in `needed`.
    /// Shapes with identical exteriors are collected once.
    pub fn build_for(layout: &Layout, needed: &Option<Vec<(i16, i16)>>) -> (r: Result<LayerMap, LayoutError>)
        ensures
            match (flat_tops(layout.cells@, wanted_keys(needed), layout.cells@.len() as int), r) {
                (Ok(s), Ok(m)) => m.valid() && forall|key: (i16, i16)| #[trigger] m.layer(key) == layer_of(s, key),
                (Err(e), Err(f)) => e == f,
                _ => false,
            },
    {
        let list = match flatten(layout, needed) {
            Ok(list) => list,
            Err(e) => {
                return Err(e);
            },
        };
        let ghost drawn = drawn_of(list@);
        let ghost count = list@.len() as int;
        let grouped = group(list);
        let mut entries: Vec<LayerEntry> = Vec::new();
        let mut i: usize = 0;
        while i < grouped.len()
            invariant
                i <= grouped@.len(),
                entries_in_range(grouped@),
                entries@.len() == i,
                entries_in_range(entries@),
                forall|j: int|
                    0 <= j < i ==> (#[trigger] entries@[j]).key == grouped@[j].key && shapes_of(entries@[j].polys@)
                        == first_occurrences(shapes_of(grouped@[j].polys@), grouped@[j].polys@.len() as int),
            decreases grouped@.len() - i,
        {
            assert(shapes_in_range(shapes_of(grouped@[i as int].polys@)));
            let polys = remove_repeated(&grouped[i].polys);
            entries.push(LayerEntry { key: grouped[i].key, polys });
            i = i + 1;
        }
        let m = LayerMap { entries };
        proof {
            assert(keys_distinct(entries@)) by {
                assert forall|a: int, b: int| 0 <= a < b < entries@.len() implies (#[trigger] entries@[a]).key != (
                #[trigger] entries@[b]).key by {
                    assert(grouped@[a].key != grouped@[b].key);
                }
            }
            assert forall|key: (i16, i16)| #[trigger] m.layer(key) == layer_of(drawn, key) by {
                assert(entry_shapes(grouped@, key, grouped@.len() as int) == if shapes_on(drawn, key, count).len()
                    == 0 {
                    None
                } else {
                    Some(shapes_on(drawn, key, count))
                });
                if exists|k: int| 0 <= k < grouped@.len() && (#[trigger] grouped@[k]).key == key {
                    let k = choose|k: int| 0 <= k < grouped@.len() && (#[trigger] grouped@[k]).key == key;
                    entry_found(grouped@, key, grouped@.len() as int, k);
                    assert(entries@[k].key == key);
                    entry_found(entries@, key, entries@.len() as int, k);
                } else {
                    entry_absent(grouped@, key, grouped@.len() as int);
                    assert forall|k: int| 0 <= k < entries@.len() implies (#[trigger] entries@[k]).key != key by {
                        assert(grouped@[k].key != key);
                    }
                    entry_absent(entries@, key, entries@.len() as int);
                }
            }
        }
        Ok(m)
    }

    /// The polygons on a layer and datatype, none if it is absent.
    pub fn polygons(&self, layer: i16, datatype: i16) -> (r: &[Polygon])
        requires
            self.valid(),
        ensures
            shapes_of(r@) == self.shapes((layer, datatype)),
            shapes_in_range(shapes_of(r@)),
    {
        let key = (layer, datatype);
        match find_entry(&self.entries, key) {
            Some(i) => {
                proof {
                    entry_found(self.entries@, key, self.entries@.len() as int, i as int);
                }
                self.entries[i].polys.as_slice()
            },
            None => {
                proof {
                    entry_absent(self.entries@, key, self.entries@.len() as int);
                }
                let none: &[Polygon] = &[];
                assert(shapes_of(none@) =~= Seq::empty());
                none
            },
        }
    }

    /// Replace the polygons of one entry.
    fn replace(&mut self, i: usize, polys: Vec<Polygon>)
        requires
            old(self).valid(),
            i < old(self).entries@.len(),
            shapes_in_range(shapes_of(polys@)),
        ensures
            final(self).valid(),
            forall|key: (i16, i16)|
                #[trigger] final(self).layer(key) == if key == old(self).entries@[i as int].key {
                    Some(shapes_of(polys@))
                } else {
                    old(self).layer(key)
                },
    {
        let ghost before = self.entries@;
        let key = self.entries[i].key;
        self.entries[i] = LayerEntry { key, polys };
        proof {
            let now = self.entries@;
            assert(forall|j: int| 0 <= j < now.len() && j != i ==> (#[trigger] now[j]) == before[j]);
            assert forall|a: int, b: int| 0 <= a < b < now.len() implies (#[trigger] now[a]).key != (
            #[trigger] now[b]).key by {
                assert(before[a].key != before[b].key);
            }
            assert forall|j: int| 0 <= j < now.len() implies shapes_in_range(shapes_of((#[trigger] now[j]).polys@)) by {
                if j != i {
                    assert(shapes_in_range(shapes_of(before[j].polys@)));
                }
            }
            assert forall|k: (i16, i16)|
                #[trigger] self.layer(k) == if k == key {
                    Some(shapes_of(polys@))
                } else {
                    old(self).layer(k)
                } by {
                if k == key {
                    entry_found(now, key, now.len() as int, i as int);
                } else {
                    entries_agree(before, now, k, now.len() as int);
                }
            }
        }
    }

    /// Merge the polygons on a layer and datatype into a non-overlapping set.
    /// An absent layer stays absent.  `false`, with nothing changed, if the
    /// merged polygons leave the coordinate range.
    pub fn merge(&mut self, layer: i16, datatype: i16) -> (done: bool)
        requires
            old(self).valid(),
        ensures
            final(self).valid(),
            done == shapes_in_range(merged_shapes(old(self).shapes((layer, datatype)))),
            forall|key: (i16, i16)|
                #[trigger] final(self).layer(key) == if done && key == (layer, datatype) && old(self).layer(key) is Some {
                    Some(merged_shapes(old(self).layer(key)->0))
                } else {
                    old(self).layer(key)
                },
    {
        let key = (layer, datatype);
        match find_entry(&self.entries, key) {
            Some(i) => {
                proof {
                    entry_found(self.entries@, key, self.entries@.len() as int, i as int);
                    assert(shapes_in_range(shapes_of(self.entries@[i as int].polys@)));
                }
                let merged = merge_polygons(&self.entries[i].polys);
                if !check_polygons(&merged) {
                    return false;
                }
                self.replace(i, merged);
                true
            },
            None => {
                proof {
                    entry_absent(self.entries@, key, self.entries@.len() as int);
                }
                true
            },
        }
    }

    /// Remove the polygons that lie in the bounding box of a larger one on a layer
    /// and datatype.  An absent layer stays absent.
    pub fn remove_contained(&mut self, layer: i16, datatype: i16)
        requires
            old(self).valid(),
        ensures
            final(self).valid(),
            forall|key: (i16, i16)|
                #[trigger] final(self).layer(key) == if key == (layer, datatype) && old(self).layer(key) is Some {
                    Some(uncontained(old(self).layer(key)->0, old(self).layer(key)->0.len() as int))
                } else {
                    old(self).layer(key)
                },
    {
        let key = (layer, datatype);
        match find_entry(&self.entries, key) {
            Some(i) => {
                let ghost shapes = shapes_of(self.entries@[i as int].polys@);
                proof {
                    entry_found(self.entries@, key, self.entries@.len() as int, i as int);
                    assert(shapes_in_range(shapes));
                    uncontained_in_range(shapes, shapes.len() as int);
                }
                let kept = remove_contained_polygons(&self.entries[i].polys);
                self.replace(i, kept);
            },
            None => {
                proof {
                    entry_absent(self.entries@, key, self.entries@.len() as int);
                }
            },
        }
    }

    /// Free the polygons of a layer and datatype.
    pub fn drop(&mut self, layer: i16, datatype: i16)
        requires
            old(self).valid(),
        ensures
            final(self).valid(),
            forall|key: (i16, i16)|
                #[trigger] final(self).layer(key) == if key == (layer, datatype) {
                    None
                } else {
                    old(self).layer(key)
                },
    {
        let key = (layer, datatype);
        match find_entry(&self.entries, key) {
            Some(i) => {
                let ghost before = self.entries@;
                let _ = self.entries.remove(i);
                proof {
                    let now = self.entries@;
                    assert(forall|j: int| 0 <= j < i ==> (#[trigger] now[j]) == before[j]);
                    assert(forall|j: int| i <= j < now.len() ==> (#[trigger] now[j]) == before[j + 1]);
                    assert forall|a: int, b: int| 0 <= a < b < now.len() implies (#[trigger] now[a]).key != (
                    #[trigger] now[b]).key by {
                        let (p, q) = (if a < i {
                            a
                        } else {
                            a + 1
                        }, if b < i {
                            b
                        } else {
                            b + 1
                        });
                        assert(before[p].key != before[q].key);
                    }
                    assert forall|j: int| 0 <= j < now.len() implies shapes_in_range(
                        shapes_of((#[trigger] now[j]).polys@),
                    ) by {
                        let p = if j < i {
                            j
                        } else {
                            j + 1
                        };
                        assert(shapes_in_range(shapes_of(before[p].polys@)));
                    }
                    assert forall|k: (i16, i16)|
                        #[trigger] self.layer(k) == if k == key {
                            None
                        } else {
                            old(self).layer(k)
                        } by {
                        if k == key {
                            assert forall|j: int| 0 <= j < now.len() implies (#[trigger] now[j]).key != key by {
                                let p = if j < i {
                                    j
                                } else {
                                    j + 1
                                };
                                assert(before[p].key != before[i as int].key);
                            }
                            entry_absent(now, key, now.len() as int);
                        } else if exists|j: int| 0 <= j < now.len() && (#[trigger] now[j]).key == k {
                            let j = choose|j: int| 0 <= j < now.len() && (#[trigger] now[j]).key == k;
                            entry_found(now, k, now.len() as int, j);
                            let p = if j < i {
                                j
                            } else {
                                j + 1
                            };
                            entry_found(before, k, before.len() as int, p);
                        } else {
                            entry_absent(now, k, now.len() as int);
                            assert forall|p: int| 0 <= p < before.len() implies (#[trigger] before[p]).key != k by {
                                if p != i {
                                    let j = if p < i {
                                        p
                                    } else {
                                        p - 1
                                    };
                                    assert(now[j].key != k);
                                }
                            }
                            entry_absent(before, k, before.len() as int);
                        }
                    }
                }
            },
            None => {
                proof {
                    entry_absent(self.entries@, key, self.entries@.len() as int);
                }
            },
        }
    }
}

/// What is left of in-range shapes is in range.
pub proof fn uncontained_in_range(shapes: Seq<Shape>, n: int)
    requires
        shapes_in_range(shapes),
        0 <= n <= shapes.len(),
    ensures
        shapes_in_range(uncontained(shapes, n)),
    decreases n,
{
    if n > 0 {
        uncontained_in_range(shapes, n - 1);
        assert(shapes[n - 1].in_range());
    }
}

/// The points of the exteriors of the first `n` shapes.
pub open spec fn all_points(shapes: Seq<Shape>, n: int) -> Seq<Point>
    decreases n,
{
    if n <= 0 {
        Seq::empty()
    } else {
        all_points(shapes, n - 1) + shapes[n - 1].exterior
    }
}

/// The smallest rectangle around two rectangles.
spec fn hull(a: Rect, b: Rect) -> Rect {
    Rect {
        x0: min_of(a.x0 as int, b.x0 as int) as i64,
        y0: min_of(a.y0 as int, b.y0 as int) as i64,
        x1: max_of(a.x1 as int, b.x1 as int) as i64,
        y1: max_of(a.y1 as int, b.y1 as int) as i64,
    }
}

proof fn bounds_of_prefix(a: Seq<Point>, b: Seq<Point>, n: int)
    requires
        0 < n <= a.len(),
    ensures
        bounds_upto(a + b, n) == bounds_upto(a, n),
    decreases n,
{
    if n > 1 {
        bounds_of_prefix(a, b, n - 1);
    }
}

proof fn bounds_of_join(a: Seq<Point>, b: Seq<Point>, n: int)
    requires
        a.len() > 0,
        0 < n <= b.len(),
    ensures
        bounds_upto(a + b, a.len() + n) == hull(bounds(a), bounds_upto(b, n)),
    decreases n,
{
    let s = a + b;
    bounds_of_prefix(a, b, a.len() as int);
    if n > 1 {
        bounds_of_join(a, b, n - 1);
    }
    assert(s[a.len() + n - 1] == b[n - 1]);
}

/// The sides that in turn the first `n` shapes leave of the chip: a shape left
/// of the chip centre pushes the left side to its right edge, and so on.
pub open spec fn inner_sides(shapes: Seq<Shape>, chip: Rect, n: int) -> Rect
    decreases n,
{
    if n <= 0 {
        chip
    } else {
        let r = inner_sides(shapes, chip, n - 1);
        let b = bounds(shapes[n - 1].exterior);
        if shapes[n - 1].exterior.len() == 0 {
            r
        } else {
            Rect {
                x0: if b.x0 + b.x1 < chip.x0 + chip.x1 {
                    max_of(r.x0 as int, b.x1 as int) as i64
                } else {
                    r.x0
                },
                x1: if b.x0 + b.x1 > chip.x0 + chip.x1 {
                    min_of(r.x1 as int, b.x0 as int) as i64
                } else {
                    r.x1
                },
                y0: if b.y0 + b.y1 < chip.y0 + chip.y1 {
                    max_of(r.y0 as int, b.y1 as int) as i64
                } else {
                    r.y0
                },
                y1: if b.y0 + b.y1 > chip.y0 + chip.y1 {
                    min_of(r.y1 as int, b.y0 as int) as i64
                } else {
                    r.y1
                },
            }
        }
    }
}

/// The bounding box of polygons, `None` if they have no point.
pub fn bounding_box(polys: &[Polygon]) -> (r: Option<Rect>)
    requires
        shapes_in_range(shapes_of(polys@)),
    ensures
        ({
            let points = all_points(shapes_of(polys@), polys@.len() as int);
            &&& r is None <==> points.len() == 0
            &&& r matches Some(b) ==> b == bounds(points) && b.in_range() && b.ordered()
        }),
{
    let ghost shapes = shapes_of(polys@);
    let mut hull_so_far: Option<Rect> = None;
    let mut i: usize = 0;
    while i < polys.len()
        invariant
            i <= polys@.len(),
            shapes == shapes_of(polys@),
            shapes_in_range(shapes),
            hull_so_far is None <==> all_points(shapes, i as int).len() == 0,
            hull_so_far matches Some(b) ==> b == bounds(all_points(shapes, i as int)) && b.in_range() && b.ordered(),
        decreases polys@.len() - i,
    {
        assert(shapes[i as int] == polys@[i as int]@);
        assert(shapes[i as int].in_range());
        let ghost before = all_points(shapes, i as int);
        let ghost ring = shapes[i as int].exterior;
        assert(all_points(shapes, i + 1) == before + ring);
        if let Some(b) = polys[i].bounding_rect() {
            proof {
                bounds_in_range(ring);
            }
            hull_so_far = match hull_so_far {
                Some(h) => {
                    proof {
                        bounds_of_join(before, ring, ring.len() as int);
                    }
                    Some(
                        Rect {
                            x0: min_i64(h.x0, b.x0),
                            y0: min_i64(h.y0, b.y0),
                            x1: max_i64(h.x1, b.x1),
                            y1: max_i64(h.y1, b.y1),
                        },
                    )
                },
                None => {
                    assert(before + ring =~= ring);
                    Some(b)
                },
            };
        } else {
            assert(before + ring =~= before);
        }
        i = i + 1;
    }
    hull_so_far
}

impl LayerMap {
    /// The bounding box of all shapes on a layer and datatype, `None` if there
    /// is no point on it.
    pub fn bbox(&self, layer: i16, datatype: i16) -> (r: Option<Rect>)
        requires
            self.valid(),
        ensures
            ({
                let shapes = self.shapes((layer, datatype));
                let points = all_points(shapes, shapes.len() as int);
                &&& r is None <==> points.len() == 0
                &&& r matches Some(b) ==> b == bounds(points) && b.in_range() && b.ordered()
            }),
    {
        bounding_box(self.polygons(layer, datatype))
    }

    /// The inner boundary of a ring-shaped layer: each polygon belongs to the
    /// left or right and to the lower or upper side of the chip by its centre,
    /// and bounds that side.  A centre on an axis bounds neither of its sides.
    /// `None` without polygons, or if nothing is left inside.
    pub fn inner_rect(&self, layer: i16, datatype: i16, chip_bbox: &Rect) -> (r: Option<Rect>)
        requires
            self.valid(),
            chip_bbox.in_range(),
        ensures
            ({
                let shapes = self.shapes((layer, datatype));
                let s = inner_sides(shapes, *chip_bbox, shapes.len() as int);
                &&& r is Some <==> shapes.len() > 0 && s.x0 < s.x1 && s.y0 < s.y1
                &&& r matches Some(b) ==> b == s
            }),
    {
        let polys = self.polygons(layer, datatype);
        let ghost shapes = shapes_of(polys@);
        if polys.len() == 0 {
            return None;
        }
        let chip = *chip_bbox;
        let mut s = chip;
        let mut i: usize = 0;
        while i < polys.len()
            invariant
                i <= polys@.len(),
                shapes == shapes_of(polys@),
                shapes_in_range(shapes),
                chip.in_range(),
                s == inner_sides(shapes, chip, i as int),
            decreases polys@.len() - i,
        {
            assert(shapes[i as int] == polys@[i as int]@);
            assert(shapes[i as int].in_range());
            if let Some(b) = polys[i].bounding_rect() {
                proof {
                    bounds_in_range(shapes[i as int].exterior);
                }
                let px = b.x0 + b.x1;
                let py = b.y0 + b.y1;
                let cx = chip.x0 + chip.x1;
                let cy = chip.y0 + chip.y1;
                let x0 = if px < cx {
                    max_i64(s.x0, b.x1)
                } else {
                    s.x0
                };
                let x1 = if px > cx {
                    min_i64(s.x1, b.x0)
                } else {
                    s.x1
                };
                let y0 = if py < cy {
                    max_i64(s.y0, b.y1)
                } else {
                    s.y0
                };
                let y1 = if py > cy {
                    min_i64(s.y1, b.y0)
                } else {
                    s.y1
                };
                s = Rect { x0, y0, x1, y1 };
            }
            i = i + 1;
        }
        if s.x0 < s.x1 && s.y0 < s.y1 {
            Some(s)
        } else {
            None
        }
    }
}

/// The inner boundary lies within the chip, right of every shape left of the
/// centre, and so on for the other sides.
pub proof fn inner_sides_clear(shapes: Seq<Shape>, chip: Rect, n: int)
    requires
        0 <= n <= shapes.len(),
    ensures
        chip.x0 <= inner_sides(shapes, chip, n).x0,
        inner_sides(shapes, chip, n).x1 <= chip.x1,
        chip.y0 <= inner_sides(shapes, chip, n).y0,
        inner_sides(shapes, chip, n).y1 <= chip.y1,
        forall|i: int|
            #![trigger shapes[i]]
            0 <= i < n && shapes[i].exterior.len() > 0 ==> {
                let b = bounds(shapes[i].exterior);
                let s = inner_sides(shapes, chip, n);
                &&& b.x0 + b.x1 < chip.x0 + chip.x1 ==> b.x1 <= s.x0
                &&& b.x0 + b.x1 > chip.x0 + chip.x1 ==> s.x1 <= b.x0
                &&& b.y0 + b.y1 < chip.y0 + chip.y1 ==> b.y1 <= s.y0
                &&& b.y0 + b.y1 > chip.y0 + chip.y1 ==> s.y1 <= b.y0
            },
    decreases n,
{
    if n > 0 {
        inner_sides_clear(shapes, chip, n - 1);
    }
}

proof fn shapes_on_prefix(a: Seq<Drawn>, b: Seq<Drawn>, key: (i16, i16), n: int)
    requires
        n <= a.len(),
        n <= b.len(),
        forall|i: int| 0 <= i < n ==> (#[trigger] a[i]) == b[i],
    ensures
        shapes_on(a, key, n) == shapes_on(b, key, n),
    decreases n,
{
    if n > 0 {
        shapes_on_prefix(a, b, key, n - 1);
    }
}

proof fn shapes_on_keys(drawn: Seq<Drawn>, keys: Seq<(i16, i16)>, key: (i16, i16))
    ensures
        ({
            let some = drawn_on_keys(drawn, keys);
            shapes_on(some, key, some.len() as int) == if keys.contains(key) {
                shapes_on(drawn, key, drawn.len() as int)
            } else {
                Seq::empty()
            }
        }),
    decreases drawn.len(),
{
    reveal(Seq::filter);
    if drawn.len() > 0 {
        let head = drawn.drop_last();
        shapes_on_keys(head, keys, key);
        shapes_on_prefix(drawn, head, key, drawn.len() - 1);
        let (before, now) = (drawn_on_keys(head, keys), drawn_on_keys(drawn, keys));
        if keys.contains(drawn.last().key) {
            assert(now =~= before.push(drawn.last()));
            shapes_on_prefix(now, before, key, before.len() as int);
        }
    }
}

/// A map built for some keys holds on each of them what the map of the whole
/// layout holds, and nothing elsewhere.
pub proof fn build_for_restricts_build(cells: Seq<Cell>, keys: Seq<(i16, i16)>, key: (i16, i16))
    requires
        flat_tops(cells, None, cells.len() as int) is Ok,
    ensures
        ({
            let all = flat_tops(cells, None, cells.len() as int);
            let some = flat_tops(cells, Some(keys), cells.len() as int);
            &&& some is Ok
            &&& layer_of(some->Ok_0, key) == if keys.contains(key) {
                layer_of(all->Ok_0, key)
            } else {
                None
            }
        }),
{
    flattening_restricts(cells, keys, cells.len() as int);
    let all = flat_tops(cells, None, cells.len() as int)->Ok_0;
    shapes_on_keys(all, keys, key);
}

/// No two polygons of a built layer have the same exterior, in whole database
/// units.
pub proof fn layers_hold_no_repeats(drawn: Seq<Drawn>, key: (i16, i16))
    ensures
        layer_of(drawn, key) matches Some(shapes) ==> forall|a: int, b: int|
            0 <= a < b < shapes.len() ==> dbu_ring((#[trigger] shapes[a]).exterior) != dbu_ring(
                (#[trigger] shapes[b]).exterior,
            ),
{
    let shapes = shapes_on(drawn, key, drawn.len() as int);
    kept_are_distinct(shapes, shapes.len() as int);
}

/// Drawn shapes `p` and `j` are on one layer and datatype, with the same exterior
/// in whole database units.
pub open spec fn are_alike(drawn: Seq<Drawn>, p: int, j: int) -> bool {
    drawn[p].key == drawn[j].key && dbu_ring(drawn[p].shape.exterior) == dbu_ring(drawn[j].shape.exterior)
}

/// No drawn shape before `p` is like it.
pub open spec fn is_first(drawn: Seq<Drawn>, p: int) -> bool {
    forall|q: int| 0 <= q < p ==> !#[trigger] are_alike(drawn, q, p)
}

/// The first drawn shape that is like `j`.
pub proof fn first_alike(drawn: Seq<Drawn>, j: int) -> (p: int)
    requires
        0 <= j < drawn.len(),
    ensures
        0 <= p <= j,
        are_alike(drawn, p, j),
        is_first(drawn, p),
    decreases j,
{
    if is_first(drawn, j) {
        j
    } else {
        let q = choose|q: int| 0 <= q < j && #[trigger] are_alike(drawn, q, j);
        first_alike(drawn, q)
    }
}

proof fn drawn_is_on(drawn: Seq<Drawn>, key: (i16, i16), p: int, n: int)
    requires
        0 <= p < n <= drawn.len(),
        drawn[p].key == key,
    ensures
        ({
            let at = shapes_on(drawn, key, p).len() as int;
            at < shapes_on(drawn, key, n).len() && shapes_on(drawn, key, n)[at] == drawn[p].shape && shapes_on(
                drawn,
                key,
                n,
            ).take(at) == shapes_on(drawn, key, p)
        }),
    decreases n,
{
    let at = shapes_on(drawn, key, p).len() as int;
    let now = shapes_on(drawn, key, n);
    if p < n - 1 {
        drawn_is_on(drawn, key, p, n - 1);
        let before = shapes_on(drawn, key, n - 1);
        assert(now.take(at) =~= before.take(at));
    } else {
        assert(now.take(at) =~= shapes_on(drawn, key, p));
    }
}

proof fn on_is_drawn(drawn: Seq<Drawn>, key: (i16, i16), n: int, i: int)
    requires
        0 <= n <= drawn.len(),
        0 <= i < shapes_on(drawn, key, n).len(),
    ensures
        exists|q: int|
            0 <= q < n && (#[trigger] drawn[q]).key == key && drawn[q].shape == shapes_on(drawn, key, n)[i],
    decreases n,
{
    if n > 0 {
        let before = shapes_on(drawn, key, n - 1);
        if i < before.len() {
            on_is_drawn(drawn, key, n - 1, i);
            let q = choose|q: int| 0 <= q < n - 1 && (#[trigger] drawn[q]).key == key && drawn[q].shape == before[i];
            assert(drawn[q].shape == shapes_on(drawn, key, n)[i]);
        } else {
            assert(drawn[n - 1].key == key);
        }
    }
}

/// A layer holds each drawn shape that is like none before it.
pub proof fn first_is_held(drawn: Seq<Drawn>, p: int)
    requires
        0 <= p < drawn.len(),
        is_first(drawn, p),
    ensures
        layer_of(drawn, drawn[p].key) is Some,
        layer_of(drawn, drawn[p].key)->0.contains(drawn[p].shape),
{
    let key = drawn[p].key;
    let n = drawn.len() as int;
    let shapes = shapes_on(drawn, key, n);
    let at = shapes_on(drawn, key, p).len() as int;
    drawn_is_on(drawn, key, p, n);
    assert(!is_repeated(shapes, at)) by {
        if is_repeated(shapes, at) {
            let i = choose|i: int|
                0 <= i < at && dbu_ring((#[trigger] shapes[i]).exterior) == dbu_ring(shapes[at].exterior);
            assert(shapes.take(at)[i] == shapes[i]);
            on_is_drawn(drawn, key, p, i);
            let q = choose|q: int|
                0 <= q < p && (#[trigger] drawn[q]).key == key && drawn[q].shape == shapes_on(drawn, key, p)[i];
            assert(are_alike(drawn, q, p));
        }
    }
    first_is_kept(shapes, shapes.len() as int, at);
}

/// The inner boundary leaves nothing out for no reason: each of its sides is one of
/// the chip, or an edge of a shape on that side of the centre.
pub proof fn inner_sides_are_tight(shapes: Seq<Shape>, chip: Rect, n: int)
    requires
        0 <= n <= shapes.len(),
    ensures
        ({
            let s = inner_sides(shapes, chip, n);
            &&& s.x0 == chip.x0 || exists|i: int|
                0 <= i < n && is_left_of(#[trigger] shapes[i], chip) && bounds(shapes[i].exterior).x1 == s.x0
            &&& s.x1 == chip.x1 || exists|i: int|
                0 <= i < n && is_right_of(#[trigger] shapes[i], chip) && bounds(shapes[i].exterior).x0 == s.x1
            &&& s.y0 == chip.y0 || exists|i: int|
                0 <= i < n && is_below(#[trigger] shapes[i], chip) && bounds(shapes[i].exterior).y1 == s.y0
            &&& s.y1 == chip.y1 || exists|i: int|
                0 <= i < n && is_above(#[trigger] shapes[i], chip) && bounds(shapes[i].exterior).y0 == s.y1
        }),
    decreases n,
{
    if n > 0 {
        inner_sides_are_tight(shapes, chip, n - 1);
        let last = shapes[n - 1];
        let (r, s) = (inner_sides(shapes, chip, n - 1), inner_sides(shapes, chip, n));
        assert(s.x0 == r.x0 || is_left_of(last, chip) && bounds(last.exterior).x1 == s.x0);
        assert(s.x1 == r.x1 || is_right_of(last, chip) && bounds(last.exterior).x0 == s.x1);
        assert(s.y0 == r.y0 || is_below(last, chip) && bounds(last.exterior).y1 == s.y0);
        assert(s.y1 == r.y1 || is_above(last, chip) && bounds(last.exterior).y0 == s.y1);
    }
}

/// The centre of the box of the shape is left of that of the chip.
pub open spec fn is_left_of(s: Shape, chip: Rect) -> bool {
    s.exterior.len() > 0 && bounds(s.exterior).x0 + bounds(s.exterior).x1 < chip.x0 + chip.x1
}

/// The centre of the box of the shape is right of that of the chip.
pub open spec fn is_right_of(s: Shape, chip: Rect) -> bool {
    s.exterior.len() > 0 && bounds(s.exterior).x0 + bounds(s.exterior).x1 > chip.x0 + chip.x1
}

/// The centre of the box of the shape is below that of the chip.
pub open spec fn is_below(s: Shape, chip: Rect) -> bool {
    s.exterior.len() > 0 && bounds(s.exterior).y0 + bounds(s.exterior).y1 < chip.y0 + chip.y1
}

/// The centre of the box of the shape is above that of the chip.
pub open spec fn is_above(s: Shape, chip: Rect) -> bool {
    s.exterior.len() > 0 && bounds(s.exterior).y0 + bounds(s.exterior).y1 > chip.y0 + chip.y1
}

/// Every point of a shape is among those of all shapes.
proof fn point_is_listed(shapes: Seq<Shape>, n: int, k: int, i: int)
    requires
        0 <= k < n <= shapes.len(),
        0 <= i < shapes[k].exterior.len(),
    ensures
        all_points(shapes, n).contains(shapes[k].exterior[i]),
    decreases n,
{
    let p = shapes[k].exterior[i];
    let (before, now) = (all_points(shapes, n - 1), all_points(shapes, n));
    if k == n - 1 {
        assert(now[before.len() + i] == p);
    } else {
        point_is_listed(shapes, n - 1, k, i);
        let b = choose|b: int| 0 <= b < before.len() && before[b] == p;
        assert(now[b] == p);
    }
}

/// Every listed point is one of a shape.
proof fn listed_point_is_of_shape(shapes: Seq<Shape>, n: int, b: int) -> (at: (int, int))
    requires
        0 <= n <= shapes.len(),
        0 <= b < all_points(shapes, n).len(),
    ensures
        0 <= at.0 < n,
        0 <= at.1 < shapes[at.0].exterior.len(),
        shapes[at.0].exterior[at.1] == all_points(shapes, n)[b],
    decreases n,
{
    let before = all_points(shapes, n - 1);
    if b < before.len() {
        listed_point_is_of_shape(shapes, n - 1, b)
    } else {
        (n - 1, b - before.len())
    }
}

/// The shape has a point at this x coordinate, or at this y coordinate.
pub open spec fn has_point_at(s: Shape, x: Option<int>, y: Option<int>) -> bool {
    exists|i: int|
        0 <= i < s.exterior.len() && (x matches Some(v) ==> (#[trigger] s.exterior[i]).x == v) && (
        y matches Some(v) ==> s.exterior[i].y == v)
}

/// The bounding box of a layer is drawn tightly around its shapes: no point lies
/// outside, and on each of its sides lies a point.
pub proof fn box_is_drawn_around_the_shapes(shapes: Seq<Shape>)
    requires
        all_points(shapes, shapes.len() as int).len() > 0,
    ensures
        ({
            let b = bounds(all_points(shapes, shapes.len() as int));
            &&& forall|k: int, i: int|
                0 <= k < shapes.len() && 0 <= i < shapes[k].exterior.len() ==> b.x0 <= (
                #[trigger] shapes[k].exterior[i]).x <= b.x1 && b.y0 <= shapes[k].exterior[i].y <= b.y1
            &&& exists|k: int| 0 <= k < shapes.len() && #[trigger] has_point_at(shapes[k], Some(b.x0 as int), None)
            &&& exists|k: int| 0 <= k < shapes.len() && #[trigger] has_point_at(shapes[k], Some(b.x1 as int), None)
            &&& exists|k: int| 0 <= k < shapes.len() && #[trigger] has_point_at(shapes[k], None, Some(b.y0 as int))
            &&& exists|k: int| 0 <= k < shapes.len() && #[trigger] has_point_at(shapes[k], None, Some(b.y1 as int))
        }),
{
    let n = shapes.len() as int;
    let points = all_points(shapes, n);
    let b = bounds(points);
    bounds_are_tight(points, points.len() as int);
    assert forall|k: int, i: int| 0 <= k < shapes.len() && 0 <= i < shapes[k].exterior.len() implies b.x0 <= (
    #[trigger] shapes[k].exterior[i]).x <= b.x1 && b.y0 <= shapes[k].exterior[i].y <= b.y1 by {
        point_is_listed(shapes, n, k, i);
        let q = choose|q: int| 0 <= q < points.len() && points[q] == shapes[k].exterior[i];
        assert(b.x0 <= points[q].x <= b.x1);
    }
    let p = choose|p: int| 0 <= p < points.len() && (#[trigger] points[p]).x == b.x0;
    let (k, i) = listed_point_is_of_shape(shapes, n, p);
    assert(shapes[k].exterior[i].x == b.x0);
    assert(has_point_at(shapes[k], Some(b.x0 as int), None));
    let p = choose|p: int| 0 <= p < points.len() && (#[trigger] points[p]).x == b.x1;
    let (k, i) = listed_point_is_of_shape(shapes, n, p);
    assert(shapes[k].exterior[i].x == b.x1);
    assert(has_point_at(shapes[k], Some(b.x1 as int), None));
    let p = choose|p: int| 0 <= p < points.len() && (#[trigger] points[p]).y == b.y0;
    let (k, i) = listed_point_is_of_shape(shapes, n, p);
    assert(shapes[k].exterior[i].y == b.y0);
    assert(has_point_at(shapes[k], None, Some(b.y0 as int)));
    let p = choose|p: int| 0 <= p < points.len() && (#[trigger] points[p]).y == b.y1;
    let (k, i) = listed_point_is_of_shape(shapes, n, p);
    assert(shapes[k].exterior[i].y == b.y1);
    assert(has_point_at(shapes[k], None, Some(b.y1 as int)));
}

} // verus!
