//! Removal of shapes nested inside larger ones.

use crate::geom::abs_of;
use crate::geom::area2;
use crate::geom::bounds;
use crate::geom::bounds_in_range;
use crate::geom::is_box;
use crate::geom::shapes_in_range;
use crate::geom::shapes_of;
use crate::geom::Polygon;
use crate::geom::Rect;
use crate::geom::Shape;
use crate::order::is_ranking;
use crate::order::ranks_before;
use crate::order::sort_indices;
use vstd::prelude::*;

verus! {

/// At most this many of the largest boxes are considered as containers.
pub const MAX_SCAN: usize = 8192;

/// An axis-aligned rectangle: four corners, and an area that agrees with the
/// bounding box to one part in a million.
pub open spec fn is_rect_shape(s: Shape) -> bool {
    let box2 = 2 * bounds(s.exterior).spec_area();
    s.exterior.len() == 5 && box2 > 0 && abs_of(box2 - area2(s)) * 1_000_000 < box2
}

/// Is `poly` an axis-aligned rectangle?
pub fn is_rect(poly: &Polygon) -> (b: bool)
    requires
        poly@.in_range(),
    ensures
        b == is_rect_shape(poly@),
{
    if poly.exterior.len() != 5 {
        return false;
    }
    let bbox = match poly.bounding_rect() {
        Some(r) => r,
        None => {
            return false;
        },
    };
    proof {
        bounds_in_range(poly@.exterior);
    }
    let box2: i128 = 2 * bbox.area();
    if box2 <= 0 {
        return false;
    }
    match poly.unsigned_area2() {
        Some(a) => {
            let diff: i128 = if box2 >= a {
                box2 - a
            } else {
                a - box2
            };
            diff <= (box2 - 1) / 1_000_000
        },
        None => false,
    }
}

/// The shape has a bounding box.
pub open spec fn has_box(s: Shape) -> bool {
    s.exterior.len() > 0
}

/// Area of the bounding box of shape `i`.
pub open spec fn box_area(shapes: Seq<Shape>, i: int) -> int {
    bounds(shapes[i].exterior).spec_area()
}

/// The box of shape `a` comes before that of `b`: larger first, then by position.
pub open spec fn larger_first(shapes: Seq<Shape>, a: int, b: int) -> bool {
    box_area(shapes, a) > box_area(shapes, b) || (box_area(shapes, a) == box_area(shapes, b) && a < b)
}

/// The shapes whose boxes come before that of `j`.
pub open spec fn boxes_before(shapes: Seq<Shape>, j: int) -> Set<int> {
    Set::new(|k: int| 0 <= k < shapes.len() && has_box(shapes[k]) && larger_first(shapes, k, j))
}

/// The box of `j` is one of the [`MAX_SCAN`] largest.
pub open spec fn is_scanned(shapes: Seq<Shape>, j: int) -> bool {
    &&& 0 <= j < shapes.len()
    &&& has_box(shapes[j])
    &&& boxes_before(shapes, j).len() < MAX_SCAN
}

/// The box of shape `i` lies inside a strictly larger scanned box.
pub open spec fn is_contained(shapes: Seq<Shape>, i: int) -> bool {
    &&& has_box(shapes[i])
    &&& exists|j: int|
        #[trigger] is_scanned(shapes, j) && box_area(shapes, j) > box_area(shapes, i) && bounds(
            shapes[j].exterior,
        ).spec_encloses(bounds(shapes[i].exterior))
}

/// The shapes among the first `n` that are not contained, in order.
pub open spec fn uncontained(shapes: Seq<Shape>, n: int) -> Seq<Shape>
    decreases n,
{
    if n <= 0 {
        Seq::empty()
    } else if is_contained(shapes, n - 1) {
        uncontained(shapes, n - 1)
    } else {
        uncontained(shapes, n - 1).push(shapes[n - 1])
    }
}

/// An enclosing rectangle is at least as large.
proof fn enclosing_is_larger(a: Rect, b: Rect)
    requires
        b.ordered(),
        a.spec_encloses(b),
    ensures
        a.spec_area() >= b.spec_area(),
{
    assert(a.width() * a.height() >= b.width() * b.height()) by (nonlinear_arith)
        requires
            a.width() >= b.width() >= 0,
            a.height() >= b.height() >= 0,
    ;
}

/// `boxes[p]` and `keys[p]` describe the p-th box, that of shape `boxed[p]`.
spec fn box_table(shapes: Seq<Shape>, boxed: Seq<usize>, boxes: Seq<Rect>, keys: Seq<i128>, n: int) -> bool {
    &&& boxes.len() == boxed.len()
    &&& keys.len() == boxed.len()
    &&& forall|p: int|
        0 <= p < boxed.len() ==> (#[trigger] boxed[p]) < n && has_box(shapes[boxed[p] as int]) && boxes[p]
            == bounds(shapes[boxed[p] as int].exterior) && keys[p] == -box_area(shapes, boxed[p] as int)
            && boxes[p].in_range() && boxes[p].ordered()
    &&& forall|p: int, q: int| 0 <= p < q < boxed.len() ==> (#[trigger] boxed[p]) < (#[trigger] boxed[q])
    &&& forall|i: int|
        0 <= i < n && has_box(#[trigger] shapes[i]) ==> boxed.contains(i as usize)
}

/// The p-th box in rank order has exactly `p` boxes before it.
proof fn rank_counts(shapes: Seq<Shape>, boxed: Seq<usize>, boxes: Seq<Rect>, keys: Seq<i128>, order: Seq<usize>, p: int)
    requires
        box_table(shapes, boxed, boxes, keys, shapes.len() as int),
        shapes.len() <= usize::MAX,
        is_ranking(keys, order),
        keys.len() <= usize::MAX,
        0 <= p < order.len(),
    ensures
        boxes_before(shapes, boxed[order[p] as int] as int).finite(),
        boxes_before(shapes, boxed[order[p] as int] as int).len() == p,
{
    let j = boxed[order[p] as int] as int;
    let firsts = Seq::new(p as nat, |q: int| boxed[order[q] as int] as int);
    assert forall|a: int, b: int| 0 <= a < p && 0 <= b < p && a != b implies firsts[a] != firsts[b] by {
        if a < b {
            assert(ranks_before(keys, order[a] as int, order[b] as int));
        } else {
            assert(ranks_before(keys, order[b] as int, order[a] as int));
        }
        let (x, y) = (order[a] as int, order[b] as int);
        assert(x != y);
        if x < y {
            assert(boxed[x] < boxed[y]);
        } else {
            assert(boxed[y] < boxed[x]);
        }
    }
    firsts.unique_seq_to_set();
    assert forall|k: int| boxes_before(shapes, j).contains(k) <==> firsts.to_set().contains(k) by {
        if boxes_before(shapes, j).contains(k) {
            assert(has_box(shapes[k]));
            assert(boxed.contains(k as usize));
            let x = choose|x: int| 0 <= x < boxed.len() && boxed[x] == k as usize;
            assert(order.contains(x as usize));
            let q = choose|q: int| 0 <= q < order.len() && order[q] == x as usize;
            if q >= p {
                if q > p {
                    assert(ranks_before(keys, order[p] as int, order[q] as int));
                }
                let y = order[p] as int;
                if x < y {
                    assert(boxed[x] < boxed[y]);
                } else if y < x {
                    assert(boxed[y] < boxed[x]);
                }
                assert(false);
            }
            assert(firsts[q] == k);
        }
        if firsts.to_set().contains(k) {
            let q = choose|q: int| 0 <= q < firsts.len() && firsts[q] == k;
            assert(ranks_before(keys, order[q] as int, order[p] as int));
            let (x, y) = (order[q] as int, order[p] as int);
            if x < y {
                assert(boxed[x] < boxed[y]);
            }
            assert(boxed[x] < shapes.len());
        }
    }
    assert(boxes_before(shapes, j) =~= firsts.to_set());
}

/// Does one of `containers` enclose `r` and exceed it in area?
fn any_larger_encloses(containers: &Vec<Rect>, r: &Rect) -> (b: bool)
    requires
        r.in_range(),
        forall|c: int| 0 <= c < containers@.len() ==> (#[trigger] containers@[c]).in_range(),
    ensures
        b == exists|c: int|
            0 <= c < containers@.len() && (#[trigger] containers@[c]).spec_area() > r.spec_area()
                && containers@[c].spec_encloses(*r),
{
    let area = r.area();
    let mut c: usize = 0;
    while c < containers.len()
        invariant
            c <= containers@.len(),
            area == r.spec_area(),
            forall|d: int| 0 <= d < containers@.len() ==> (#[trigger] containers@[d]).in_range(),
            forall|d: int|
                0 <= d < c ==> !((#[trigger] containers@[d]).spec_area() > r.spec_area()
                    && containers@[d].spec_encloses(*r)),
        decreases containers@.len() - c,
    {
        assert(containers@[c as int].in_range());
        if containers[c].encloses(r) && containers[c].area() > area {
            return true;
        }
        c = c + 1;
    }
    false
}

/// `r` is one of the first [`MAX_SCAN`] boxes in rank order.
spec fn scanned_box(boxes: Seq<Rect>, order: Seq<usize>, m: int, r: Rect) -> bool {
    exists|p: int| 0 <= p < m && p < MAX_SCAN && r == boxes[#[trigger] order[p] as int]
}

/// One of `containers` encloses `r`.
spec fn any_encloses(containers: Seq<Rect>, r: Rect) -> bool {
    exists|c: int| 0 <= c < containers.len() && (#[trigger] containers[c]).spec_encloses(r)
}

/// The boxes among the first [`MAX_SCAN`] that lie in no earlier one.
fn find_containers(boxes: &Vec<Rect>, order: &Vec<usize>) -> (containers: Vec<Rect>)
    requires
        order@.len() == boxes@.len(),
        forall|p: int| 0 <= p < order@.len() ==> (#[trigger] order@[p]) < boxes@.len(),
        forall|p: int| 0 <= p < boxes@.len() ==> (#[trigger] boxes@[p]).in_range() && boxes@[p].ordered(),
    ensures
        forall|c: int|
            0 <= c < containers@.len() ==> #[trigger] scanned_box(boxes@, order@, order@.len() as int, containers@[c]),
        forall|p: int|
            0 <= p < order@.len() && p < MAX_SCAN ==> #[trigger] any_encloses(
                containers@,
                boxes@[order@[p] as int],
            ),
{
    let mut containers: Vec<Rect> = Vec::new();
    let mut p: usize = 0;
    while p < order.len() && p < MAX_SCAN
        invariant
            p <= order@.len(),
            p <= MAX_SCAN,
            order@.len() == boxes@.len(),
            forall|q: int| 0 <= q < order@.len() ==> (#[trigger] order@[q]) < boxes@.len(),
            forall|c: int|
                0 <= c < containers@.len() ==> #[trigger] scanned_box(
                    boxes@,
                    order@,
                    order@.len() as int,
                    containers@[c],
                ),
            forall|q: int| 0 <= q < p ==> #[trigger] any_encloses(containers@, boxes@[order@[q] as int]),
        decreases order@.len() - p,
    {
        let b = boxes[order[p]];
        let mut c: usize = 0;
        let mut is_sub: bool = false;
        while c < containers.len()
            invariant
                c <= containers@.len(),
                is_sub ==> exists|d: int| 0 <= d < containers@.len() && (#[trigger] containers@[d]).spec_encloses(b),
            decreases containers@.len() - c,
        {
            if containers[c].encloses(&b) {
                is_sub = true;
            }
            c = c + 1;
        }
        let ghost prev = containers@;
        if !is_sub {
            containers.push(b);
        }
        proof {
            assert(forall|d: int| 0 <= d < prev.len() ==> containers@[d] == prev[d]);
            if !is_sub {
                assert(containers@[prev.len() as int].spec_encloses(b));
                assert(containers@[prev.len() as int] == boxes@[order@[p as int] as int]);
            }
            assert forall|q: int| 0 <= q < p + 1 implies #[trigger] any_encloses(
                containers@,
                boxes@[order@[q] as int],
            ) by {
                let r = boxes@[order@[q] as int];
                if q < p {
                    assert(any_encloses(prev, r));
                    let c = choose|c: int| 0 <= c < prev.len() && (#[trigger] prev[c]).spec_encloses(r);
                    assert(containers@[c].spec_encloses(r));
                } else if is_sub {
                    let d = choose|d: int| 0 <= d < prev.len() && (#[trigger] prev[d]).spec_encloses(b);
                    assert(containers@[d].spec_encloses(b));
                }
            }
            assert forall|c: int| 0 <= c < containers@.len() implies #[trigger] scanned_box(
                boxes@,
                order@,
                order@.len() as int,
                containers@[c],
            ) by {
                if c < prev.len() {
                    assert(scanned_box(boxes@, order@, order@.len() as int, prev[c]));
                } else {
                    assert(containers@[c] == boxes@[order@[p as int] as int]);
                }
            }
        }
        p = p + 1;
    }
    containers
}

/// Remove the shapes whose bounding box lies within the strictly larger bounding
/// box of another.  This is exact for rectangles and approximate otherwise.
/// Containers are sought among the [`MAX_SCAN`] largest boxes.
pub fn remove_contained_polygons(polys: &[Polygon]) -> (out: Vec<Polygon>)
    requires
        shapes_in_range(shapes_of(polys@)),
    ensures
        shapes_of(out@) == uncontained(shapes_of(polys@), polys@.len() as int),
{
    let ghost shapes = shapes_of(polys@);
    let n = polys.len();
    let mut boxed: Vec<usize> = Vec::new();
    let mut boxes: Vec<Rect> = Vec::new();
    let mut keys: Vec<i128> = Vec::new();
    let mut i: usize = 0;
    while i < n
        invariant
            n == polys@.len(),
            i <= n,
            shapes == shapes_of(polys@),
            shapes_in_range(shapes),
            box_table(shapes, boxed@, boxes@, keys@, i as int),
        decreases n - i,
    {
        assert(shapes[i as int] == polys@[i as int]@);
        let ghost prev = boxed@;
        if let Some(b) = polys[i].bounding_rect() {
            proof {
                bounds_in_range(polys@[i as int]@.exterior);
            }
            boxed.push(i);
            boxes.push(b);
            keys.push(-b.area());
        }
        proof {
            assert forall|k: int| 0 <= k < i + 1 && has_box(#[trigger] shapes[k]) implies boxed@.contains(
                k as usize,
            ) by {
                if k < i {
                    assert(prev.contains(k as usize));
                    let x = choose|x: int| 0 <= x < prev.len() && prev[x] == k as usize;
                    assert(boxed@[x] == k as usize);
                } else {
                    assert(boxed@[prev.len() as int] == i);
                }
            }
        }
        i = i + 1;
    }
    let order = sort_indices(&keys);
    proof {
        assert forall|p: int| 0 <= p < boxes@.len() implies (#[trigger] boxes@[p]).in_range() && boxes@[p].ordered() by {
            assert(boxed@[p] < n);
        }
    }
    let m = order.len();
    let containers = find_containers(&boxes, &order);
    proof {
        assert forall|c: int| 0 <= c < containers@.len() implies (#[trigger] containers@[c]).in_range() by {
            assert(scanned_box(boxes@, order@, m as int, containers@[c]));
            let p = choose|p: int|
                0 <= p < order@.len() && p < MAX_SCAN && containers@[c] == boxes@[#[trigger] order@[p] as int];
        }
    }
    let mut out: Vec<Polygon> = Vec::new();
    let mut next: usize = 0;
    let mut i: usize = 0;
    while i < n
        invariant
            n == polys@.len(),
            i <= n,
            m == order@.len(),
            shapes == shapes_of(polys@),
            box_table(shapes, boxed@, boxes@, keys@, n as int),
            is_ranking(keys@, order@),
            forall|c: int|
                0 <= c < containers@.len() ==> #[trigger] scanned_box(boxes@, order@, m as int, containers@[c]),
            forall|p: int|
                0 <= p < m && p < MAX_SCAN ==> #[trigger] any_encloses(containers@, boxes@[order@[p] as int]),
            forall|c: int| 0 <= c < containers@.len() ==> (#[trigger] containers@[c]).in_range(),
            next <= boxed@.len(),
            forall|p: int| 0 <= p < next ==> (#[trigger] boxed@[p]) < i,
            next < boxed@.len() ==> boxed@[next as int] >= i,
            shapes_of(out@) == uncontained(shapes, i as int),
        decreases n - i,
    {
        assert(shapes[i as int] == polys@[i as int]@);
        let mut contained: bool = false;
        let has_bounds: bool = next < boxed.len() && boxed[next] == i;
        proof {
            if has_box(shapes[i as int]) {
                assert(boxed@.contains((i as int) as usize));
                let x = choose|x: int| 0 <= x < boxed@.len() && boxed@[x] == i;
                if x < next {
                    assert(boxed@[x] < i);
                }
                if x > next {
                    assert(boxed@[next as int] < boxed@[x]);
                }
                assert(has_bounds);
            }
        }
        if has_bounds {
            let b = boxes[next];
            assert(boxed@[next as int] < n);
            contained = any_larger_encloses(&containers, &b);
            proof {
                assert(b == bounds(shapes[i as int].exterior));
                if contained {
                    let c = choose|c: int|
                        0 <= c < containers@.len() && (#[trigger] containers@[c]).spec_area() > b.spec_area()
                            && containers@[c].spec_encloses(b);
                    assert(scanned_box(boxes@, order@, m as int, containers@[c]));
                    let p = choose|p: int|
                        0 <= p < order@.len() && p < MAX_SCAN && containers@[c] == boxes@[#[trigger] order@[p] as int];
                    assert(boxed@[order@[p] as int] < n);
                    rank_counts(shapes, boxed@, boxes@, keys@, order@, p);
                    let j = boxed@[order@[p] as int] as int;
                    assert(is_scanned(shapes, j));
                }
                if is_contained(shapes, i as int) {
                    let j = choose|j: int|
                        #[trigger] is_scanned(shapes, j) && box_area(shapes, j) > box_area(shapes, i as int) && bounds(
                            shapes[j].exterior,
                        ).spec_encloses(bounds(shapes[i as int].exterior));
                    assert(has_box(shapes[j]));
                    assert(boxed@.contains(j as usize));
                    let x = choose|x: int| 0 <= x < boxed@.len() && boxed@[x] == j as usize;
                    assert(order@.contains(x as usize));
                    let p = choose|p: int| 0 <= p < order@.len() && order@[p] == x as usize;
                    rank_counts(shapes, boxed@, boxes@, keys@, order@, p);
                    assert(any_encloses(containers@, boxes@[order@[p] as int]));
                    let c = choose|c: int|
                        0 <= c < containers@.len() && (#[trigger] containers@[c]).spec_encloses(
                            boxes@[order@[p] as int],
                        );
                    assert(boxed@[x] < n);
                    enclosing_is_larger(containers@[c], boxes@[order@[p] as int]);
                    assert(containers@[c].spec_encloses(b));
                    assert(contained);
                }
            }
            next = next + 1;
        }
        let ghost prev = out@;
        if !contained {
            out.push(polys[i].duplicate());
        }
        proof {
            if !contained {
                assert(shapes_of(out@) =~= shapes_of(prev).push(shapes[i as int]));
            }
        }
        i = i + 1;
    }
    out
}

/// Shape `j` is kept.
pub open spec fn is_kept(shapes: Seq<Shape>, j: int) -> bool {
    0 <= j < shapes.len() && !is_contained(shapes, j)
}

proof fn kept_is_listed(shapes: Seq<Shape>, n: int, j: int)
    requires
        0 <= j < n <= shapes.len(),
        is_kept(shapes, j),
    ensures
        uncontained(shapes, n).contains(shapes[j]),
    decreases n,
{
    let now = uncontained(shapes, n);
    if j == n - 1 {
        assert(now[now.len() - 1] == shapes[j]);
    } else {
        kept_is_listed(shapes, n - 1, j);
        let before = uncontained(shapes, n - 1);
        let p = choose|p: int| 0 <= p < before.len() && before[p] == shapes[j];
        assert(now[p] == shapes[j]);
    }
}

/// The bounding box of every shape lies inside that of a shape that is kept.
pub proof fn removal_keeps_cover(shapes: Seq<Shape>, i: int)
    requires
        shapes_in_range(shapes),
        0 <= i < shapes.len(),
    ensures
        exists|j: int|
            #[trigger] is_kept(shapes, j) && (has_box(shapes[i]) ==> has_box(shapes[j])) && bounds(
                shapes[j].exterior,
            ).spec_encloses(bounds(shapes[i].exterior)) && uncontained(shapes, shapes.len() as int).contains(shapes[j]),
    decreases 0x2_0000_0000_0000_0000 - box_area(shapes, i),
{
    if is_contained(shapes, i) {
        let j = choose|j: int|
            #[trigger] is_scanned(shapes, j) && box_area(shapes, j) > box_area(shapes, i) && bounds(
                shapes[j].exterior,
            ).spec_encloses(bounds(shapes[i].exterior));
        let b = bounds(shapes[j].exterior);
        assert(shapes[j].in_range());
        bounds_in_range(shapes[j].exterior);
        assert(b.width() * b.height() <= 0x1_0000_0000_0000_0000) by (nonlinear_arith)
            requires
                0 <= b.width() <= 0x1_0000_0000,
                0 <= b.height() <= 0x1_0000_0000,
        ;
        removal_keeps_cover(shapes, j);
        let k = choose|k: int|
            #[trigger] is_kept(shapes, k) && bounds(shapes[k].exterior).spec_encloses(bounds(shapes[j].exterior))
                && uncontained(shapes, shapes.len() as int).contains(shapes[k]);
        assert(is_kept(shapes, k));
        assert(bounds(shapes[k].exterior).spec_encloses(bounds(shapes[i].exterior)));
    } else {
        assert(is_kept(shapes, i));
        kept_is_listed(shapes, shapes.len() as int, i);
    }
}

/// A strictly larger box of another shape encloses that of shape `i`.
pub open spec fn is_enclosed(shapes: Seq<Shape>, i: int) -> bool {
    has_box(shapes[i]) && exists|j: int|
        0 <= j < shapes.len() && #[trigger] has_box(shapes[j]) && box_area(shapes, j) > box_area(shapes, i) && bounds(
            shapes[j].exterior,
        ).spec_encloses(bounds(shapes[i].exterior))
}

/// Among at most [`MAX_SCAN`] shapes, exactly those are removed whose box lies
/// in a strictly larger box.
pub proof fn few_shapes_are_all_scanned(shapes: Seq<Shape>, i: int)
    requires
        shapes.len() <= MAX_SCAN,
        0 <= i < shapes.len(),
    ensures
        is_contained(shapes, i) == is_enclosed(shapes, i),
{
    assert forall|j: int| 0 <= j < shapes.len() && #[trigger] has_box(shapes[j]) implies is_scanned(shapes, j) by {
        let all = Set::new(|k: int| 0 <= k < shapes.len());
        vstd::set_lib::lemma_int_range(0, shapes.len() as int);
        assert(all =~= vstd::set_lib::set_int_range(0, shapes.len() as int));
        let before = boxes_before(shapes, j);
        assert(before.subset_of(all.remove(j)));
        vstd::set_lib::lemma_len_subset(before, all.remove(j));
    }
    if is_contained(shapes, i) {
        let j = choose|j: int|
            #[trigger] is_scanned(shapes, j) && box_area(shapes, j) > box_area(shapes, i) && bounds(
                shapes[j].exterior,
            ).spec_encloses(bounds(shapes[i].exterior));
        assert(has_box(shapes[j]));
    }
    if is_enclosed(shapes, i) {
        let j = choose|j: int|
            0 <= j < shapes.len() && #[trigger] has_box(shapes[j]) && box_area(shapes, j) > box_area(shapes, i)
                && bounds(shapes[j].exterior).spec_encloses(bounds(shapes[i].exterior));
        assert(is_scanned(shapes, j));
    }
}

proof fn listed_is_kept(shapes: Seq<Shape>, n: int, q: int)
    requires
        0 <= n <= shapes.len(),
        0 <= q < uncontained(shapes, n).len(),
    ensures
        exists|i: int| 0 <= i < n && #[trigger] is_kept(shapes, i) && uncontained(shapes, n)[q] == shapes[i],
    decreases n,
{
    if n > 0 {
        let before = uncontained(shapes, n - 1);
        if q < before.len() {
            listed_is_kept(shapes, n - 1, q);
            let i = choose|i: int| 0 <= i < n - 1 && #[trigger] is_kept(shapes, i) && before[q] == shapes[i];
            assert(is_kept(shapes, i) && uncontained(shapes, n)[q] == shapes[i]);
        } else {
            assert(is_kept(shapes, n - 1));
        }
    }
}

proof fn uncontained_is_shorter(shapes: Seq<Shape>, n: int)
    requires
        0 <= n <= shapes.len(),
    ensures
        uncontained(shapes, n).len() <= n,
    decreases n,
{
    if n > 0 {
        uncontained_is_shorter(shapes, n - 1);
    }
}

proof fn nothing_more_goes(shapes: Seq<Shape>, m: int)
    requires
        shapes.len() <= MAX_SCAN,
        0 <= m <= uncontained(shapes, shapes.len() as int).len(),
    ensures
        ({
            let kept = uncontained(shapes, shapes.len() as int);
            uncontained(kept, m) == kept.take(m)
        }),
    decreases m,
{
    let n = shapes.len() as int;
    let kept = uncontained(shapes, n);
    uncontained_is_shorter(shapes, n);
    if m > 0 {
        nothing_more_goes(shapes, m - 1);
        if is_contained(kept, m - 1) {
            few_shapes_are_all_scanned(kept, m - 1);
            let q = choose|q: int|
                0 <= q < kept.len() && #[trigger] has_box(kept[q]) && box_area(kept, q) > box_area(kept, m - 1) && bounds(
                    kept[q].exterior,
                ).spec_encloses(bounds(kept[m - 1].exterior));
            listed_is_kept(shapes, n, q);
            listed_is_kept(shapes, n, m - 1);
            let j = choose|j: int| 0 <= j < n && #[trigger] is_kept(shapes, j) && kept[q] == shapes[j];
            let i = choose|i: int| 0 <= i < n && #[trigger] is_kept(shapes, i) && kept[m - 1] == shapes[i];
            assert(has_box(shapes[j]));
            assert(is_enclosed(shapes, i));
            few_shapes_are_all_scanned(shapes, i);
            assert(false);
        }
        assert(kept.take(m) =~= kept.take(m - 1).push(kept[m - 1]));
    } else {
        assert(kept.take(0) =~= Seq::empty());
    }
}

/// Removing contained shapes twice is removing them once, for at most
/// [`MAX_SCAN`] shapes.
pub proof fn removal_is_idempotent(shapes: Seq<Shape>)
    requires
        shapes.len() <= MAX_SCAN,
    ensures
        ({
            let kept = uncontained(shapes, shapes.len() as int);
            uncontained(kept, kept.len() as int) == kept
        }),
{
    let kept = uncontained(shapes, shapes.len() as int);
    nothing_more_goes(shapes, kept.len() as int);
    assert(kept.take(kept.len() as int) =~= kept);
}

/// The point at `(x / k, y / k)` lies in one of the rectangles.
pub open spec fn is_covered(rects: Seq<Shape>, k: int, x: int, y: int) -> bool {
    exists|i: int|
        0 <= i < rects.len() && {
            let b = bounds((#[trigger] rects[i]).exterior);
            k * b.x0 <= x <= k * b.x1 && k * b.y0 <= y <= k * b.y1
        }
}

/// Of rectangles, removing the contained ones leaves the covered points as they
/// were.
pub proof fn removal_keeps_points(rects: Seq<Shape>, k: int, x: int, y: int)
    requires
        shapes_in_range(rects),
        forall|i: int| 0 <= i < rects.len() ==> is_box(#[trigger] rects[i]),
        k > 0,
    ensures
        is_covered(uncontained(rects, rects.len() as int), k, x, y) == is_covered(rects, k, x, y),
{
    let n = rects.len() as int;
    let kept = uncontained(rects, n);
    if is_covered(rects, k, x, y) {
        let i = choose|i: int|
            0 <= i < rects.len() && {
                let b = bounds((#[trigger] rects[i]).exterior);
                k * b.x0 <= x <= k * b.x1 && k * b.y0 <= y <= k * b.y1
            };
        removal_keeps_cover(rects, i);
        let j = choose|j: int|
            #[trigger] is_kept(rects, j) && bounds(rects[j].exterior).spec_encloses(bounds(rects[i].exterior))
                && kept.contains(rects[j]);
        let (a, b) = (bounds(rects[j].exterior), bounds(rects[i].exterior));
        assert(k * a.x0 <= k * b.x0 && k * b.x1 <= k * a.x1 && k * a.y0 <= k * b.y0 && k * b.y1 <= k * a.y1)
            by (nonlinear_arith)
            requires
                k > 0,
                a.x0 <= b.x0,
                b.x1 <= a.x1,
                a.y0 <= b.y0,
                b.y1 <= a.y1,
        ;
        let q = choose|q: int| 0 <= q < kept.len() && kept[q] == rects[j];
        assert(kept[q].exterior == rects[j].exterior);
    }
    if is_covered(kept, k, x, y) {
        let q = choose|q: int|
            0 <= q < kept.len() && {
                let b = bounds((#[trigger] kept[q]).exterior);
                k * b.x0 <= x <= k * b.x1 && k * b.y0 <= y <= k * b.y1
            };
        listed_is_kept(rects, n, q);
        let i = choose|i: int| 0 <= i < n && #[trigger] is_kept(rects, i) && kept[q] == rects[i];
        assert(rects[i].exterior == kept[q].exterior);
    }
}

/// The box of shape `i` lies in that of another, whose box is larger.
pub open spec fn lies_in_larger(shapes: Seq<Shape>, i: int, j: int) -> bool {
    let (a, b) = (bounds(shapes[i].exterior), bounds(shapes[j].exterior));
    &&& 0 <= j < shapes.len()
    &&& shapes[i].exterior.len() > 0 && shapes[j].exterior.len() > 0
    &&& b.x0 <= a.x0 && a.x1 <= b.x1 && b.y0 <= a.y0 && a.y1 <= b.y1
    &&& (b.x1 - b.x0) * (b.y1 - b.y0) > (a.x1 - a.x0) * (a.y1 - a.y0)
}

/// Of up to 8192 shapes, those stay whose box lies in no larger one: a shape stays
/// exactly if one equal to it does not lie in the box of a larger one.
pub proof fn only_the_contained_go(shapes: Seq<Shape>, s: Shape)
    requires
        shapes.len() <= 8192,
    ensures
        uncontained(shapes, shapes.len() as int).contains(s) <==> exists|i: int|
            0 <= i < shapes.len() && (#[trigger] shapes[i]) == s && forall|j: int| !#[trigger] lies_in_larger(shapes, i, j),
{
    contained_go(shapes, shapes.len() as int, s);
}

proof fn contained_iff_in_larger(shapes: Seq<Shape>, i: int)
    requires
        shapes.len() <= 8192,
        0 <= i < shapes.len(),
    ensures
        is_contained(shapes, i) <==> exists|j: int| #[trigger] lies_in_larger(shapes, i, j),
{
    few_shapes_are_all_scanned(shapes, i);
    if is_enclosed(shapes, i) {
        let j = choose|j: int|
            0 <= j < shapes.len() && #[trigger] has_box(shapes[j]) && box_area(shapes, j) > box_area(shapes, i) && bounds(
                shapes[j].exterior,
            ).spec_encloses(bounds(shapes[i].exterior));
        assert(lies_in_larger(shapes, i, j));
    }
    if exists|j: int| #[trigger] lies_in_larger(shapes, i, j) {
        let j = choose|j: int| #[trigger] lies_in_larger(shapes, i, j);
        assert(has_box(shapes[j]));
    }
}

proof fn contained_go(shapes: Seq<Shape>, n: int, s: Shape)
    requires
        shapes.len() <= 8192,
        0 <= n <= shapes.len(),
    ensures
        uncontained(shapes, n).contains(s) <==> exists|i: int|
            0 <= i < n && (#[trigger] shapes[i]) == s && forall|j: int| !#[trigger] lies_in_larger(shapes, i, j),
    decreases n,
{
    if n > 0 {
        contained_go(shapes, n - 1, s);
        contained_iff_in_larger(shapes, n - 1);
        let (before, now) = (uncontained(shapes, n - 1), uncontained(shapes, n));
        if before.contains(s) {
            let b = choose|b: int| 0 <= b < before.len() && before[b] == s;
            assert(now[b] == s);
        }
        if now.contains(s) {
            let b = choose|b: int| 0 <= b < now.len() && now[b] == s;
            if b < before.len() {
                assert(before[b] == s);
            } else {
                assert(shapes[n - 1] == s);
            }
        }
        if shapes[n - 1] == s && !is_contained(shapes, n - 1) {
            assert(now[before.len() as int] == s);
        }
    }
}

} // verus!
