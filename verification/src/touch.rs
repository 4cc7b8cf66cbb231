//! Whether polygons touch, and whether a polygon holds a point.

use crate::geom::bounds;
use crate::geom::is_box;
use crate::geom::rect_is_box;
use crate::geom::shapes_in_range;
use crate::geom::shapes_of;
use crate::geom::Point;
use crate::geom::Polygon;
use crate::geom::Rect;
use crate::geom::Shape;
use geo::Contains;
use geo::Intersects;
use geo::LineString;
use vstd::prelude::*;

verus! {

/// What `Intersects::intersects` of `geo` says of two polygons: do their
/// boundaries or interiors share a point?
pub uninterp spec fn shapes_touch(a: Shape, b: Shape) -> bool;

/// Calls `Intersects::intersects` of `geo` on polygons with `i128`
/// coordinates.  Claimed: the result is a function of the rings, and for two
/// axis-parallel rectangles with an area it says whether they share a point.
/// The reach leaves its cross products far inside `i128`.
#[verifier::external_body]
fn touches(a: &Polygon, b: &Polygon) -> (hit: bool)
    requires
        a@.in_reach(),
        b@.in_reach(),
    ensures
        hit == shapes_touch(a@, b@),
        is_box(a@) && is_box(b@) ==> hit == bounds(a@.exterior).meets(bounds(b@.exterior)),
{
    let ring = |r: &Vec<Point>| LineString::new(r.iter().map(|p| geo::Coord { x: p.x as i128, y: p.y as i128 }).collect());
    let p = geo::Polygon::new(ring(&a.exterior), a.holes.iter().map(ring).collect());
    let q = geo::Polygon::new(ring(&b.exterior), b.holes.iter().map(ring).collect());
    p.intersects(&q)
}

/// What `Contains::contains` of `geo` says of a polygon and a point: does the
/// point lie in its interior?
pub uninterp spec fn shape_contains(shape: Shape, p: Point) -> bool;

/// Calls `Contains::contains` of `geo` on a polygon with `i128` coordinates.
/// Claimed: the result is a function of the rings and the point.  The reach
/// leaves its cross products far inside `i128`.
#[verifier::external_body]
fn contains(poly: &Polygon, p: Point) -> (inside: bool)
    requires
        poly@.in_reach(),
        p.in_reach(),
    ensures
        inside == shape_contains(poly@, p),
{
    let ring = |r: &Vec<Point>| LineString::new(r.iter().map(|p| geo::Coord { x: p.x as i128, y: p.y as i128 }).collect());
    let outer = geo::Polygon::new(ring(&poly.exterior), poly.holes.iter().map(ring).collect());
    outer.contains(&geo::Coord { x: p.x as i128, y: p.y as i128 })
}

/// A region that fill must not touch: a polygon with its bounding box, or the
/// box itself.
#[derive(Debug)]
pub struct Keepout {
    pub bbox: Rect,
    pub shape: Option<Polygon>,
}

/// A keep-out as its box and, unless it is the box itself, its shape.
pub struct KeepoutShape {
    pub bbox: Rect,
    pub shape: Option<Shape>,
}

impl View for Keepout {
    type V = KeepoutShape;

    open spec fn view(&self) -> KeepoutShape {
        KeepoutShape {
            bbox: self.bbox,
            shape: match self.shape {
                Some(p) => Some(p@),
                None => None,
            },
        }
    }
}

/// Two shapes share a point.  For rectangles their boxes tell.
pub open spec fn share_point(a: Shape, b: Shape) -> bool {
    if is_box(a) && is_box(b) {
        bounds(a.exterior).meets(bounds(b.exterior))
    } else {
        shapes_touch(a, b)
    }
}

impl KeepoutShape {
    /// The polygon, if there is one, is in reach.
    pub open spec fn in_reach(self) -> bool {
        self.shape matches Some(s) ==> s.in_reach()
    }

    /// Rectangle `r` touches this keep-out.
    pub open spec fn blocks(self, r: Rect) -> bool {
        self.bbox.meets(r) && (self.shape matches Some(s) ==> share_point(
            Shape { exterior: r.ring(), holes: Seq::empty() },
            s,
        ))
    }
}

/// The views of a list of keep-outs.
pub open spec fn keepouts_of(list: Seq<Keepout>) -> Seq<KeepoutShape> {
    list.map_values(|k: Keepout| k@)
}

/// Every keep-out is in reach.
pub open spec fn keepouts_in_reach(list: Seq<KeepoutShape>) -> bool {
    forall|i: int| 0 <= i < list.len() ==> (#[trigger] list[i]).in_reach()
}

/// Some keep-out touches `r`.
pub open spec fn is_blocked(list: Seq<KeepoutShape>, r: Rect) -> bool {
    exists|i: int| 0 <= i < list.len() && (#[trigger] list[i]).blocks(r)
}

/// The box of a keep-out that is a plain rectangle.
pub open spec fn rect_keepout(r: Rect) -> KeepoutShape {
    KeepoutShape { bbox: r, shape: None }
}

impl Keepout {
    /// A keep-out that is the rectangle itself.
    pub fn of_rect(r: Rect) -> (k: Keepout)
        ensures
            k@ == rect_keepout(r),
    {
        Keepout { bbox: r, shape: None }
    }

    /// A copy of the keep-out.
    pub fn duplicate(&self) -> (k: Keepout)
        ensures
            k@ == self@,
    {
        Keepout {
            bbox: self.bbox,
            shape: match &self.shape {
                Some(p) => Some(p.duplicate()),
                None => None,
            },
        }
    }

    /// Does `r` touch this keep-out?
    pub fn touches_rect(&self, r: &Rect) -> (b: bool)
        requires
            self@.in_reach(),
            r.in_reach(),
        ensures
            b == self@.blocks(*r),
    {
        if !self.bbox.intersects(r) {
            return false;
        }
        match &self.shape {
            Some(p) => touches(&r.to_polygon(), p),
            None => true,
        }
    }
}

/// Does `r` touch one of the keep-outs?
pub fn any_touches(list: &Vec<Keepout>, r: &Rect) -> (b: bool)
    requires
        keepouts_in_reach(keepouts_of(list@)),
        r.in_reach(),
    ensures
        b == is_blocked(keepouts_of(list@), *r),
{
    let ghost views = keepouts_of(list@);
    let mut i: usize = 0;
    while i < list.len()
        invariant
            i <= list@.len(),
            views == keepouts_of(list@),
            keepouts_in_reach(views),
            r.in_reach(),
            forall|j: int| 0 <= j < i ==> !(#[trigger] views[j]).blocks(*r),
        decreases list@.len() - i,
    {
        assert(views[i as int].in_reach());
        if list[i].touches_rect(r) {
            assert(views[i as int].blocks(*r));
            return true;
        }
        i = i + 1;
    }
    false
}

/// Copies of keep-outs.
pub fn copy_keepouts(list: &Vec<Keepout>) -> (out: Vec<Keepout>)
    ensures
        keepouts_of(out@) == keepouts_of(list@),
{
    let mut out: Vec<Keepout> = Vec::new();
    let mut i: usize = 0;
    while i < list.len()
        invariant
            i <= list@.len(),
            out@.len() == i,
            forall|j: int| 0 <= j < i ==> (#[trigger] out@[j])@ == list@[j]@,
        decreases list@.len() - i,
    {
        out.push(list[i].duplicate());
        i = i + 1;
    }
    assert(keepouts_of(out@) =~= keepouts_of(list@));
    out
}

/// A keep-out that is a rectangle with an area blocks exactly the rectangles
/// with an area that share a point with it.
pub proof fn box_keepout_blocks(k: KeepoutShape, r: Rect)
    requires
        k.shape matches Some(s) && is_box(s) && k.bbox == bounds(s.exterior),
        r.x0 < r.x1,
        r.y0 < r.y1,
    ensures
        k.blocks(r) == k.bbox.meets(r),
{
    rect_is_box(r);
}

/// A ring with all coordinates doubled.
pub open spec fn doubled_ring(ring: Seq<Point>) -> Seq<Point> {
    ring.map_values(|p: Point| Point { x: (2 * p.x) as i64, y: (2 * p.y) as i64 })
}

/// The exterior of a shape with all coordinates doubled, without its holes.
pub open spec fn doubled_exterior(shape: Shape) -> Shape {
    Shape { exterior: doubled_ring(shape.exterior), holes: Seq::empty() }
}

/// Twice the centre of a rectangle.
pub open spec fn center2(r: Rect) -> Point {
    Point { x: (r.x0 + r.x1) as i64, y: (r.y0 + r.y1) as i64 }
}

/// The exterior of a polygon with all coordinates doubled, without its holes.
fn double_exterior(poly: &Polygon) -> (out: Polygon)
    requires
        crate::geom::ring_in_range(poly@.exterior),
    ensures
        out@ == doubled_exterior(poly@),
        out@.in_reach(),
{
    let mut exterior: Vec<Point> = Vec::new();
    let mut i: usize = 0;
    while i < poly.exterior.len()
        invariant
            i <= poly.exterior@.len(),
            crate::geom::ring_in_range(poly.exterior@),
            exterior@.len() == i,
            forall|j: int| 0 <= j < i ==> exterior@[j] == #[trigger] doubled_ring(poly.exterior@)[j],
        decreases poly.exterior@.len() - i,
    {
        let p = poly.exterior[i];
        assert(poly.exterior@[i as int].in_range());
        exterior.push(Point { x: 2 * p.x, y: 2 * p.y });
        i = i + 1;
    }
    let out = Polygon { exterior, holes: Vec::new() };
    proof {
        assert(out@.exterior =~= doubled_ring(poly@.exterior));
        assert(out@.holes =~= Seq::empty());
        assert forall|k: int| 0 <= k < out@.exterior.len() implies (#[trigger] out@.exterior[k]).in_reach() by {
            assert(poly@.exterior[k].in_range());
        }
    }
    out
}

/// The chip outline: fill belongs where its centre lies inside.
#[derive(Debug)]
pub struct Outline {
    /// Exterior rings with doubled coordinates.
    doubled: Vec<Polygon>,
}

impl Outline {
    /// The exteriors of the outline polygons, with doubled coordinates.
    pub closed spec fn exteriors(self) -> Seq<Shape> {
        shapes_of(self.doubled@)
    }

    /// Every ring is in reach.
    pub closed spec fn valid(self) -> bool {
        forall|i: int| 0 <= i < self.exteriors().len() ==> (#[trigger] self.exteriors()[i]).in_reach()
    }

    /// An outline holds a rectangle if it has no polygon, or if the centre of
    /// the rectangle lies inside one.
    pub open spec fn holds(self, r: Rect) -> bool {
        self.exteriors().len() == 0 || exists|i: int|
            0 <= i < self.exteriors().len() && shape_contains(#[trigger] self.exteriors()[i], center2(r))
    }

    /// The outline made of the exteriors of `polys`.
    pub fn new(polys: &[Polygon]) -> (o: Outline)
        requires
            shapes_in_range(shapes_of(polys@)),
        ensures
            o.valid(),
            o.exteriors() == shapes_of(polys@).map_values(|s: Shape| doubled_exterior(s)),
    {
        let mut doubled: Vec<Polygon> = Vec::new();
        let mut i: usize = 0;
        while i < polys.len()
            invariant
                i <= polys@.len(),
                shapes_in_range(shapes_of(polys@)),
                doubled@.len() == i,
                forall|j: int|
                    0 <= j < i ==> (#[trigger] doubled@[j])@ == doubled_exterior(polys@[j]@) && doubled@[j]@.in_reach(),
            decreases polys@.len() - i,
        {
            assert(shapes_of(polys@)[i as int].in_range());
            doubled.push(double_exterior(&polys[i]));
            i = i + 1;
        }
        let o = Outline { doubled };
        assert(o.exteriors() =~= shapes_of(polys@).map_values(|s: Shape| doubled_exterior(s)));
        o
    }

    /// Does the outline hold `r`?
    pub fn inside(&self, r: &Rect) -> (b: bool)
        requires
            self.valid(),
            r.in_reach(),
        ensures
            b == self.holds(*r),
    {
        if self.doubled.len() == 0 {
            return true;
        }
        let center = Point { x: r.x0 + r.x1, y: r.y0 + r.y1 };
        let mut i: usize = 0;
        while i < self.doubled.len()
            invariant
                i <= self.doubled@.len(),
                self.doubled@.len() > 0,
                self.valid(),
                center == center2(*r),
                center.in_reach(),
                forall|j: int| 0 <= j < i ==> !shape_contains(#[trigger] self.exteriors()[j], center),
            decreases self.doubled@.len() - i,
        {
            assert(self.exteriors()[i as int].in_reach());
            if contains(&self.doubled[i], center) {
                assert(shape_contains(self.exteriors()[i as int], center));
                return true;
            }
            i = i + 1;
        }
        false
    }
}

/// An outline holds a rectangle by its centre: it is held exactly if the centre, in
/// coordinates that are doubled as those of the outline are, lies in one of the
/// polygons; an outline without polygons holds everything.
pub proof fn outline_tests_the_centre(o: Outline, r: Rect)
    requires
        r.in_reach(),
    ensures
        o.holds(r) <==> o.exteriors().len() == 0 || exists|i: int|
            0 <= i < o.exteriors().len() && shape_contains(
                #[trigger] o.exteriors()[i],
                Point { x: (r.x0 + r.x1) as i64, y: (r.y0 + r.y1) as i64 },
            ),
{
}

/// Rectangles with one centre are held alike.
pub proof fn centred_alike_is_held_alike(o: Outline, r: Rect, s: Rect)
    requires
        r.x0 + r.x1 == s.x0 + s.x1,
        r.y0 + r.y1 == s.y0 + s.y1,
    ensures
        o.holds(r) == o.holds(s),
{
}

} // verus!
