//! The geometric output types: rings, polygons and multipolygons.

use crate::geometry::{point_in_ring, seg_touches_ring, Point};
use vstd::prelude::*;

verus! {

/// A closed sequence of points: the first point is repeated at the end, so
/// consecutive pairs are exactly the ring's edges.
#[derive(Clone, Debug)]
pub struct Ring(pub Vec<Point>);

impl View for Ring {
    type V = Seq<Point>;

    open spec fn view(&self) -> Seq<Point> {
        self.0@
    }
}

/// The mathematical content of a polygon: its exterior ring and the rings
/// of its holes.
#[verifier::ext_equal]
pub struct PolygonModel {
    pub exterior: Seq<Point>,
    pub interiors: Seq<Seq<Point>>,
}

/// One exterior ring plus the rings of the holes cut out of it.
#[derive(Clone, Debug)]
pub struct Polygon {
    pub exterior: Ring,
    pub interiors: Vec<Ring>,
}

impl View for Polygon {
    type V = PolygonModel;

    open spec fn view(&self) -> PolygonModel {
        PolygonModel {
            exterior: self.exterior@,
            interiors: self.interiors@.map_values(|r: Ring| r@),
        }
    }
}

impl Polygon {
    /// A polygon with no holes around the given exterior ring.
    pub fn of_ring(exterior: Ring) -> (p: Polygon)
        ensures
            p@.exterior == exterior@,
            p@.interiors =~= Seq::<Seq<Point>>::empty(),
    {
        Polygon { exterior, interiors: Vec::new() }
    }

    pub fn interiors(&self) -> (r: &Vec<Ring>)
        ensures
            r@.map_values(|r: Ring| r@) == self@.interiors,
    {
        &self.interiors
    }
}

/// An ordered collection of polygons. The order follows discovery order of
/// the outer rings and carries no meaning.
#[derive(Clone, Debug)]
pub struct MultiPolygon(pub Vec<Polygon>);

impl View for MultiPolygon {
    type V = Seq<PolygonModel>;

    open spec fn view(&self) -> Seq<PolygonModel> {
        self.0@.map_values(|p: Polygon| p@)
    }
}

/// The segment `a`-`b` shares at least one point with the closed region the
/// polygon covers (the area enclosed by the exterior ring, minus the open
/// interiors of the holes, boundaries included).
///
/// This holds when the segment touches the polygon's boundary (the exterior
/// ring or any hole ring), or when its first endpoint lies strictly inside
/// the exterior and outside every hole. Nothing more is needed: a segment
/// that touches no boundary lies entirely on one side of it.
pub open spec fn seg_meets_polygon(poly: PolygonModel, a: Point, b: Point) -> bool {
    ||| seg_touches_ring(poly.exterior, a, b)
    ||| (exists|h: int| 0 <= h < poly.interiors.len() && seg_touches_ring(#[trigger] poly.interiors[h], a, b))
    ||| (point_in_ring(poly.exterior, a) && (forall|h: int|
        0 <= h < poly.interiors.len() ==> !point_in_ring(#[trigger] poly.interiors[h], a)))
}

pub fn seg_meets_polygon_exec(poly: &Polygon, a: Point, b: Point) -> (res: bool)
    ensures
        res == seg_meets_polygon(poly@, a, b),
{
    if crate::geometry::seg_touches_ring_exec(&poly.exterior.0, a, b) {
        return true;
    }
    let n = poly.interiors.len();
    let mut i: usize = 0;
    while i < n
        invariant
            0 <= i <= n == poly.interiors@.len(),
            poly@.interiors.len() == n,
            forall|h: int| 0 <= h < i ==> !seg_touches_ring(#[trigger] poly@.interiors[h], a, b),
            !seg_touches_ring(poly@.exterior, a, b),
        decreases n - i,
    {
        if crate::geometry::seg_touches_ring_exec(&poly.interiors[i].0, a, b) {
            assert(seg_touches_ring(poly@.interiors[i as int], a, b));
            return true;
        }
        i = i + 1;
    }
    if !crate::geometry::point_in_ring_exec(&poly.exterior.0, a) {
        return false;
    }
    let mut i: usize = 0;
    while i < n
        invariant
            0 <= i <= n == poly.interiors@.len(),
            poly@.interiors.len() == n,
            forall|h: int| 0 <= h < i ==> !point_in_ring(#[trigger] poly@.interiors[h], a),
            point_in_ring(poly@.exterior, a),
            !seg_touches_ring(poly@.exterior, a, b),
            forall|h: int| 0 <= h < n ==> !seg_touches_ring(#[trigger] poly@.interiors[h], a, b),
        decreases n - i,
    {
        if crate::geometry::point_in_ring_exec(&poly.interiors[i].0, a) {
            assert(point_in_ring(poly@.interiors[i as int], a));
            return false;
        }
        i = i + 1;
    }
    true
}

} // verus!
