//! Exact integer geometry over decimicro-degree points.
//!
//! Coordinates fit in `i32`, so every cross product here fits comfortably in
//! `i128` and all predicates are decided exactly, with no rounding.

use vstd::prelude::*;

verus! {

/// A geographic coordinate: `x` is the longitude and `y` the latitude, both
/// in decimicro degrees (1e-7 of a degree).
#[derive(Clone, Copy, PartialEq, Eq, Structural, Debug)]
pub struct Point {
    pub x: i32,
    pub y: i32,
}

/// Twice the signed area of the triangle `o`, `a`, `b`: positive when the
/// turn from `o->a` to `o->b` is counterclockwise, zero when the three
/// points are collinear.
pub open spec fn cross(o: Point, a: Point, b: Point) -> int {
    (a.x - o.x) * (b.y - o.y) - (a.y - o.y) * (b.x - o.x)
}

proof fn lemma_mul_bound(a: int, b: int, m: int)
    by (nonlinear_arith)
    requires
        -m <= a <= m,
        -m <= b <= m,
        0 <= m,
    ensures
        -(m * m) <= a * b <= m * m,
{
}

fn cross_exec(o: Point, a: Point, b: Point) -> (r: i128)
    ensures
        r == cross(o, a, b),
{
    let ax: i64 = a.x as i64 - o.x as i64;
    let ay: i64 = a.y as i64 - o.y as i64;
    let bx: i64 = b.x as i64 - o.x as i64;
    let by: i64 = b.y as i64 - o.y as i64;
    proof {
        lemma_mul_bound(ax as int, by as int, 0x1_0000_0000int);
        lemma_mul_bound(ay as int, bx as int, 0x1_0000_0000int);
    }
    (ax as i128) * (by as i128) - (ay as i128) * (bx as i128)
}

/// `m` lies between `a` and `b` (in either order).
pub open spec fn between(a: int, m: int, b: int) -> bool {
    (a <= m && m <= b) || (b <= m && m <= a)
}

/// `r` lies within the axis-aligned bounding box of the segment `p`-`q`.
/// Together with `cross(p, q, r) == 0` this says that `r` lies on the
/// closed segment `p`-`q`.
pub open spec fn in_box(p: Point, q: Point, r: Point) -> bool {
    between(p.x as int, r.x as int, q.x as int) && between(p.y as int, r.y as int, q.y as int)
}

fn in_box_exec(p: Point, q: Point, r: Point) -> (res: bool)
    ensures
        res == in_box(p, q, r),
{
    ((p.x <= r.x && r.x <= q.x) || (q.x <= r.x && r.x <= p.x)) && ((p.y <= r.y && r.y <= q.y)
        || (q.y <= r.y && r.y <= p.y))
}

/// The closed segments `a`-`b` and `c`-`d` share at least one point.
///
/// Either the segments cross properly (the endpoints of each lie strictly on
/// opposite sides of the other's supporting line), or some endpoint lies on
/// the other closed segment.
pub open spec fn segments_intersect(a: Point, b: Point, c: Point, d: Point) -> bool {
    let d1 = cross(c, d, a);
    let d2 = cross(c, d, b);
    let d3 = cross(a, b, c);
    let d4 = cross(a, b, d);
    ||| (((d1 > 0 && d2 < 0) || (d1 < 0 && d2 > 0)) && ((d3 > 0 && d4 < 0) || (d3 < 0 && d4
        > 0)))
    ||| (d1 == 0 && in_box(c, d, a))
    ||| (d2 == 0 && in_box(c, d, b))
    ||| (d3 == 0 && in_box(a, b, c))
    ||| (d4 == 0 && in_box(a, b, d))
}

pub fn segments_intersect_exec(a: Point, b: Point, c: Point, d: Point) -> (res: bool)
    ensures
        res == segments_intersect(a, b, c, d),
{
    let d1 = cross_exec(c, d, a);
    let d2 = cross_exec(c, d, b);
    let d3 = cross_exec(a, b, c);
    let d4 = cross_exec(a, b, d);
    if ((d1 > 0 && d2 < 0) || (d1 < 0 && d2 > 0)) && ((d3 > 0 && d4 < 0) || (d3 < 0 && d4 > 0)) {
        true
    } else if d1 == 0 && in_box_exec(c, d, a) {
        true
    } else if d2 == 0 && in_box_exec(c, d, b) {
        true
    } else if d3 == 0 && in_box_exec(a, b, c) {
        true
    } else {
        d4 == 0 && in_box_exec(a, b, d)
    }
}

/// The edge `u`-`v` crosses the horizontal ray that starts at `p` and runs
/// towards increasing `x`. Edges are counted with a half-open rule (an edge
/// is counted only when its endpoints straddle the ray's height strictly
/// above / not above), so a ray through a vertex is not counted twice.
pub open spec fn edge_crosses_ray(u: Point, v: Point, p: Point) -> bool {
    ((u.y > p.y) != (v.y > p.y)) && (if v.y > u.y {
        cross(u, v, p) > 0
    } else {
        cross(u, v, p) < 0
    })
}

fn edge_crosses_ray_exec(u: Point, v: Point, p: Point) -> (res: bool)
    ensures
        res == edge_crosses_ray(u, v, p),
{
    if (u.y > p.y) != (v.y > p.y) {
        let c = cross_exec(u, v, p);
        if v.y > u.y {
            c > 0
        } else {
            c < 0
        }
    } else {
        false
    }
}

/// How many of the ring's edges at position `i` or later cross the
/// horizontal ray from `p`. The ring is a closed point sequence (first
/// point repeated at the end), so consecutive pairs are exactly its edges.
pub open spec fn crossings_from(ring: Seq<Point>, p: Point, i: int) -> nat
    decreases ring.len() - i,
{
    if i < 0 || i + 1 >= ring.len() {
        0
    } else {
        (if edge_crosses_ray(ring[i], ring[i + 1], p) {
            1nat
        } else {
            0nat
        }) + crossings_from(ring, p, i + 1)
    }
}

/// `p` lies inside the region enclosed by the ring, by ray-crossing parity.
/// For a point exactly on the ring the parity is not meaningful; callers
/// that care about boundary points test the boundary separately.
pub open spec fn point_in_ring(ring: Seq<Point>, p: Point) -> bool {
    crossings_from(ring, p, 0) % 2 == 1
}

pub fn point_in_ring_exec(ring: &Vec<Point>, p: Point) -> (res: bool)
    ensures
        res == point_in_ring(ring@, p),
{
    let n = ring.len();
    if n == 0 {
        return false;
    }
    let mut count: usize = 0;
    let mut i: usize = 0;
    while i < n - 1
        invariant
            0 < n == ring@.len(),
            0 <= i <= n,
            count <= i,
            count + crossings_from(ring@, p, i as int) == crossings_from(ring@, p, 0),
        decreases n - i,
    {
        if edge_crosses_ray_exec(ring[i], ring[i + 1], p) {
            count = count + 1;
        }
        i = i + 1;
    }
    count % 2 == 1
}

/// Some edge of the ring shares a point with the segment `a`-`b`.
pub open spec fn seg_touches_ring(ring: Seq<Point>, a: Point, b: Point) -> bool {
    exists|k: int|
        0 <= k && k + 1 < ring.len() && #[trigger] segments_intersect(ring[k], ring[k + 1], a, b)
}

pub fn seg_touches_ring_exec(ring: &Vec<Point>, a: Point, b: Point) -> (res: bool)
    ensures
        res == seg_touches_ring(ring@, a, b),
{
    let n = ring.len();
    if n == 0 {
        return false;
    }
    let mut i: usize = 0;
    while i < n - 1
        invariant
            0 < n == ring@.len(),
            0 <= i <= n,
            forall|k: int|
                0 <= k < i && k + 1 < ring@.len() ==> !#[trigger] segments_intersect(
                    ring@[k],
                    ring@[k + 1],
                    a,
                    b,
                ),
        decreases n - i,
    {
        if segments_intersect_exec(ring[i], ring[i + 1], a, b) {
            return true;
        }
        i = i + 1;
    }
    false
}

} // verus!
