//! Lattice points, squared distances and containment in a simple polygon.

use geo::algorithm::intersects::Intersects;
use vstd::prelude::*;

verus! {

/// Largest absolute value of a coordinate that the model accepts. Contest
/// coordinates lie far inside it. It keeps every squared distance within
/// `MAX_DIST2` (8 * 10^12), which bounds the offset table's size, and keeps
/// the dislikes of a hole of up to a million vertices below 2^64: a bound
/// near the limit of 64-bit products would leave room for far fewer.
pub const COORD_BOUND: i64 = 1_000_000;

/// An integer lattice point.
#[derive(Clone, Copy, PartialEq, Eq, Structural, Debug)]
pub struct Point {
    pub x: i64,
    pub y: i64,
}

/// A coordinate pair lies within the accepted range.
pub open spec fn in_range(p: Point) -> bool {
    -COORD_BOUND <= p.x <= COORD_BOUND && -COORD_BOUND <= p.y <= COORD_BOUND
}

/// Every point of a sequence lies within the accepted range.
pub open spec fn all_in_range(s: Seq<Point>) -> bool {
    forall|i: int| 0 <= i < s.len() ==> #[trigger] in_range(s[i])
}

/// A point lies within `k` times the accepted range.
pub open spec fn in_scaled_range(p: Point, k: int) -> bool {
    -k * COORD_BOUND <= p.x <= k * COORD_BOUND && -k * COORD_BOUND <= p.y <= k * COORD_BOUND
}

/// Squared Euclidean distance.
pub open spec fn dist2(p: Point, q: Point) -> int {
    (p.x - q.x) * (p.x - q.x) + (p.y - q.y) * (p.y - q.y)
}

/// Largest squared distance between two points in range.
pub const MAX_DIST2: i64 = 8_000_000_000_000;

pub proof fn lemma_dist2_bounds(p: Point, q: Point)
    requires
        in_range(p),
        in_range(q),
    ensures
        0 <= dist2(p, q) <= MAX_DIST2,
{
    let dx = p.x - q.x;
    let dy = p.y - q.y;
    assert(0 <= dx * dx <= 4_000_000_000_000) by (nonlinear_arith)
        requires -2_000_000 <= dx <= 2_000_000;
    assert(0 <= dy * dy <= 4_000_000_000_000) by (nonlinear_arith)
        requires -2_000_000 <= dy <= 2_000_000;
}

/// Squared distance of two points in range.
pub fn distance_squared_int(p: Point, q: Point) -> (r: i64)
    requires
        in_range(p),
        in_range(q),
    ensures
        r == dist2(p, q),
        0 <= r <= MAX_DIST2,
{
    proof {
        lemma_dist2_bounds(p, q);
    }
    let dx = p.x - q.x;
    let dy = p.y - q.y;
    proof {
        assert(0 <= dx * dx <= 4_000_000_000_000) by (nonlinear_arith)
            requires -2_000_000 <= dx <= 2_000_000;
        assert(0 <= dy * dy <= 4_000_000_000_000) by (nonlinear_arith)
            requires -2_000_000 <= dy <= 2_000_000;
    }
    dx * dx + dy * dy
}

/// Whether the closed region bounded by `ring` (inside or on the boundary)
/// holds `p`, as computed by the polygon library.
pub uninterp spec fn polygon_covers(ring: Seq<Point>, p: Point) -> bool;

/// Relies on geo's `Intersects<Coordinate<i64>>` for `Polygon<i64>`: the
/// ring-crossing test on exact integers, which reports a point inside or on
/// the boundary of the polygon whose exterior ring is `ring` (closed by
/// `Polygon::new`). The bounds keep the kernel's products within `i64`.
#[verifier::external_body]
fn covers(ring: &Vec<Point>, p: Point) -> (r: bool)
    requires
        forall|i: int| 0 <= i < ring@.len() ==> #[trigger] in_scaled_range(ring@[i], 2),
        in_scaled_range(p, 4),
    ensures
        r == polygon_covers(ring@, p),
{
    let coords: Vec<geo::Coordinate<i64>> = ring.iter().map(|q| geo::Coordinate { x: q.x, y: q.y }).collect();
    let poly = geo::Polygon::new(geo::LineString::from(coords), vec![]);
    poly.intersects(&geo::Coordinate { x: p.x, y: p.y })
}

/// Twice the signed area of the triangle `o`, `a`, `b`.
pub open spec fn cross(o: Point, a: Point, b: Point) -> int {
    (a.x - o.x) * (b.y - o.y) - (a.y - o.y) * (b.x - o.x)
}

/// Scalar product of `a - o` and `b - o`.
pub open spec fn dot(o: Point, a: Point, b: Point) -> int {
    (a.x - o.x) * (b.x - o.x) + (a.y - o.y) * (b.y - o.y)
}

pub open spec fn opposite(s: int, t: int) -> bool {
    (s > 0 && t < 0) || (s < 0 && t > 0)
}

/// Segments `ab` and `pq` cross at a point interior to both.
pub open spec fn crosses_properly(a: Point, b: Point, p: Point, q: Point) -> bool {
    opposite(cross(a, b, p), cross(a, b, q)) && opposite(cross(p, q, a), cross(p, q, b))
}

/// `q` lies on segment `ab`, strictly between its ends.
pub open spec fn strictly_between(a: Point, b: Point, q: Point) -> bool {
    cross(a, b, q) == 0 && 0 < dot(a, q, b) && dot(a, q, b) < dot(a, b, b)
}

/// The vertices among the first `n` of `ring` that lie strictly inside `ab`, in ring order.
pub open spec fn ring_points_on(ring: Seq<Point>, a: Point, b: Point, n: int) -> Seq<Point>
    decreases n,
{
    if n <= 0 {
        Seq::empty()
    } else if strictly_between(a, b, ring[n - 1]) {
        ring_points_on(ring, a, b, n - 1).push(ring[n - 1])
    } else {
        ring_points_on(ring, a, b, n - 1)
    }
}

/// The points where segment `ab` may meet the boundary without crossing it:
/// its two ends and the ring vertices on it.
pub open spec fn stop_points(ring: Seq<Point>, a: Point, b: Point) -> Seq<Point> {
    seq![a, b] + ring_points_on(ring, a, b, ring.len() as int)
}

/// The ring with every coordinate doubled, so that midpoints of lattice points are lattice points.
pub open spec fn doubled(ring: Seq<Point>) -> Seq<Point> {
    ring.map_values(|p: Point| Point { x: (2 * p.x) as i64, y: (2 * p.y) as i64 })
}

/// Twice the midpoint of `u` and `w`.
pub open spec fn mid2(u: Point, w: Point) -> Point {
    Point { x: (u.x + w.x) as i64, y: (u.y + w.y) as i64 }
}

/// Segment `ab` lies in the closed polygon bounded by `ring`: both ends are
/// covered, no side of the ring crosses it at an interior point, and between
/// any two of its stop points it is covered (tested at the midpoint, on the
/// doubled ring). Between two consecutive stop points the segment meets the
/// boundary nowhere or runs along it, so one midpoint decides each piece.
pub open spec fn segment_covered(ring: Seq<Point>, a: Point, b: Point) -> bool {
    &&& polygon_covers(ring, a)
    &&& polygon_covers(ring, b)
    &&& forall|i: int|
        0 <= i < ring.len() ==> !#[trigger] crosses_properly(a, b, ring[i], ring[(i + 1) % (ring.len() as int)])
    &&& forall|j: int, k: int|
        0 <= j < k < stop_points(ring, a, b).len() ==> polygon_covers(
            doubled(ring),
            #[trigger] mid2(stop_points(ring, a, b)[j], stop_points(ring, a, b)[k]),
        )
}

fn cross_int(o: Point, a: Point, b: Point) -> (r: i64)
    requires
        in_range(o),
        in_range(a),
        in_range(b),
    ensures
        r == cross(o, a, b),
{
    let ax = a.x - o.x;
    let ay = a.y - o.y;
    let bx = b.x - o.x;
    let by = b.y - o.y;
    proof {
        assert(-4_000_000_000_000 <= ax * by <= 4_000_000_000_000) by (nonlinear_arith)
            requires -2_000_000 <= ax <= 2_000_000, -2_000_000 <= by <= 2_000_000;
        assert(-4_000_000_000_000 <= ay * bx <= 4_000_000_000_000) by (nonlinear_arith)
            requires -2_000_000 <= ay <= 2_000_000, -2_000_000 <= bx <= 2_000_000;
    }
    ax * by - ay * bx
}

fn dot_int(o: Point, a: Point, b: Point) -> (r: i64)
    requires
        in_range(o),
        in_range(a),
        in_range(b),
    ensures
        r == dot(o, a, b),
{
    let ax = a.x - o.x;
    let ay = a.y - o.y;
    let bx = b.x - o.x;
    let by = b.y - o.y;
    proof {
        assert(-4_000_000_000_000 <= ax * bx <= 4_000_000_000_000) by (nonlinear_arith)
            requires -2_000_000 <= ax <= 2_000_000, -2_000_000 <= bx <= 2_000_000;
        assert(-4_000_000_000_000 <= ay * by <= 4_000_000_000_000) by (nonlinear_arith)
            requires -2_000_000 <= ay <= 2_000_000, -2_000_000 <= by <= 2_000_000;
    }
    ax * bx + ay * by
}

/// Every vertex of `ring` and its doubled copy within range, and the copy exact.
pub open spec fn rings_ready(ring: Seq<Point>, ring2: Seq<Point>) -> bool {
    &&& all_in_range(ring)
    &&& ring2 == doubled(ring)
}

proof fn lemma_doubled_in_range(ring: Seq<Point>)
    requires
        all_in_range(ring),
    ensures
        forall|i: int| 0 <= i < ring.len() ==> #[trigger] in_scaled_range(doubled(ring)[i], 2),
{
    assert forall|i: int| 0 <= i < ring.len() implies #[trigger] in_scaled_range(doubled(ring)[i], 2) by {
        assert(in_range(ring[i]));
    }
}

/// Whether the closed polygon bounded by `ring` holds the point `p`.
pub fn polygon_contains_point(ring: &Vec<Point>, p: Point) -> (r: bool)
    requires
        all_in_range(ring@),
        in_range(p),
    ensures
        r == polygon_covers(ring@, p),
{
    assert forall|i: int| 0 <= i < ring@.len() implies #[trigger] in_scaled_range(ring@[i], 2) by {
        assert(in_range(ring@[i]));
    }
    covers(ring, p)
}

/// Whether the closed polygon bounded by `ring` holds the whole segment `ab`.
/// `ring2` is the ring with doubled coordinates.
pub fn polygon_contains_segment(ring: &Vec<Point>, ring2: &Vec<Point>, a: Point, b: Point) -> (r: bool)
    requires
        rings_ready(ring@, ring2@),
        in_range(a),
        in_range(b),
    ensures
        r == segment_covered(ring@, a, b),
{
    let n = ring.len();
    proof {
        lemma_doubled_in_range(ring@);
    }
    if !polygon_contains_point(ring, a) || !polygon_contains_point(ring, b) {
        return false;
    }
    let mut i: usize = 0;
    while i < n
        invariant
            n == ring@.len(),
            all_in_range(ring@),
            in_range(a),
            in_range(b),
            forall|j: int| 0 <= j < i ==> !#[trigger] crosses_properly(a, b, ring@[j], ring@[(j + 1) % (ring@.len() as int)]),
        decreases n - i,
    {
        let p = ring[i];
        let q = ring[(i + 1) % n];
        proof {
            assert(in_range(ring@[i as int]));
            assert(in_range(ring@[(i + 1) % n as int]));
        }
        let c1 = cross_int(a, b, p);
        let c2 = cross_int(a, b, q);
        let c3 = cross_int(p, q, a);
        let c4 = cross_int(p, q, b);
        let opp1 = (c1 > 0 && c2 < 0) || (c1 < 0 && c2 > 0);
        let opp2 = (c3 > 0 && c4 < 0) || (c3 < 0 && c4 > 0);
        if opp1 && opp2 {
            assert(crosses_properly(a, b, ring@[i as int], ring@[(i as int + 1) % (ring@.len() as int)]));
            return false;
        }
        i = i + 1;
    }
    let mut stops: Vec<Point> = Vec::new();
    stops.push(a);
    stops.push(b);
    let ab = dot_int(a, b, b);
    let mut i: usize = 0;
    while i < n
        invariant
            n == ring@.len(),
            all_in_range(ring@),
            in_range(a),
            in_range(b),
            ab == dot(a, b, b),
            i <= n,
            stops@ == seq![a, b] + ring_points_on(ring@, a, b, i as int),
            all_in_range(stops@),
        decreases n - i,
    {
        let q = ring[i];
        proof {
            assert(in_range(ring@[i as int]));
        }
        let c = cross_int(a, b, q);
        let t = dot_int(a, q, b);
        if c == 0 && 0 < t && t < ab {
            stops.push(q);
        }
        proof {
            assert(ring@.subrange(0, i + 1 as int).drop_last() == ring@.subrange(0, i as int));
        }
        i = i + 1;
    }
    assert(stops@ == stop_points(ring@, a, b));
    let m = stops.len();
    let mut j: usize = 0;
    while j < m
        invariant
            m == stops@.len(),
            stops@ == stop_points(ring@, a, b),
            all_in_range(stops@),
            rings_ready(ring@, ring2@),
            forall|i: int| 0 <= i < ring2@.len() ==> #[trigger] in_scaled_range(ring2@[i], 2),
            forall|jj: int, k: int|
                0 <= jj < j && jj < k < m ==> polygon_covers(
                    ring2@,
                    #[trigger] mid2(stops@[jj], stops@[k]),
                ),
        decreases m - j,
    {
        let mut k: usize = j + 1;
        while k < m
            invariant
                m == stops@.len(),
                j < m,
                j < k <= m,
                all_in_range(stops@),
                stops@ == stop_points(ring@, a, b),
                rings_ready(ring@, ring2@),
                forall|i: int| 0 <= i < ring2@.len() ==> #[trigger] in_scaled_range(ring2@[i], 2),
                forall|jj: int, kk: int|
                    0 <= jj < j && jj < kk < m ==> polygon_covers(
                        ring2@,
                        #[trigger] mid2(stops@[jj], stops@[kk]),
                    ),
                forall|kk: int|
                    j < kk < k ==> polygon_covers(ring2@, #[trigger] mid2(stops@[j as int], stops@[kk])),
            decreases m - k,
        {
            let u = stops[j];
            let w = stops[k];
            proof {
                assert(in_range(stops@[j as int]));
                assert(in_range(stops@[k as int]));
            }
            let mid = Point { x: u.x + w.x, y: u.y + w.y };
            assert(mid == mid2(stops@[j as int], stops@[k as int]));
            if !covers(ring2, mid) {
                return false;
            }
            k = k + 1;
        }
        j = j + 1;
    }
    true
}

} // verus!
