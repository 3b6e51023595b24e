//! The figure: vertices, edges with their nominal squared lengths, and the
//! tolerance arithmetic on edge lengths.

use crate::geometry::{all_in_range, dist2, distance_squared_int, in_range, Point, MAX_DIST2};
use crate::problem::{copy_points, Pose};
use vstd::prelude::*;

verus! {

/// Denominator of the tolerance: `epsilon` is in millionths.
pub const EPS_DENOM: i64 = 1_000_000;

/// Largest tolerance, in millionths, that the model accepts.
pub const EPS_LIMIT: u64 = 1_000_000_000;

/// An edge between two vertices, with its squared length in the undeformed figure.
#[derive(Clone, Copy, PartialEq, Eq, Structural, Debug)]
pub struct Edge {
    pub v0: usize,
    pub v1: usize,
    pub len2: i64,
}

/// Outcome of comparing an edge's length in a pose with its tolerance.
#[derive(Clone, Copy, PartialEq, Eq, Structural, Debug)]
pub enum EdgeTestResult {
    Fits,
    TooShort,
    TooLong,
}

/// The least integer not below `l * (1 - eps / EPS_DENOM)`.
pub open spec fn len2_lower(l: int, eps: int) -> int {
    if eps <= EPS_DENOM {
        (l * (EPS_DENOM - eps) + EPS_DENOM - 1) / (EPS_DENOM as int)
    } else {
        -((l * (eps - EPS_DENOM)) / (EPS_DENOM as int))
    }
}

/// The greatest integer not above `l * (1 + eps / EPS_DENOM)`.
pub open spec fn len2_upper(l: int, eps: int) -> int {
    (l * (EPS_DENOM + eps)) / (EPS_DENOM as int)
}

/// An integer squared length `d` meets the tolerance of nominal `l`:
/// `|d - l| <= eps * l`, scaled by the denominator.
pub open spec fn within_tolerance(d: int, l: int, eps: int) -> bool {
    if d >= l {
        EPS_DENOM * (d - l) <= eps * l
    } else {
        EPS_DENOM * (l - d) <= eps * l
    }
}

pub open spec fn edge_test(d: int, l: int, eps: int) -> EdgeTestResult {
    if within_tolerance(d, l, eps) {
        EdgeTestResult::Fits
    } else if d < l {
        EdgeTestResult::TooShort
    } else {
        EdgeTestResult::TooLong
    }
}

/// The integer bounds are exactly the tolerance: the lower one rounds up and
/// the upper one rounds down.
pub proof fn lemma_bounds_match_tolerance(d: int, l: int, eps: int)
    requires
        0 <= l,
        0 <= eps,
    ensures
        within_tolerance(d, l, eps) <==> (len2_lower(l, eps) <= d && d <= len2_upper(l, eps)),
{
    let den = EPS_DENOM as int;
    let up = len2_upper(l, eps);
    let lo = len2_lower(l, eps);
    vstd::arithmetic::div_mod::lemma_fundamental_div_mod(l * (den + eps), den);
    assert(0 <= l * (den + eps)) by (nonlinear_arith)
        requires 0 <= l, 0 <= eps, den > 0;
    // d <= up  <==>  den * d <= l * (den + eps)
    assert(d <= up <==> den * d <= l * (den + eps)) by (nonlinear_arith)
        requires
            den > 0,
            l * (den + eps) == den * up + (l * (den + eps)) % den,
            0 <= (l * (den + eps)) % den < den,
    ;
    if eps <= den {
        let a = l * (den - eps);
        vstd::arithmetic::div_mod::lemma_fundamental_div_mod(a + den - 1, den);
        assert(0 <= l * (den - eps)) by (nonlinear_arith)
            requires 0 <= l, eps <= den;
        assert(lo <= d <==> den * d >= a) by (nonlinear_arith)
            requires
                den > 0,
                a + den - 1 == den * lo + (a + den - 1) % den,
                0 <= (a + den - 1) % den < den,
        ;
    } else {
        let a = l * (eps - den);
        vstd::arithmetic::div_mod::lemma_fundamental_div_mod(a, den);
        assert(0 <= l * (eps - den)) by (nonlinear_arith)
            requires 0 <= l, eps > den;
        assert(lo <= d <==> den * d >= -a) by (nonlinear_arith)
            requires
                den > 0,
                lo == -(a / den),
                a == den * (a / den) + a % den,
                0 <= a % den < den,
        ;
    }
    assert(l * (den + eps) == l * den + l * eps) by (nonlinear_arith);
    assert(l * (den - eps) == l * den - l * eps) by (nonlinear_arith);
    assert(l * (eps - den) == l * eps - l * den) by (nonlinear_arith);
    assert(l * den == den * l) by (nonlinear_arith);
    assert(l * eps >= 0) by (nonlinear_arith)
        requires 0 <= l, 0 <= eps;
}

/// The figure: vertex positions, edges, the edges at each vertex as
/// `(edge index, other end)`, and the tolerance in millionths.
#[derive(Clone, Debug)]
pub struct Figure {
    pub vertices: Vec<Point>,
    pub edges: Vec<Edge>,
    pub vertex_edges: Vec<Vec<(usize, usize)>>,
    pub epsilon: u64,
}

/// An edge joins two vertices among `n`, and its nominal squared length is in range.
pub open spec fn edge_ok(e: Edge, n: int) -> bool {
    &&& e.v0 < n
    &&& e.v1 < n
    &&& 0 <= e.len2 <= MAX_DIST2
}

/// Entry `(e, w)` at vertex `v` names an edge between `v` and `w`.
pub open spec fn incidence_ok(edges: Seq<Edge>, v: int, entry: (usize, usize)) -> bool {
    &&& entry.0 < edges.len()
    &&& ((edges[entry.0 as int].v0 == v && edges[entry.0 as int].v1 == entry.1) || (edges[entry.0 as int].v1 == v
        && edges[entry.0 as int].v0 == entry.1))
}

pub open spec fn adjacency_ok(edges: Seq<Edge>, ve: Seq<Vec<(usize, usize)>>, n: int) -> bool {
    &&& ve.len() == n
    &&& forall|v: int, j: int|
        0 <= v < n && 0 <= j < ve[v]@.len() ==> #[trigger] incidence_ok(edges, v, ve[v]@[j])
}

/// The edges at vertex `u` among the first `k`, as `(edge index, other end)`
/// in edge order (an edge from `u` to itself is listed twice).
pub open spec fn incident_edges(edges: Seq<Edge>, u: int, k: int) -> Seq<(usize, usize)>
    decreases k,
{
    if k <= 0 {
        Seq::empty()
    } else {
        let s = incident_edges(edges, u, k - 1);
        let e = edges[k - 1];
        let s1 = if e.v0 == u {
            s.push(((k - 1) as usize, e.v1))
        } else {
            s
        };
        if e.v1 == u {
            s1.push(((k - 1) as usize, e.v0))
        } else {
            s1
        }
    }
}

impl Figure {
    pub open spec fn wf(&self) -> bool {
        &&& all_in_range(self.vertices@)
        &&& self.epsilon <= EPS_LIMIT
        &&& forall|i: int| 0 <= i < self.edges@.len() ==> #[trigger] edge_ok(self.edges@[i], self.vertices@.len() as int)
        &&& adjacency_ok(self.edges@, self.vertex_edges@, self.vertices@.len() as int)
    }

    /// Builds the figure and the edge lists of its vertices.
    pub fn new(vertices: Vec<Point>, edges: Vec<Edge>, epsilon: u64) -> (r: Figure)
        requires
            all_in_range(vertices@),
            epsilon <= EPS_LIMIT,
            forall|i: int| 0 <= i < edges@.len() ==> #[trigger] edge_ok(edges@[i], vertices@.len() as int),
        ensures
            r.wf(),
            r.vertices@ == vertices@,
            r.edges@ == edges@,
            r.epsilon == epsilon,
            forall|u: int|
                0 <= u < vertices@.len() ==> (#[trigger] r.vertex_edges@[u])@ == incident_edges(
                    edges@,
                    u,
                    edges@.len() as int,
                ),
    {
        let n = vertices.len();
        let mut vertex_edges: Vec<Vec<(usize, usize)>> = Vec::new();
        let mut v: usize = 0;
        while v < n
            invariant
                v <= n,
                vertex_edges@.len() == v,
                forall|u: int| 0 <= u < v ==> (#[trigger] vertex_edges@[u])@ == Seq::<(usize, usize)>::empty(),
            decreases n - v,
        {
            vertex_edges.push(Vec::new());
            v = v + 1;
        }
        let mut i: usize = 0;
        while i < edges.len()
            invariant
                n == vertices@.len(),
                i <= edges@.len(),
                forall|k: int| 0 <= k < edges@.len() ==> #[trigger] edge_ok(edges@[k], n as int),
                adjacency_ok(edges@, vertex_edges@, n as int),
                forall|u: int| 0 <= u < n ==> (#[trigger] vertex_edges@[u])@ == incident_edges(edges@, u, i as int),
            decreases edges.len() - i,
        {
            let e = edges[i];
            assert(edge_ok(edges@[i as int], n as int));
            let ghost before = vertex_edges@;
            vertex_edges[e.v0].push((i, e.v1));
            assert forall|u: int, j: int|
                0 <= u < n && 0 <= j < vertex_edges@[u]@.len() implies #[trigger] incidence_ok(
                edges@,
                u,
                vertex_edges@[u]@[j],
            ) by {
                if u != e.v0 || j < before[u]@.len() {
                    assert(incidence_ok(edges@, u, before[u]@[j]));
                }
            }
            let ghost before = vertex_edges@;
            vertex_edges[e.v1].push((i, e.v0));
            assert forall|u: int, j: int|
                0 <= u < n && 0 <= j < vertex_edges@[u]@.len() implies #[trigger] incidence_ok(
                edges@,
                u,
                vertex_edges@[u]@[j],
            ) by {
                if u != e.v1 || j < before[u]@.len() {
                    assert(incidence_ok(edges@, u, before[u]@[j]));
                }
            }
            proof {
                assert forall|u: int| 0 <= u < n implies (#[trigger] vertex_edges@[u])@ == incident_edges(
                    edges@,
                    u,
                    i + 1,
                ) by {}
            }
            i = i + 1;
        }
        Figure { vertices, edges, vertex_edges, epsilon }
    }

    /// The undeformed figure as a pose.
    pub fn get_default_pose(&self) -> (r: Pose)
        ensures
            r.vertices@ == self.vertices@,
            r.bonuses@.len() == 0,
            r.optimal.is_none(),
    {
        Pose::new(copy_points(&self.vertices))
    }

    /// Squared distance of two points in range.
    pub fn distance_squared_int(p: Point, q: Point) -> (r: i64)
        requires
            in_range(p),
            in_range(q),
        ensures
            r == dist2(p, q),
    {
        distance_squared_int(p, q)
    }

    /// Squared length of edge `idx` when its ends stand at `pose`.
    pub fn edge_len2(&self, idx: usize, pose: &Pose) -> (r: i64)
        requires
            self.wf(),
            idx < self.edges@.len(),
            pose.vertices@.len() == self.vertices@.len(),
            all_in_range(pose.vertices@),
        ensures
            r == dist2(
                pose.vertices@[self.edges@[idx as int].v0 as int],
                pose.vertices@[self.edges@[idx as int].v1 as int],
            ),
            0 <= r <= MAX_DIST2,
    {
        let e = self.edges[idx];
        assert(edge_ok(self.edges@[idx as int], self.vertices@.len() as int));
        assert(in_range(pose.vertices@[e.v0 as int]));
        assert(in_range(pose.vertices@[e.v1 as int]));
        distance_squared_int(pose.vertices[e.v0], pose.vertices[e.v1])
    }

    /// How far the squared length of edge `idx` in `pose` is from its nominal one.
    pub fn edge_len2_diff(&self, idx: usize, pose: &Pose) -> (r: i64)
        requires
            self.wf(),
            idx < self.edges@.len(),
            pose.vertices@.len() == self.vertices@.len(),
            all_in_range(pose.vertices@),
        ensures
            r == dist2(
                pose.vertices@[self.edges@[idx as int].v0 as int],
                pose.vertices@[self.edges@[idx as int].v1 as int],
            ) - self.edges@[idx as int].len2,
    {
        assert(edge_ok(self.edges@[idx as int], self.vertices@.len() as int));
        self.edge_len2(idx, pose) - self.edges[idx].len2
    }

    /// The integer interval of squared lengths that edge `idx` may take:
    /// `[ceil((1 - eps) L), floor((1 + eps) L)]`.
    pub fn edge_len2_bounds_int(&self, idx: usize) -> (r: (i64, i64))
        requires
            self.wf(),
            idx < self.edges@.len(),
        ensures
            r.0 == len2_lower(self.edges@[idx as int].len2 as int, self.epsilon as int),
            r.1 == len2_upper(self.edges@[idx as int].len2 as int, self.epsilon as int),
    {
        assert(edge_ok(self.edges@[idx as int], self.vertices@.len() as int));
        let l = self.edges[idx].len2 as i128;
        let eps = self.epsilon as i128;
        proof {
            assert(0 <= l * (1_000_000 + eps) <= 8_000_000_000_000 * 1_001_000_000) by (nonlinear_arith)
                requires 0 <= l <= 8_000_000_000_000, 0 <= eps <= 1_000_000_000;
            if eps > 1_000_000 {
                assert(0 <= l * (eps - 1_000_000) <= 8_000_000_000_000 * 1_000_000_000) by (nonlinear_arith)
                    requires 0 <= l <= 8_000_000_000_000, 1_000_000 < eps <= 1_000_000_000;
            } else {
                assert(0 <= l * (1_000_000 - eps) <= 8_000_000_000_000 * 1_000_000) by (nonlinear_arith)
                    requires 0 <= l <= 8_000_000_000_000, 0 <= eps <= 1_000_000;
            }
        }
        let hi = l * (1_000_000 + eps) / 1_000_000;
        let lo = if eps <= 1_000_000 {
            (l * (1_000_000 - eps) + 999_999) / 1_000_000
        } else {
            -(l * (eps - 1_000_000) / 1_000_000)
        };
        (lo as i64, hi as i64)
    }

    /// Compares the squared length of edge `idx` in `pose` with its tolerance.
    pub fn test_edge_len2(&self, idx: usize, pose: &Pose) -> (r: EdgeTestResult)
        requires
            self.wf(),
            idx < self.edges@.len(),
            pose.vertices@.len() == self.vertices@.len(),
            all_in_range(pose.vertices@),
        ensures
            r == edge_test(
                dist2(
                    pose.vertices@[self.edges@[idx as int].v0 as int],
                    pose.vertices@[self.edges@[idx as int].v1 as int],
                ),
                self.edges@[idx as int].len2 as int,
                self.epsilon as int,
            ),
    {
        assert(edge_ok(self.edges@[idx as int], self.vertices@.len() as int));
        let d = self.edge_len2(idx, pose) as i128;
        let l = self.edges[idx].len2 as i128;
        let eps = self.epsilon as i128;
        proof {
            assert(0 <= eps * l <= 1_000_000_000 * 8_000_000_000_000) by (nonlinear_arith)
                requires 0 <= l <= 8_000_000_000_000, 0 <= eps <= 1_000_000_000;
        }
        let allowed = eps * l;
        let diff = if d >= l { d - l } else { l - d };
        if 1_000_000 * diff <= allowed {
            EdgeTestResult::Fits
        } else if d < l {
            EdgeTestResult::TooShort
        } else {
            EdgeTestResult::TooLong
        }
    }
}

} // verus!
