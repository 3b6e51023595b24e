//! The exact backtracking search: vertices are placed in a fixed order, each
//! on a lattice cell that the propagation grids still allow; every complete
//! placement is validated in full, and each improvement is recorded.

use crate::delta::{build_delta_table, table_exact};
use crate::figure::{edge_ok, incidence_ok, len2_lower, len2_upper, Figure};
use crate::geometry::{all_in_range, dist2, distance_squared_int, in_range, Point};
use crate::order::{lists_ok, order_matches, topsort, tree_ok};
use crate::problem::{cell_index, copy_points, dislikes_of, grid_point, in_box, Pose, Problem};
use crate::propagate::{at, box_cells, box_ok, lemma_grid_point_in_box, lemma_shift_round_trip, shift, shifted};
use vstd::prelude::*;
use vstd::relations::injective_on;
use vstd::set_lib::{lemma_int_range, lemma_len_subset, lemma_map_size, set_int_range};

verus! {

/// Figures with more vertices than this are declined by the search.
pub const MAX_SEARCH_VERTICES: usize = 20;

/// Figures with a vertex of more forward edges than this are declined.
pub const MAX_FORWARD_EDGES: usize = 1_000_000;

/// Node visits between two looks at the clock.
pub const CHECK_INTERVAL: u64 = 50_000;

/// `std::time::Instant`, carried through the search as an opaque value.
#[verifier::external_type_specification]
#[verifier::external_body]
pub struct ExInstant(std::time::Instant);

/// Relies on `std::time::Instant::now`: a reading of the monotonic clock.
#[verifier::external_body]
fn clock_now() -> std::time::Instant {
    std::time::Instant::now()
}

/// Relies on `std::time::Instant::elapsed`: the time since `start`.
#[verifier::external_body]
fn elapsed_since(start: &std::time::Instant) -> std::time::Duration {
    start.elapsed()
}

/// Relies on `std::time::Duration::as_millis`: the whole milliseconds of `d`.
#[verifier::external_body]
fn whole_millis(d: &std::time::Duration) -> u128 {
    d.as_millis()
}

/// Milliseconds since `start`, saturating at `u64::MAX`.
fn elapsed_ms(start: &std::time::Instant) -> u64 {
    let ms = whole_millis(&elapsed_since(start));
    if ms > u64::MAX as u128 {
        u64::MAX
    } else {
        ms as u64
    }
}

/// The search stops once the time elapsed passes the deadline, if there is one.
pub fn past_deadline(elapsed_ms: u64, deadline_ms: Option<u64>) -> (r: bool)
    ensures
        r == (deadline_ms matches Some(limit) && elapsed_ms > limit),
{
    match deadline_ms {
        Some(limit) => elapsed_ms > limit,
        None => false,
    }
}

/// The deadline of root branch `seen` (counting from zero) of `roots`: the
/// timeout is divided evenly over them, rounded down per branch, so that
/// branch `seen` stops `(timeout / roots) * (seen + 1)` milliseconds after
/// the start; a branch beyond the count gets the whole timeout.
pub fn branch_deadline(timeout_ms: u64, roots: u64, seen: u64) -> (r: u64)
    ensures
        r <= timeout_ms,
        r == if seen < roots {
            (timeout_ms / roots) * (seen + 1)
        } else {
            timeout_ms as int
        },
{
    if seen < roots {
        let slice = timeout_ms / roots;
        proof {
            assert(slice * (seen + 1) <= slice * roots) by (nonlinear_arith)
                requires seen < roots, slice >= 0;
            assert(slice * roots <= timeout_ms) by (nonlinear_arith)
                requires slice == timeout_ms / roots, roots > 0, timeout_ms >= 0;
        }
        slice * (seen + 1)
    } else {
        timeout_ms
    }
}

/// What the search computes once and then only reads.
pub struct SearchPlan {
    /// The placement order: a permutation of the vertices.
    pub order: Vec<usize>,
    /// For each vertex, its place in the order.
    pub position: Vec<usize>,
    /// For each vertex, its edges `(edge, neighbour)` to vertices later in the order.
    pub forward: Vec<Vec<(usize, usize)>>,
    /// For each edge, its squared-length interval clipped to `[0, table.len() - 1]`.
    pub bounds: Vec<(i64, i64)>,
    /// The offset table up to the squared diagonal of the hole's bounding box.
    /// That the cells of a valid pose lie in the box is proved here, so this
    /// bound covers every edge of every valid pose. The largest squared
    /// distance between hole vertices is smaller, but that it bounds the
    /// points inside the hole rests on the geometry of containment, which is
    /// taken from the polygon test and not proved.
    pub table: Vec<Vec<(i64, i64)>>,
    /// Number of lattice cells in the hole's bounding box.
    pub cells: usize,
    /// Pruning slack on hole-vertex coverage: a placement is dropped when the
    /// hole vertices with nothing on them outnumber the vertices still to
    /// place by more than this. A heuristic aimed at zero dislikes, which may
    /// drop branches that hold valid poses; `None` turns it off.
    pub slack: Option<usize>,
    /// When the search started.
    pub started: std::time::Instant,
}

/// The search's working state: it changes in strict stack discipline.
pub struct SearchRunner {
    /// Per vertex, per cell: how many of the constraints so far the cell meets.
    pub can_place: Vec<usize>,
    /// Per vertex: how many placed neighbours have propagated onto it.
    pub consumed: Vec<usize>,
    /// Per hole vertex: how many placed vertices stand on it.
    pub covered: Vec<usize>,
    pub pose: Vec<Point>,
    pub best: Option<u64>,
    /// The improving poses, in the order they were found.
    pub emitted: Vec<Pose>,
    /// Their dislikes.
    pub scores: Vec<u64>,
    pub visits: u64,
    pub terminate: bool,
    /// Milliseconds after the start at which the current root branch stops.
    pub deadline_ms: Option<u64>,
}

pub open spec fn scores_decreasing(s: Seq<u64>) -> bool {
    forall|i: int, j: int| 0 <= i < j < s.len() ==> s[j] < s[i]
}

/// Every recorded pose is valid and carries its dislikes; the dislikes
/// strictly decrease; the best is the last of them.
pub open spec fn emissions_ok(problem: &Problem, emitted: Seq<Pose>, scores: Seq<u64>, best: Option<u64>) -> bool {
    &&& emitted.len() == scores.len()
    &&& forall|i: int| 0 <= i < emitted.len() ==> #[trigger] problem.valid(emitted[i].vertices@)
    &&& forall|i: int| 0 <= i < emitted.len() ==> #[trigger] scores[i] == dislikes_of(problem.hole@, emitted[i].vertices@)
    &&& scores_decreasing(scores)
    &&& best == if scores.len() == 0 {
        None
    } else {
        Some(scores.last())
    }
}

impl SearchPlan {
    pub open spec fn ok(&self, problem: &Problem) -> bool {
        let n = problem.figure.vertices@.len();
        let m = problem.figure.edges@.len();
        &&& problem.wf()
        &&& 1 <= n <= MAX_SEARCH_VERTICES
        &&& self.order@.len() == n
        &&& forall|i: int| 0 <= i < n ==> #[trigger] self.order@[i] < n
        &&& self.forward@.len() == n
        &&& forall|v: int| 0 <= v < n ==> (#[trigger] self.forward@[v])@.len() <= MAX_FORWARD_EDGES
        &&& forall|v: int, j: int|
            0 <= v < n && 0 <= j < self.forward@[v]@.len() ==> (#[trigger] self.forward@[v]@[j]).0 < m
                && self.forward@[v]@[j].1 < n
        &&& self.bounds@.len() == m
        &&& forall|e: int| 0 <= e < m ==> 0 <= (#[trigger] self.bounds@[e]).0 && self.bounds@[e].1 < self.table@.len()
        &&& 1 <= self.table@.len() <= 8_000_000_000_001
        &&& self.table@.len() - 1 == box_diagonal2(problem.bbox_min, problem.bbox_max)
        &&& table_exact(self.table@, self.table@.len() - 1)
        &&& box_ok(problem.bbox_min, problem.bbox_max)
        &&& self.cells == problem.inside@.len()
        &&& self.cells == box_cells(problem.bbox_min, problem.bbox_max)
        &&& self.cells >= 1
        &&& order_matches(self.order@, Seq::new(n, |i: int| true))
        &&& forward_partition(self, &problem.figure)
        &&& forall|e: int|
            0 <= e < m ==> #[trigger] self.bounds@[e] == clip_bounds(
                len2_lower(problem.figure.edges@[e].len2 as int, problem.figure.epsilon as int),
                len2_upper(problem.figure.edges@[e].len2 as int, problem.figure.epsilon as int),
                self.table@.len() - 1,
            )
    }
}

/// Among the first `t` entries of `list`, those that lead to `w` and whose
/// edge's interval admits the squared distance from `p` to `q`.
pub open spec fn list_gain(list: Seq<(usize, usize)>, t: int, bounds: Seq<(i64, i64)>, w: int, p: Point, q: Point) -> int
    decreases t,
{
    if t <= 0 {
        0
    } else {
        list_gain(list, t - 1, bounds, w, p, q) + if list[t - 1].1 == w && crate::propagate::reach(
            p,
            q,
            bounds[list[t - 1].0 as int].0 as int,
            bounds[list[t - 1].0 as int].1 as int,
        ) {
            1int
        } else {
            0int
        }
    }
}

/// Among the first `t` entries of `list`, those that lead to `w`.
pub open spec fn list_count(list: Seq<(usize, usize)>, t: int, w: int) -> int
    decreases t,
{
    if t <= 0 {
        0
    } else {
        list_count(list, t - 1, w) + if list[t - 1].1 == w {
            1int
        } else {
            0int
        }
    }
}

/// The propagations onto `w` that admit cell `q`, from the first `i`
/// vertices of the order standing where `pose` puts them.
pub open spec fn gain(plan: &SearchPlan, pose: Seq<Point>, i: int, w: int, q: Point) -> int
    decreases i,
{
    if i <= 0 {
        0
    } else {
        let u = plan.order@[i - 1] as int;
        gain(plan, pose, i - 1, w, q) + list_gain(
            plan.forward@[u]@,
            plan.forward@[u]@.len() as int,
            plan.bounds@,
            w,
            pose[u],
            q,
        )
    }
}

/// The propagations onto `w` from the first `i` vertices of the order.
pub open spec fn count(plan: &SearchPlan, i: int, w: int) -> int
    decreases i,
{
    if i <= 0 {
        0
    } else {
        let u = plan.order@[i - 1] as int;
        count(plan, i - 1, w) + list_count(plan.forward@[u]@, plan.forward@[u]@.len() as int, w)
    }
}

/// `pose` and `target` agree on the first `i` vertices of the order.
pub open spec fn agrees(plan: &SearchPlan, pose: Seq<Point>, target: Seq<Point>, i: int) -> bool {
    forall|j: int| 0 <= j < i ==> pose[#[trigger] plan.order@[j] as int] == target[plan.order@[j] as int]
}

/// Some valid pose agrees with `pose` on the first `i` vertices of the order
/// and has `d` dislikes.
pub open spec fn completes(plan: &SearchPlan, problem: &Problem, pose: Seq<Point>, i: int, d: int) -> bool {
    exists|goal: Seq<Point>|
        #[trigger] problem.valid(goal) && agrees(plan, pose, goal, i) && dislikes_of(problem.hole@, goal) == d
}

/// What `before` recorded stays in front of `after`, and each pose recorded
/// since agrees with `pose` on the first `i` vertices of the order.
pub open spec fn records_agree(plan: &SearchPlan, before: Seq<Pose>, after: Seq<Pose>, pose: Seq<Point>, i: int) -> bool {
    &&& before.len() <= after.len()
    &&& after.subrange(0, before.len() as int) == before
    &&& forall|t: int| before.len() <= t < after.len() ==> agrees(plan, pose, #[trigger] after[t].vertices@, i)
}

proof fn lemma_records_refl(plan: &SearchPlan, a: Seq<Pose>, pose: Seq<Point>, i: int)
    ensures
        records_agree(plan, a, a, pose, i),
{
    assert(a.subrange(0, a.len() as int) =~= a);
}

proof fn lemma_records_trans(plan: &SearchPlan, a: Seq<Pose>, b: Seq<Pose>, c: Seq<Pose>, pose: Seq<Point>, i: int)
    requires
        records_agree(plan, a, b, pose, i),
        records_agree(plan, b, c, pose, i),
    ensures
        records_agree(plan, a, c, pose, i),
{
    assert(c.subrange(0, a.len() as int) =~= b.subrange(0, a.len() as int));
    assert forall|t: int| a.len() <= t < c.len() implies agrees(plan, pose, #[trigger] c[t].vertices@, i) by {
        if t < b.len() {
            assert(c[t] == b[t]);
        }
    }
}

/// Records that agree with `pose` on `i + 1` vertices of the order agree on
/// `i` with any pose that differs from it only at the vertex in place `i`.
proof fn lemma_records_weaken(plan: &SearchPlan, problem: &Problem, a: Seq<Pose>, b: Seq<Pose>, pose: Seq<Point>, other: Seq<Point>, i: int)
    requires
        plan.ok(problem),
        0 <= i < problem.figure.vertices@.len(),
        records_agree(plan, a, b, pose, i + 1),
        agrees(plan, pose, other, i),
    ensures
        records_agree(plan, a, b, other, i),
{
    assert forall|t: int| a.len() <= t < b.len() implies agrees(plan, other, #[trigger] b[t].vertices@, i) by {
        assert(agrees(plan, pose, b[t].vertices@, i + 1));
        assert forall|j: int| 0 <= j < i implies other[#[trigger] plan.order@[j] as int] == b[t].vertices@[plan.order@[j] as int] by {
            assert(pose[plan.order@[j] as int] == b[t].vertices@[plan.order@[j] as int]);
        }
    }
}

proof fn lemma_gain_frame(plan: &SearchPlan, a: Seq<Point>, b: Seq<Point>, i: int, w: int, q: Point)
    requires
        agrees(plan, a, b, i),
    ensures
        gain(plan, a, i, w, q) == gain(plan, b, i, w, q),
    decreases i,
{
    if i > 0 {
        lemma_gain_frame(plan, a, b, i - 1, w, q);
        assert(a[plan.order@[i - 1] as int] == b[plan.order@[i - 1] as int]);
    }
}

/// Where a valid pose puts `v` and `w`, every edge from `v` to `w` in `v`'s
/// forward list admits the distance between them.
proof fn lemma_list_satisfied(
    plan: &SearchPlan,
    problem: &Problem,
    target: Seq<Point>,
    v: int,
    w: int,
    t: int,
)
    requires
        plan.ok(problem),
        problem.valid(target),
        0 <= v < problem.figure.vertices@.len(),
        0 <= w < problem.figure.vertices@.len(),
        0 <= t <= plan.forward@[v]@.len(),
    ensures
        list_gain(plan.forward@[v]@, t, plan.bounds@, w, target[v], target[w]) == list_count(plan.forward@[v]@, t, w),
    decreases t,
{
    if t > 0 {
        lemma_list_satisfied(plan, problem, target, v, w, t - 1);
        let entry = plan.forward@[v]@[t - 1];
        if entry.1 == w {
            let n = problem.figure.vertices@.len() as int;
            assert(problem.figure.vertex_edges@[v]@.contains(entry));
            let j = choose|j: int|
                0 <= j < problem.figure.vertex_edges@[v]@.len() && problem.figure.vertex_edges@[v]@[j] == entry;
            assert(incidence_ok(problem.figure.edges@, v, problem.figure.vertex_edges@[v]@[j]));
            let e = entry.0 as int;
            let edge = problem.figure.edges@[e];
            assert(edge_ok(edge, n));
            crate::problem::lemma_valid_pose_lengths(problem, target);
            crate::problem::lemma_valid_pose_inside(problem, target);
            assert(problem.grid_holds(target[v]));
            assert(problem.grid_holds(target[w]));
            lemma_box_distance(problem.bbox_min, problem.bbox_max, target[v], target[w]);
            assert(dist2(target[v], target[w]) == dist2(target[w], target[v])) by (nonlinear_arith);
            assert(len2_lower(edge.len2 as int, problem.figure.epsilon as int) <= dist2(
                target[edge.v0 as int],
                target[edge.v1 as int],
            ) <= len2_upper(edge.len2 as int, problem.figure.epsilon as int));
            assert(plan.bounds@[e] == clip_bounds(
                len2_lower(edge.len2 as int, problem.figure.epsilon as int),
                len2_upper(edge.len2 as int, problem.figure.epsilon as int),
                plan.table@.len() - 1,
            ));
        }
    }
}

/// The cell that a valid pose, agreeing with the placed vertices, gives to
/// the next vertex is a candidate for it.
proof fn lemma_candidate(plan: &SearchPlan, problem: &Problem, r: &SearchRunner, goal: Seq<Point>, index: int, v: int)
    requires
        plan.ok(problem),
        r.ok(plan, problem),
        r.grids_match(plan, problem, index),
        problem.valid(goal),
        0 <= index < problem.figure.vertices@.len(),
        v == plan.order@[index],
        agrees(plan, r.pose@, goal, index),
    ensures
        ({
            let h = problem.bbox_max.y - problem.bbox_min.y + 1;
            let k = cell_index(problem.bbox_min, h, goal[v]);
            &&& 0 <= k < plan.cells
            &&& grid_point(problem.bbox_min, h, k) == goal[v]
            &&& at(r.can_place@, v * plan.cells, k) == 1 + r.consumed@[v]
        }),
{
    let h = problem.bbox_max.y - problem.bbox_min.y + 1;
    assert(plan.position@[v] == index);
    crate::problem::lemma_valid_pose_inside(problem, goal);
    assert(problem.grid_holds(goal[v]));
    crate::problem::lemma_cell_index(problem.bbox_min, problem.bbox_max, goal[v]);
    lemma_gain_satisfied(plan, problem, r.pose@, goal, index, v);
}

/// For a valid pose that the placed vertices agree with, every propagation
/// onto `w` admits `w`'s cell in that pose.
proof fn lemma_gain_satisfied(plan: &SearchPlan, problem: &Problem, pose: Seq<Point>, target: Seq<Point>, i: int, w: int)
    requires
        plan.ok(problem),
        problem.valid(target),
        0 <= i <= problem.figure.vertices@.len(),
        0 <= w < problem.figure.vertices@.len(),
        agrees(plan, pose, target, i),
    ensures
        gain(plan, pose, i, w, target[w]) == count(plan, i, w),
    decreases i,
{
    if i > 0 {
        lemma_gain_satisfied(plan, problem, pose, target, i - 1, w);
        let u = plan.order@[i - 1] as int;
        assert(pose[u] == target[u]);
        lemma_list_satisfied(plan, problem, target, u, w, plan.forward@[u]@.len() as int);
    }
}

/// How many counters are zero.
pub open spec fn zeros(s: Seq<usize>) -> nat
    decreases s.len(),
{
    if s.len() == 0 {
        0
    } else {
        zeros(s.drop_last()) + if s.last() == 0 {
            1nat
        } else {
            0nat
        }
    }
}

/// The indices of the zero counters.
pub open spec fn zero_set(s: Seq<usize>) -> Set<int>
    decreases s.len(),
{
    if s.len() == 0 {
        Set::empty()
    } else if s.last() == 0 {
        zero_set(s.drop_last()).insert(s.len() - 1)
    } else {
        zero_set(s.drop_last())
    }
}

proof fn lemma_zero_set(s: Seq<usize>)
    ensures
        zero_set(s).finite(),
        zero_set(s).len() == zeros(s),
        forall|h: int| #[trigger] zero_set(s).contains(h) <==> 0 <= h < s.len() && s[h] == 0,
    decreases s.len(),
{
    if s.len() > 0 {
        let t = s.drop_last();
        lemma_zero_set(t);
        assert(!zero_set(t).contains(s.len() - 1));
        assert forall|h: int| #[trigger] zero_set(s).contains(h) <==> 0 <= h < s.len() && s[h] == 0 by {
            if 0 <= h < s.len() - 1 {
                assert(t[h] == s[h]);
            }
        }
    }
}

/// Where each zero counter can be given a place of its own in `[lo, hi)`,
/// there are at most `hi - lo` of them.
proof fn lemma_zeros_bound(s: Seq<usize>, f: spec_fn(int) -> int, lo: int, hi: int)
    requires
        lo <= hi,
        forall|h: int| 0 <= h < s.len() && s[h] == 0 ==> lo <= #[trigger] f(h) < hi,
        forall|a: int, b: int| 0 <= a < s.len() && 0 <= b < s.len() && s[a] == 0 && s[b] == 0 && #[trigger] f(a) == #[trigger] f(b) ==> a == b,
    ensures
        zeros(s) <= hi - lo,
{
    lemma_zero_set(s);
    let x = zero_set(s);
    let y = x.map(f);
    assert(injective_on(f, x));
    lemma_map_size(x, y, f);
    lemma_int_range(lo, hi);
    assert(y.subset_of(set_int_range(lo, hi)));
    lemma_len_subset(y, set_int_range(lo, hi));
}

/// How many of the first `i` vertices of the order stand on `q`.
pub open spec fn on_point(plan: &SearchPlan, pose: Seq<Point>, i: int, q: Point) -> int
    decreases i,
{
    if i <= 0 {
        0
    } else {
        on_point(plan, pose, i - 1, q) + if pose[plan.order@[i - 1] as int] == q {
            1int
        } else {
            0int
        }
    }
}

proof fn lemma_on_point_pos(plan: &SearchPlan, pose: Seq<Point>, i: int, j: int, q: Point)
    requires
        0 <= j < i,
        pose[plan.order@[j] as int] == q,
    ensures
        on_point(plan, pose, i, q) >= 1,
    decreases i,
{
    if j < i - 1 {
        lemma_on_point_pos(plan, pose, i - 1, j, q);
    }
    lemma_on_point_nonneg(plan, pose, i - 1, q);
}

proof fn lemma_on_point_frame(plan: &SearchPlan, a: Seq<Point>, b: Seq<Point>, i: int, q: Point)
    requires
        agrees(plan, a, b, i),
    ensures
        on_point(plan, a, i, q) == on_point(plan, b, i, q),
    decreases i,
{
    if i > 0 {
        lemma_on_point_frame(plan, a, b, i - 1, q);
        assert(a[plan.order@[i - 1] as int] == b[plan.order@[i - 1] as int]);
    }
}

proof fn lemma_on_point_nonneg(plan: &SearchPlan, pose: Seq<Point>, i: int, q: Point)
    ensures
        on_point(plan, pose, i, q) >= 0,
    decreases i,
{
    if i > 0 {
        lemma_on_point_nonneg(plan, pose, i - 1, q);
    }
}

/// A pose with no dislikes stands on every hole vertex.
proof fn lemma_dislikes_zero(hole: Seq<Point>, pose: Seq<Point>)
    requires
        dislikes_of(hole, pose) == 0,
        pose.len() >= 1,
    ensures
        forall|h: int| 0 <= h < hole.len() ==> exists|u: int| 0 <= u < pose.len() && pose[u] == #[trigger] hole[h],
    decreases hole.len(),
{
    if hole.len() > 0 {
        let t = hole.drop_last();
        crate::problem::lemma_dislikes_nonneg(t, pose);
        crate::problem::lemma_nearest_nonneg(hole.last(), pose);
        lemma_dislikes_zero(t, pose);
        lemma_nearest_zero(hole.last(), pose);
        assert forall|h: int| 0 <= h < hole.len() implies exists|u: int| 0 <= u < pose.len() && pose[u] == #[trigger] hole[h] by {
            if h < hole.len() - 1 {
                assert(t[h] == hole[h]);
            }
        }
    }
}

proof fn lemma_nearest_zero(q: Point, pose: Seq<Point>)
    requires
        crate::problem::nearest_dist2(q, pose) == 0,
        pose.len() >= 1,
    ensures
        exists|u: int| 0 <= u < pose.len() && pose[u] == q,
    decreases pose.len(),
{
    let a = q.x - pose.last().x;
    let b = q.y - pose.last().y;
    assert(a * a >= 0 && b * b >= 0) by (nonlinear_arith);
    if dist2(q, pose.last()) == 0 {
        assert(a == 0 && b == 0) by (nonlinear_arith)
            requires a * a + b * b == 0;
        assert(pose[pose.len() - 1] == q);
    } else {
        let t = pose.drop_last();
        lemma_nearest_zero(q, t);
        let u = choose|u: int| 0 <= u < t.len() && t[u] == q;
        assert(pose[u] == q);
    }
}

/// The hole vertices on which none of the first `i` vertices of the order
/// stand, where `pose` puts them.
pub open spec fn uncovered_by(plan: &SearchPlan, hole: Seq<Point>, pose: Seq<Point>, i: int) -> nat
    decreases hole.len(),
{
    if hole.len() == 0 {
        0
    } else {
        uncovered_by(plan, hole.drop_last(), pose, i) + if on_point(plan, pose, i, hole.last()) == 0 {
            1nat
        } else {
            0nat
        }
    }
}

/// The coverage pruning keeps every prefix of `goal` in the placement
/// order: with its first `i` vertices placed as `goal` puts them, the hole
/// vertices with nothing on them exceed the vertices left by at most the slack.
pub open spec fn never_pruned(plan: &SearchPlan, problem: &Problem, goal: Seq<Point>) -> bool {
    let n = problem.figure.vertices@.len() as int;
    plan.slack matches Some(slack) ==> forall|i: int|
        1 <= i <= n ==> #[trigger] uncovered_by(plan, problem.hole@, goal, i) <= n - i + slack
}

/// Counters that count the vertices on each hole vertex, for a pose that
/// agrees with `goal`, have as many zeros as `goal` leaves hole vertices uncovered.
proof fn lemma_uncovered_match(plan: &SearchPlan, hole: Seq<Point>, s: Seq<usize>, pose: Seq<Point>, goal: Seq<Point>, i: int)
    requires
        s.len() == hole.len(),
        forall|h: int| 0 <= h < s.len() ==> #[trigger] s[h] == on_point(plan, pose, i, hole[h]),
        agrees(plan, pose, goal, i),
    ensures
        zeros(s) == uncovered_by(plan, hole, goal, i),
    decreases hole.len(),
{
    if hole.len() > 0 {
        let s2 = s.drop_last();
        let h2 = hole.drop_last();
        assert forall|h: int| 0 <= h < s2.len() implies #[trigger] s2[h] == on_point(plan, pose, i, h2[h]) by {
            assert(s[h] == on_point(plan, pose, i, hole[h]));
        }
        lemma_uncovered_match(plan, h2, s2, pose, goal, i);
        assert(s[s.len() - 1] == on_point(plan, pose, i, hole[hole.len() - 1]));
        lemma_on_point_frame(plan, pose, goal, i, hole.last());
    }
}

/// With a pose of no dislikes that agrees with `pose` on the first `i`
/// vertices of the order, and hole vertices at distinct points, at most
/// `n - i` hole vertices have none of those `i` vertices on them.
proof fn lemma_perfect_cover(plan: &SearchPlan, problem: &Problem, pose: Seq<Point>, goal: Seq<Point>, i: int, s: Seq<usize>)
    requires
        plan.ok(problem),
        problem.valid(goal),
        dislikes_of(problem.hole@, goal) == 0,
        problem.hole@.no_duplicates(),
        agrees(plan, pose, goal, i),
        0 <= i <= problem.figure.vertices@.len(),
        s.len() == problem.hole@.len(),
        forall|h: int| 0 <= h < s.len() ==> #[trigger] s[h] == on_point(plan, pose, i, problem.hole@[h]),
    ensures
        zeros(s) <= problem.figure.vertices@.len() - i,
{
    let n = problem.figure.vertices@.len() as int;
    let hole = problem.hole@;
    lemma_dislikes_zero(hole, goal);
    let f = |h: int| choose|j: int| 0 <= j < n && goal[plan.order@[j] as int] == hole[h];
    assert forall|h: int| 0 <= h < s.len() && s[h] == 0 implies i <= #[trigger] f(h) < n && goal[plan.order@[f(h)] as int]
        == hole[h] by {
        let u = choose|u: int| 0 <= u < goal.len() && goal[u] == #[trigger] hole[h];
        assert(order_matches(plan.order@, Seq::new(n as nat, |k: int| true)));
        assert(Seq::new(n as nat, |k: int| true)[u]);
        assert(plan.order@.contains(u as usize));
        let j = choose|j: int| 0 <= j < plan.order@.len() && plan.order@[j] == u as usize;
        assert(goal[plan.order@[j] as int] == hole[h]);
        let fj = f(h);
        if fj < i {
            assert(pose[plan.order@[fj] as int] == goal[plan.order@[fj] as int]);
            lemma_on_point_pos(plan, pose, i, fj, hole[h]);
        }
    }
    assert forall|a: int, b: int|
        0 <= a < s.len() && 0 <= b < s.len() && s[a] == 0 && s[b] == 0 && #[trigger] f(a) == #[trigger] f(b) implies a == b by {
        assert(hole[a] == hole[b]);
    }
    lemma_zeros_bound(s, f, i, n);
}

/// On a hole of distinct vertices, the pruning never cuts a valid pose with
/// no dislikes, whatever the slack.
pub proof fn lemma_perfect_never_pruned(plan: &SearchPlan, problem: &Problem, goal: Seq<Point>)
    requires
        plan.ok(problem),
        problem.valid(goal),
        dislikes_of(problem.hole@, goal) == 0,
        problem.hole@.no_duplicates(),
    ensures
        never_pruned(plan, problem, goal),
{
    let n = problem.figure.vertices@.len() as int;
    let hole = problem.hole@;
    assert forall|i: int| 1 <= i <= n implies #[trigger] uncovered_by(plan, hole, goal, i) <= n - i by {
        let s = Seq::new(hole.len(), |h: int| on_point(plan, goal, i, hole[h]) as usize);
        assert forall|h: int| 0 <= h < s.len() implies #[trigger] s[h] == on_point(plan, goal, i, hole[h]) by {
            lemma_on_point_nonneg(plan, goal, i, hole[h]);
            lemma_on_point_le(plan, goal, i, hole[h]);
        }
        lemma_uncovered_match(plan, hole, s, goal, goal, i);
        lemma_perfect_cover(plan, problem, goal, goal, i, s);
    }
}

proof fn lemma_on_point_le(plan: &SearchPlan, pose: Seq<Point>, i: int, q: Point)
    requires
        i >= 0,
    ensures
        on_point(plan, pose, i, q) <= i,
    decreases i,
{
    if i > 0 {
        lemma_on_point_le(plan, pose, i - 1, q);
    }
}

/// Every counter is at most one more than the propagations its vertex has had.
pub open spec fn grid_bound(g: Seq<usize>, consumed: Seq<usize>, n: int, cells: int) -> bool {
    forall|w: int, k: int| 0 <= w < n && 0 <= k < cells ==> #[trigger] at(g, w * cells, k) <= 1 + consumed[w]
}

/// The best recorded score never rises as records are appended.
proof fn lemma_best_falls(problem: &Problem, a: &SearchRunner, b: &SearchRunner)
    requires
        emissions_ok(problem, a.emitted@, a.scores@, a.best),
        emissions_ok(problem, b.emitted@, b.scores@, b.best),
        b.extends(a),
    ensures
        a.best matches Some(x) ==> b.best matches Some(y) && y <= x,
{
    if a.scores@.len() > 0 {
        let k = a.scores@.len() - 1;
        assert(b.scores@[k] == a.scores@.subrange(0, a.scores@.len() as int)[k]) by {
            assert(b.scores@.subrange(0, a.scores@.len() as int)[k] == b.scores@[k]);
        }
        assert(a.scores@.subrange(0, a.scores@.len() as int) =~= a.scores@);
        if k < b.scores@.len() - 1 {
            assert(b.scores@[b.scores@.len() - 1] < b.scores@[k]);
        }
    }
}

proof fn lemma_prefix_refl(s: Seq<u64>)
    ensures
        s.subrange(0, s.len() as int) == s,
{
    assert(s.subrange(0, s.len() as int) =~= s);
}

proof fn lemma_prefix_trans(a: Seq<u64>, b: Seq<u64>, c: Seq<u64>)
    requires
        a.len() <= b.len() <= c.len(),
        b.subrange(0, a.len() as int) == a,
        c.subrange(0, b.len() as int) == b,
    ensures
        c.subrange(0, a.len() as int) == a,
{
    assert(c.subrange(0, a.len() as int) =~= b.subrange(0, a.len() as int));
}

pub proof fn lemma_block(w: int, n: int, cells: int, k: int)
    requires
        0 <= w < n,
        0 <= k < cells,
    ensures
        0 <= w * cells,
        w * cells + k < n * cells,
        w * cells + cells <= n * cells,
{
    assert(w * cells + cells <= n * cells) by (nonlinear_arith)
        requires 0 <= w < n, 0 <= k < cells;
    assert(0 <= w * cells) by (nonlinear_arith)
        requires 0 <= w, 0 <= cells;
}

pub proof fn lemma_block_disjoint(w: int, u: int, cells: int, k: int)
    requires
        0 <= w,
        0 <= u,
        w != u,
        0 <= k < cells,
    ensures
        !(w * cells <= u * cells + k < w * cells + cells),
{
    if u < w {
        assert(u * cells + k < w * cells) by (nonlinear_arith)
            requires u < w, 0 <= k < cells;
    } else {
        assert(u * cells + k >= w * cells + cells) by (nonlinear_arith)
            requires u > w, 0 <= k < cells;
    }
}

impl SearchRunner {
    /// The working state fits the plan, and what it has recorded is sound.
    pub open spec fn ok(&self, plan: &SearchPlan, problem: &Problem) -> bool {
        let n = problem.figure.vertices@.len();
        &&& self.can_place@.len() == n * plan.cells
        &&& self.consumed@.len() == n
        &&& self.covered@.len() == problem.hole@.len()
        &&& self.pose@.len() == n
        &&& all_in_range(self.pose@)
        &&& self.visits < CHECK_INTERVAL
        &&& emissions_ok(problem, self.emitted@, self.scores@, self.best)
        &&& grid_bound(self.can_place@, self.consumed@, n as int, plan.cells as int)
    }

    /// For each vertex not placed yet, a counter holds one for a cell inside
    /// the hole plus the propagations from placed vertices that admit the
    /// cell, and its consumed count is the number of those propagations.
    pub open spec fn grids_match(&self, plan: &SearchPlan, problem: &Problem, index: int) -> bool {
        let n = problem.figure.vertices@.len();
        let h = problem.bbox_max.y - problem.bbox_min.y + 1;
        &&& forall|w: int, k: int|
            0 <= w < n && plan.position@[w] >= index && 0 <= k < plan.cells ==> #[trigger] at(
                self.can_place@,
                w * plan.cells,
                k,
            ) == (if problem.inside@[k] {
                1int
            } else {
                0int
            }) + gain(plan, self.pose@, index, w, grid_point(problem.bbox_min, h, k))
        &&& forall|w: int|
            0 <= w < n && plan.position@[w] >= index ==> #[trigger] self.consumed@[w] == count(plan, index, w)
    }

    /// Each hole vertex's counter is the number of the first `index` vertices
    /// of the order that stand on it.
    pub open spec fn coverage_match(&self, plan: &SearchPlan, problem: &Problem, index: int) -> bool {
        forall|h: int|
            0 <= h < problem.hole@.len() ==> #[trigger] self.covered@[h] == on_point(plan, self.pose@, index, problem.hole@[h])
    }

    /// No clock can stop the search.
    pub open spec fn unclocked(&self) -> bool {
        self.deadline_ms is None && !self.terminate
    }

    /// The counters stay below what `index` placed vertices can have added.
    pub open spec fn within_level(&self, index: int) -> bool {
        &&& forall|w: int| 0 <= w < self.consumed@.len() ==> #[trigger] self.consumed@[w] <= index * MAX_FORWARD_EDGES
        &&& forall|h: int| 0 <= h < self.covered@.len() ==> #[trigger] self.covered@[h] <= index
    }

    /// The part of the state that every branch gives back as it found it.
    pub open spec fn same_frame(&self, other: &SearchRunner) -> bool {
        &&& self.can_place@ == other.can_place@
        &&& self.consumed@ == other.consumed@
        &&& self.covered@ == other.covered@
        &&& self.pose@ == other.pose@
    }

    /// Everything but the propagation counters is as in `other`.
    pub open spec fn same_rest(&self, other: &SearchRunner) -> bool {
        &&& self.covered@ == other.covered@
        &&& self.pose@ == other.pose@
        &&& self.best == other.best
        &&& self.emitted@ == other.emitted@
        &&& self.scores@ == other.scores@
        &&& self.visits == other.visits
        &&& self.terminate == other.terminate
        &&& self.deadline_ms == other.deadline_ms
    }

    /// What was recorded before stays, in front.
    pub open spec fn extends(&self, other: &SearchRunner) -> bool {
        &&& other.scores@.len() <= self.scores@.len()
        &&& self.scores@.subrange(0, other.scores@.len() as int) == other.scores@
        &&& self.emitted@.len() == self.scores@.len()
    }

    /// A complete placement: validate it in full, and record it if it beats
    /// the best so far.
    fn finish(&mut self, plan: &SearchPlan, problem: &Problem) -> (r: Option<u64>)
        requires
            plan.ok(problem),
            old(self).ok(plan, problem),
        ensures
            final(self).ok(plan, problem),
            final(self).same_frame(old(self)),
            final(self).extends(old(self)),
            final(self).terminate == old(self).terminate,
            final(self).deadline_ms == old(self).deadline_ms,
            r matches Some(d) ==> final(self).best matches Some(b) && b <= d,
            problem.valid(old(self).pose@) ==> (r matches Some(d) && d == dislikes_of(problem.hole@, old(self).pose@)),
            r matches Some(d) ==> problem.valid(old(self).pose@) && d == dislikes_of(problem.hole@, old(self).pose@),
            final(self).emitted@.subrange(0, old(self).emitted@.len() as int) == old(self).emitted@,
            forall|t: int|
                old(self).emitted@.len() <= t < final(self).emitted@.len() ==> (#[trigger] final(self).emitted@[t]).vertices@
                    == old(self).pose@,
    {
        proof {
            assert(self.emitted@.subrange(0, self.emitted@.len() as int) =~= self.emitted@);
        }
        proof {
            lemma_prefix_refl(self.scores@);
        }
        let snapshot = Pose::new(copy_points(&self.pose));
        if !problem.validate(&snapshot) {
            return None;
        }
        let d = problem.dislikes(&snapshot);
        let improves = match self.best {
            Some(b) => d < b,
            None => true,
        };
        if improves {
            let ghost s0 = self.scores@;
            self.best = Some(d);
            self.scores.push(d);
            let ghost e0 = self.emitted@;
            self.emitted.push(snapshot);
            proof {
                assert(self.emitted@.subrange(0, e0.len() as int) =~= e0);
                assert(self.scores@.subrange(0, s0.len() as int) == s0);
                assert forall|i: int| 0 <= i < self.emitted@.len() implies #[trigger] problem.valid(
                    self.emitted@[i].vertices@,
                ) by {}
                assert forall|i: int, j: int| 0 <= i < j < self.scores@.len() implies self.scores@[j] < self.scores@[i] by {
                    if j == s0.len() {
                        if s0.len() > 0 {
                            assert(s0[i] >= s0.last());
                        }
                    }
                }
            }
        }
        Some(d)
    }

    /// Places vertex `order[index]` on each cell that the grids allow, in
    /// turn, and searches on from there. Returns the least dislikes reached
    /// below, if any complete placement was valid.
    pub fn place_vertices(&mut self, plan: &SearchPlan, problem: &Problem, index: usize) -> (r: Option<u64>)
        requires
            plan.ok(problem),
            old(self).ok(plan, problem),
            old(self).within_level(index as int),
            old(self).grids_match(plan, problem, index as int),
            old(self).coverage_match(plan, problem, index as int),
            1 <= index <= problem.figure.vertices@.len(),
        ensures
            final(self).ok(plan, problem),
            final(self).same_frame(old(self)),
            final(self).extends(old(self)),
            final(self).deadline_ms == old(self).deadline_ms,
            r matches Some(d) ==> final(self).best matches Some(b) && b <= d,
            r matches Some(d) ==> completes(plan, problem, old(self).pose@, index as int, d as int),
            old(self).terminate ==> r is None && *final(self) == *old(self),
            records_agree(plan, old(self).emitted@, final(self).emitted@, old(self).pose@, index as int),
            old(self).unclocked() ==> !final(self).terminate,
            old(self).unclocked() && problem.hole@.no_duplicates() && completes(plan, problem, old(self).pose@, index as int, 0)
                ==> r == Some(0u64),
            old(self).unclocked() ==> forall|goal: Seq<Point>|
                #[trigger] problem.valid(goal) && agrees(plan, old(self).pose@, goal, index as int) && never_pruned(
                    plan,
                    problem,
                    goal,
                ) ==> (r matches Some(d) && d <= dislikes_of(problem.hole@, goal)),
        decreases problem.figure.vertices@.len() - index, 1int,
    {
        proof {
            lemma_prefix_refl(self.scores@);
            lemma_records_refl(plan, self.emitted@, self.pose@, index as int);
        }
        if self.terminate {
            return None;
        }
        self.visits = self.visits + 1;
        if self.visits >= CHECK_INTERVAL {
            self.visits = 0;
            if self.deadline_ms.is_some() && past_deadline(elapsed_ms(&plan.started), self.deadline_ms) {
                self.terminate = true;
                return None;
            }
        }
        let n = problem.figure.vertices.len();
        if index == n {
            proof {
                assert forall|goal: Seq<Point>|
                    #[trigger] problem.valid(goal) && agrees(plan, self.pose@, goal, index as int) implies self.pose@
                    == goal by {
                    assert forall|u: int| 0 <= u < n implies self.pose@[u] == goal[u] by {
                        assert(Seq::new(n as nat, |i: int| true)[u]);
                        assert(plan.order@.contains(u as usize));
                        let j = choose|j: int| 0 <= j < plan.order@.len() && plan.order@[j] == u as usize;
                        assert(self.pose@[plan.order@[j] as int] == goal[plan.order@[j] as int]);
                    }
                    assert(self.pose@ =~= goal);
                }
                assert(agrees(plan, self.pose@, self.pose@, index as int));
            }
            let ghost pose0 = self.pose@;
            let ghost e0 = self.emitted@;
            let fin = self.finish(plan, problem);
            proof {
                assert forall|t: int| e0.len() <= t < self.emitted@.len() implies agrees(
                    plan,
                    pose0,
                    #[trigger] self.emitted@[t].vertices@,
                    index as int,
                ) by {
                    assert(self.emitted@[t].vertices@ == pose0);
                }
                if let Some(d) = fin {
                    assert(problem.valid(pose0) && agrees(plan, pose0, pose0, index as int) && dislikes_of(problem.hole@, pose0)
                        == d);
                }
            }
            return fin;
        }
        let v = plan.order[index];
        proof {
            lemma_block(v as int, n as int, plan.cells as int, 0);
            assert(plan.position@[v as int] == index);
        }
        let ghost h = problem.bbox_max.y - problem.bbox_min.y + 1;
        let total = self.can_place.len();
        let base = v * plan.cells;
        let target = self.consumed[v] + 1;
        let ghost start = *self;
        proof {
            lemma_prefix_refl(self.scores@);
        }
        let mut best_result: Option<u64> = None;
        let mut k: usize = 0;
        while k < plan.cells
            invariant
                plan.ok(problem),
                self.ok(plan, problem),
                self.same_frame(&start),
                start.same_frame(old(self)),
                start.extends(old(self)),
                old(self).scores@.len() <= start.scores@.len(),
                start.within_level(index as int),
                self.extends(&start),
                start.scores@.len() <= self.scores@.len(),
                n == problem.figure.vertices@.len(),
                index < n,
                v < n,
                base == v * plan.cells,
                base + plan.cells <= self.can_place@.len(),
                target == self.consumed@[v as int] + 1,
                best_result matches Some(d) ==> self.best matches Some(b) && b <= d,
                start.grids_match(plan, problem, index as int),
                start.ok(plan, problem),
                start.pose@ == old(self).pose@,
                start.deadline_ms == old(self).deadline_ms,
                start.terminate == old(self).terminate,
                self.deadline_ms == start.deadline_ms,
                plan.position@[v as int] == index,
                v == plan.order@[index as int],
                h == problem.bbox_max.y - problem.bbox_min.y + 1,
                k <= plan.cells,
                best_result matches Some(d) ==> completes(plan, problem, start.pose@, index as int, d as int),
                !old(self).terminate,
                records_agree(plan, old(self).emitted@, self.emitted@, old(self).pose@, index as int),
                best_result matches Some(d) ==> d > 0,
                start.coverage_match(plan, problem, index as int),
                start.unclocked() ==> !self.terminate,
                start.unclocked() && problem.hole@.no_duplicates() ==> forall|goal: Seq<Point>|
                    #[trigger] problem.valid(goal) && agrees(plan, start.pose@, goal, index as int) && dislikes_of(
                        problem.hole@,
                        goal,
                    ) == 0 ==> !(0 <= cell_index(problem.bbox_min, h, goal[v as int]) < k),
                start.unclocked() ==> forall|goal: Seq<Point>|
                    #[trigger] problem.valid(goal) && agrees(plan, start.pose@, goal, index as int) && never_pruned(
                        plan,
                        problem,
                        goal,
                    ) && 0 <= cell_index(problem.bbox_min, h, goal[v as int]) < k ==> (best_result matches Some(d) && d
                        <= dislikes_of(problem.hole@, goal)),
            decreases plan.cells - k,
        {
            proof {
                lemma_block(v as int, n as int, plan.cells as int, k as int);
            }
            let ghost prev_best = best_result;
            let ghost mut got: Option<u64> = None;
            let len = self.can_place.len();
            assert(base + k < len);
            let ghost before = *self;
            proof {
                assert forall|goal: Seq<Point>|
                    #[trigger] problem.valid(goal) && agrees(plan, start.pose@, goal, index as int) && cell_index(
                        problem.bbox_min,
                        h,
                        goal[v as int],
                    ) == k implies at(self.can_place@, base as int, k as int) == target by {
                    lemma_candidate(plan, problem, &start, goal, index as int, v as int);
                }
            }
            if self.can_place[base + k] == target {
                let ghost mid = *self;
                let r = self.try_candidate(plan, problem, index, k);
                proof {
                    got = r;
                    lemma_records_trans(plan, old(self).emitted@, mid.emitted@, self.emitted@, old(self).pose@, index as int);
                    lemma_prefix_trans(start.scores@, mid.scores@, self.scores@);
                    lemma_prefix_trans(old(self).scores@, start.scores@, self.scores@);
                    lemma_best_falls(problem, &mid, self);
                }
                match r {
                    Some(d) => {
                        let better = match best_result {
                            Some(b) => d < b,
                            None => true,
                        };
                        if better {
                            best_result = Some(d);
                            if d == 0 {
                                proof {
                                    assert forall|goal: Seq<Point>| #[trigger] problem.valid(goal) implies 0
                                        <= dislikes_of(problem.hole@, goal) by {
                                        crate::problem::lemma_dislikes_nonneg(problem.hole@, goal);
                                    }
                                }
                                return best_result;
                            }
                        }
                    },
                    None => {},
                }
                if self.terminate {
                    return best_result;
                }
            }
            proof {
                if start.unclocked() && problem.hole@.no_duplicates() {
                    assert forall|goal: Seq<Point>|
                        #[trigger] problem.valid(goal) && agrees(plan, start.pose@, goal, index as int) && dislikes_of(
                            problem.hole@,
                            goal,
                        ) == 0 implies !(0 <= cell_index(problem.bbox_min, h, goal[v as int]) < k + 1) by {
                        lemma_candidate(plan, problem, &start, goal, index as int, v as int);
                        if cell_index(problem.bbox_min, h, goal[v as int]) == k {
                            assert(got == Some(0u64));
                        }
                    }
                }
                assert(prev_best matches Some(pd) ==> best_result matches Some(bd) && bd <= pd);
                assert(got matches Some(gd) ==> best_result matches Some(bd) && bd <= gd);
                if start.unclocked() {
                    assert forall|goal: Seq<Point>|
                        #[trigger] problem.valid(goal) && agrees(plan, start.pose@, goal, index as int) && never_pruned(
                            plan,
                            problem,
                            goal,
                        ) && 0 <= cell_index(problem.bbox_min, h, goal[v as int]) < k + 1 implies (best_result matches Some(d) && d
                            <= dislikes_of(problem.hole@, goal)) by {
                        if cell_index(problem.bbox_min, h, goal[v as int]) == k {
                            lemma_candidate(plan, problem, &start, goal, index as int, v as int);
                        }
                    }
                }
            }
            k = k + 1;
        }
        proof {
            if start.unclocked() {
                assert forall|goal: Seq<Point>|
                    #[trigger] problem.valid(goal) && agrees(plan, old(self).pose@, goal, index as int) && never_pruned(
                        plan,
                        problem,
                        goal,
                    ) implies (best_result matches Some(d) && d <= dislikes_of(problem.hole@, goal)) by {
                    lemma_candidate(plan, problem, &start, goal, index as int, v as int);
                }
            }
            if start.unclocked() && problem.hole@.no_duplicates() && completes(plan, problem, old(self).pose@, index as int, 0) {
                let goal = choose|goal: Seq<Point>|
                    #[trigger] problem.valid(goal) && agrees(plan, old(self).pose@, goal, index as int) && dislikes_of(
                        problem.hole@,
                        goal,
                    ) == 0;
                lemma_candidate(plan, problem, &start, goal, index as int, v as int);
            }
        }
        best_result
    }

    /// Places vertex `order[index]` on cell `k`, propagates its forward
    /// edges, searches on if no neighbour is left without a cell, and then
    /// undoes all of it.
    pub fn try_candidate(&mut self, plan: &SearchPlan, problem: &Problem, index: usize, k: usize) -> (r: Option<u64>)
        requires
            plan.ok(problem),
            old(self).ok(plan, problem),
            old(self).within_level(index as int),
            old(self).grids_match(plan, problem, index as int),
            old(self).coverage_match(plan, problem, index as int),
            index < problem.figure.vertices@.len(),
            k < plan.cells,
        ensures
            final(self).ok(plan, problem),
            final(self).same_frame(old(self)),
            final(self).extends(old(self)),
            final(self).deadline_ms == old(self).deadline_ms,
            r matches Some(d) ==> final(self).best matches Some(b) && b <= d,
            r matches Some(d) ==> completes(plan, problem, old(self).pose@, index as int, d as int),
            records_agree(plan, old(self).emitted@, final(self).emitted@, old(self).pose@, index as int),
            old(self).unclocked() ==> forall|goal: Seq<Point>|
                #[trigger] problem.valid(goal) && agrees(plan, old(self).pose@, goal, index as int) && never_pruned(
                    plan,
                    problem,
                    goal,
                ) && cell_index(
                    problem.bbox_min,
                    problem.bbox_max.y - problem.bbox_min.y + 1,
                    goal[plan.order@[index as int] as int],
                ) == k ==> (r matches Some(d) && d <= dislikes_of(problem.hole@, goal)),
            old(self).unclocked() ==> !final(self).terminate,
            old(self).unclocked() && problem.hole@.no_duplicates() ==> forall|goal: Seq<Point>|
                #[trigger] problem.valid(goal) && agrees(plan, old(self).pose@, goal, index as int) && dislikes_of(
                    problem.hole@,
                    goal,
                ) == 0 && cell_index(
                    problem.bbox_min,
                    problem.bbox_max.y - problem.bbox_min.y + 1,
                    goal[plan.order@[index as int] as int],
                ) == k ==> r == Some(0u64),
        decreases problem.figure.vertices@.len() - index, 0int,
    {
        proof {
            lemma_prefix_refl(self.scores@);
        }
        let n = problem.figure.vertices.len();
        let total = self.can_place.len();
        let v = plan.order[index];
        let mn = problem.bbox_min;
        let mx = problem.bbox_max;
        let hh = (mx.y - mn.y + 1) as usize;
        let ghost h = mx.y - mn.y + 1;
        proof {
            lemma_grid_point_in_box(mn, mx, k as int);
            assert(hh == h);
        }
        let qx = (k / hh) as i64;
        let qy = (k % hh) as i64;
        let p = Point { x: mn.x + qx, y: mn.y + qy };
        proof {
            assert(p == grid_point(mn, h, k as int));
        }
        let ghost start = *self;
        let ghost witness: Option<Seq<Point>> = if start.unclocked() && exists|g: Seq<Point>|
            #[trigger] problem.valid(g) && agrees(plan, start.pose@, g, index as int) && cell_index(mn, h, g[v as int]) == k
                && never_pruned(plan, problem, g) {
            Some(
                choose|g: Seq<Point>|
                    #[trigger] problem.valid(g) && agrees(plan, start.pose@, g, index as int) && cell_index(mn, h, g[v as int])
                        == k && never_pruned(plan, problem, g),
            )
        } else if start.unclocked() && problem.hole@.no_duplicates() && exists|g: Seq<Point>|
            #[trigger] problem.valid(g) && agrees(plan, start.pose@, g, index as int) && cell_index(mn, h, g[v as int]) == k
                && dislikes_of(problem.hole@, g) == 0 {
            Some(
                choose|g: Seq<Point>|
                    #[trigger] problem.valid(g) && agrees(plan, start.pose@, g, index as int) && cell_index(mn, h, g[v as int])
                        == k && dislikes_of(problem.hole@, g) == 0,
            )
        } else {
            None
        };
        proof {
            assert(plan.position@[v as int] == index);
            if let Some(g) = witness {
                crate::problem::lemma_valid_pose_inside(problem, g);
                assert(problem.grid_holds(g[v as int]));
                crate::problem::lemma_cell_index(mn, mx, g[v as int]);
                assert(g[v as int] == p);
            }
        }
        let old_pos = self.pose[v];
        self.pose.set(v, p);
        proof {
            assert(agrees(plan, self.pose@, start.pose@, index as int)) by {
                assert forall|j: int| 0 <= j < index implies self.pose@[#[trigger] plan.order@[j] as int]
                    == start.pose@[plan.order@[j] as int] by {
                    assert(plan.order@[j] != plan.order@[index as int]);
                }
            }
        }
        proof {
            assert forall|i: int| 0 <= i < self.pose@.len() implies #[trigger] in_range(self.pose@[i]) by {
                if i != v {
                    assert(in_range(start.pose@[i]));
                }
            }
        }
        self.cover(problem, p, true);
        let mut feasible = true;
        proof {
            assert forall|hv: int| 0 <= hv < problem.hole@.len() implies #[trigger] self.covered@[hv] == on_point(
                plan,
                self.pose@,
                index + 1,
                problem.hole@[hv],
            ) by {
                lemma_on_point_frame(plan, self.pose@, start.pose@, index as int, problem.hole@[hv]);
            }
        }
        match plan.slack {
            Some(slack) => {
                let unc = self.uncovered();
                let remaining = n - index - 1;
                proof {
                    if let Some(g) = witness {
                        assert forall|j: int| 0 <= j < index + 1 implies self.pose@[#[trigger] plan.order@[j] as int]
                            == g[plan.order@[j] as int] by {
                            if j < index {
                                assert(plan.order@[j] != plan.order@[index as int]);
                            }
                        }
                        if dislikes_of(problem.hole@, g) == 0 && problem.hole@.no_duplicates() {
                            lemma_perfect_cover(plan, problem, self.pose@, g, index + 1, self.covered@);
                        } else {
                            assert(never_pruned(plan, problem, g));
                            lemma_uncovered_match(plan, problem.hole@, self.covered@, self.pose@, g, index + 1);
                            assert(uncovered_by(plan, problem.hole@, g, index + 1) <= n - (index + 1) + slack);
                        }
                    }
                }
                if unc > remaining && unc - remaining > slack {
                    feasible = false;
                }
            },
            None => {},
        }
        let fwd = &plan.forward[v];
        let cells = plan.cells;
        assert(total == n * cells);
        let mut done: usize = 0;
        let ghost placed = *self;
        let ghost mut snaps: Seq<(Seq<usize>, Seq<usize>)> = seq![(self.can_place@, self.consumed@)];
        while feasible && done < fwd.len()
            invariant
                plan.ok(problem),
                n == problem.figure.vertices@.len(),
                index < n,
                v < n,
                *fwd == plan.forward@[v as int],
                done <= fwd@.len(),
                cells == plan.cells,
                box_ok(mn, mx),
                mn == problem.bbox_min,
                mx == problem.bbox_max,
                h == mx.y - mn.y + 1,
                in_box(mn, mx, p),
                self.can_place@.len() == n * cells,
                total == n * cells,
                self.consumed@.len() == n,
                snaps.len() == done + 1,
                self.same_rest(&placed),
                placed.pose@ == start.pose@.update(v as int, p),
                plan.position@[v as int] == index,
                v == plan.order@[index as int],
                start.grids_match(plan, problem, index as int),
                witness matches Some(g) ==> feasible && g[v as int] == p && problem.valid(g) && agrees(
                    plan,
                    start.pose@,
                    g,
                    index as int,
                ),
                forall|w: int, kk: int|
                    0 <= w < n && plan.position@[w] > index && 0 <= kk < cells ==> #[trigger] at(
                        self.can_place@,
                        w * cells,
                        kk,
                    ) == (if problem.inside@[kk] {
                        1int
                    } else {
                        0int
                    }) + gain(plan, start.pose@, index as int, w, grid_point(mn, h, kk)) + list_gain(
                        fwd@,
                        done as int,
                        plan.bounds@,
                        w,
                        p,
                        grid_point(mn, h, kk),
                    ),
                forall|w: int|
                    0 <= w < n && plan.position@[w] > index ==> #[trigger] self.consumed@[w] == count(plan, index as int, w)
                        + list_count(fwd@, done as int, w),
                snaps[0] == (start.can_place@, start.consumed@),
                snaps[done as int] == (self.can_place@, self.consumed@),
                forall|j: int| 0 <= j <= done ==> #[trigger] grid_bound(snaps[j].0, snaps[j].1, n as int, cells as int),
                forall|j: int| 0 <= j <= done ==> (#[trigger] snaps[j]).0.len() == n * cells && snaps[j].1.len() == n,
                forall|j: int|
                    0 <= j < done ==> {
                        let (e, w) = fwd@[j];
                        &&& shifted(
                            (#[trigger] snaps[j]).0,
                            snaps[j + 1].0,
                            w * cells,
                            cells as int,
                            mn,
                            h,
                            p,
                            plan.bounds@[e as int].0 as int,
                            plan.bounds@[e as int].1 as int,
                            true,
                        )
                        &&& snaps[j + 1].1[w as int] == snaps[j].1[w as int] + 1
                        &&& snaps[j + 1].1 == snaps[j].1.update(w as int, snaps[j + 1].1[w as int])
                    },
                forall|w: int| 0 <= w < n ==> #[trigger] self.consumed@[w] <= index * MAX_FORWARD_EDGES + done,
            decreases fwd@.len() - done,
        {
            let (e, w) = fwd[done];
            let (lo, hi) = plan.bounds[e];
            proof {
                lemma_block(w as int, n as int, cells as int, 0);
                assert(0 <= plan.bounds@[e as int].0);
            }
            let base = w * cells;
            let c = self.consumed[w];
            let ghost g0 = self.can_place@;
            let ghost c0 = self.consumed@;
            let ghost dn = done as int;
            proof {
                assert(fwd@[dn] == (e, w));
                assert(plan.position@[w as int] > index) by {
                    assert(plan.forward@[v as int]@[dn] == (e, w));
                }
                assert(grid_bound(snaps[done as int].0, snaps[done as int].1, n as int, cells as int));
                assert(grid_bound(g0, c0, n as int, cells as int));
                assert(c <= index * MAX_FORWARD_EDGES + done);
                assert forall|kk: int| 0 <= kk < box_cells(mn, mx) && crate::propagate::reach(p, grid_point(mn, h, kk), lo as int, hi as int)
                    implies #[trigger] at(self.can_place@, base as int, kk) < usize::MAX by {
                    assert(at(snaps[done as int].0, w * cells, kk) <= 1 + snaps[done as int].1[w as int]);
                }
            }
            let ok = shift(&mut self.can_place, base, mn, mx, &plan.table, p, lo, hi, true, c + 2);
            self.consumed.set(w, c + 1);
            done = done + 1;
            proof {
                snaps = snaps.push((self.can_place@, self.consumed@));
                assert forall|u: int, kk: int| 0 <= u < n && 0 <= kk < cells implies #[trigger] at(self.can_place@, u * cells, kk)
                    <= 1 + self.consumed@[u] by {
                    lemma_block(u, n as int, cells as int, kk);
                    assert(at(g0, u * cells, kk) <= 1 + c0[u]);
                    if u == w {
                        assert(at(self.can_place@, base as int, kk) == at(g0, base as int, kk) + crate::propagate::step(
                            crate::propagate::reach(p, grid_point(mn, h, kk), lo as int, hi as int),
                            true,
                        ));
                    } else {
                        lemma_block_disjoint(w as int, u, cells as int, kk);
                        assert(at(self.can_place@, u * cells, kk) == at(g0, u * cells, kk));
                    }
                }
                assert(grid_bound(snaps[done as int].0, snaps[done as int].1, n as int, cells as int));
                assert forall|j: int| 0 <= j < done implies {
                    let (e, w) = fwd@[j];
                    &&& shifted(
                        (#[trigger] snaps[j]).0,
                        snaps[j + 1].0,
                        w * cells,
                        cells as int,
                        mn,
                        h,
                        p,
                        plan.bounds@[e as int].0 as int,
                        plan.bounds@[e as int].1 as int,
                        true,
                    )
                    &&& snaps[j + 1].1[w as int] == snaps[j].1[w as int] + 1
                        &&& snaps[j + 1].1 == snaps[j].1.update(w as int, snaps[j + 1].1[w as int])
                } by {}
            }
            proof {
                assert forall|u: int, kk: int|
                    0 <= u < n && plan.position@[u] > index && 0 <= kk < cells implies #[trigger] at(
                        self.can_place@,
                        u * cells,
                        kk,
                    ) == (if problem.inside@[kk] {
                        1int
                    } else {
                        0int
                    }) + gain(plan, start.pose@, index as int, u, grid_point(mn, h, kk)) + list_gain(
                        fwd@,
                        done as int,
                        plan.bounds@,
                        u,
                        p,
                        grid_point(mn, h, kk),
                    ) by {
                    lemma_block(u, n as int, cells as int, kk);
                    assert(at(g0, u * cells, kk) == (if problem.inside@[kk] {
                        1int
                    } else {
                        0int
                    }) + gain(plan, start.pose@, index as int, u, grid_point(mn, h, kk)) + list_gain(
                        fwd@,
                        dn,
                        plan.bounds@,
                        u,
                        p,
                        grid_point(mn, h, kk),
                    ));
                    if u == w {
                        assert(at(self.can_place@, base as int, kk) == at(g0, base as int, kk) + crate::propagate::step(
                            crate::propagate::reach(p, grid_point(mn, h, kk), lo as int, hi as int),
                            true,
                        ));
                    } else {
                        lemma_block_disjoint(w as int, u, cells as int, kk);
                        assert(at(self.can_place@, u * cells, kk) == at(g0, u * cells, kk));
                    }
                }
                assert forall|u: int| 0 <= u < n && plan.position@[u] > index implies #[trigger] self.consumed@[u] == count(
                    plan,
                    index as int,
                    u,
                ) + list_count(fwd@, done as int, u) by {
                    assert(c0[u] == count(plan, index as int, u) + list_count(fwd@, dn, u));
                }
                if let Some(g) = witness {
                    crate::problem::lemma_valid_pose_inside(problem, g);
                    assert(problem.grid_holds(g[w as int]));
                    crate::problem::lemma_cell_index(mn, mx, g[w as int]);
                    let kw = cell_index(mn, h, g[w as int]);
                    lemma_gain_satisfied(plan, problem, start.pose@, g, index as int, w as int);
                    lemma_list_satisfied(plan, problem, g, v as int, w as int, dn);
                    lemma_list_satisfied(plan, problem, g, v as int, w as int, dn + 1);
                    assert(at(g0, base as int, kw) == 1 + c);
                    assert(crate::propagate::reach(p, g[w as int], lo as int, hi as int));
                    assert(at(self.can_place@, base as int, kw) == c + 2);
                    assert(ok);
                }
            }
            if !ok {
                feasible = false;
            }
        }
        let mut result: Option<u64> = None;
        let ghost pre_rec = *self;
        proof {
            lemma_records_refl(plan, self.emitted@, start.pose@, index as int);
        }
        if feasible {
            proof {
                assert forall|w: int| 0 <= w < self.consumed@.len() implies #[trigger] self.consumed@[w] <= (index + 1)
                    * MAX_FORWARD_EDGES by {
                    assert(index * MAX_FORWARD_EDGES + done <= (index + 1) * MAX_FORWARD_EDGES);
                }
                assert(done == fwd@.len());
                assert(self.pose@[v as int] == p);
                assert forall|u: int, kk: int|
                    0 <= u < n && plan.position@[u] >= index + 1 && 0 <= kk < plan.cells implies #[trigger] at(
                        self.can_place@,
                        u * plan.cells,
                        kk,
                    ) == (if problem.inside@[kk] {
                        1int
                    } else {
                        0int
                    }) + gain(plan, self.pose@, index + 1, u, grid_point(problem.bbox_min, h, kk)) by {
                    lemma_gain_frame(plan, self.pose@, start.pose@, index as int, u, grid_point(mn, h, kk));
                }
                assert forall|u: int| 0 <= u < n && plan.position@[u] >= index + 1 implies #[trigger] self.consumed@[u]
                    == count(plan, index + 1, u) by {}
                assert(self.grids_match(plan, problem, index + 1));
            }
            result = self.place_vertices(plan, problem, index + 1);
            proof {
                lemma_records_weaken(plan, problem, pre_rec.emitted@, self.emitted@, pre_rec.pose@, start.pose@, index as int);
                if let Some(d) = result {
                    let g = choose|g: Seq<Point>|
                        #[trigger] problem.valid(g) && agrees(plan, pre_rec.pose@, g, index + 1) && dislikes_of(problem.hole@, g)
                            == d;
                    assert forall|j: int| 0 <= j < index implies start.pose@[#[trigger] plan.order@[j] as int]
                        == g[plan.order@[j] as int] by {
                        assert(plan.order@[j] != plan.order@[index as int]);
                        assert(pre_rec.pose@[plan.order@[j] as int] == g[plan.order@[j] as int]);
                    }
                    assert(problem.valid(g) && agrees(plan, start.pose@, g, index as int) && dislikes_of(problem.hole@, g) == d);
                }
            }
        }
        proof {
            if start.unclocked() {
                assert forall|goal: Seq<Point>|
                    #[trigger] problem.valid(goal) && agrees(plan, start.pose@, goal, index as int) && never_pruned(
                        plan,
                        problem,
                        goal,
                    ) && cell_index(mn, h, goal[v as int]) == k implies (result matches Some(d) && d <= dislikes_of(
                        problem.hole@,
                        goal,
                    )) by {
                    assert(witness is Some);
                    crate::problem::lemma_valid_pose_inside(problem, goal);
                    assert(problem.grid_holds(goal[v as int]));
                    crate::problem::lemma_cell_index(mn, mx, goal[v as int]);
                    assert(goal[v as int] == p);
                    assert forall|j: int| 0 <= j < index + 1 implies pre_rec.pose@[#[trigger] plan.order@[j] as int]
                        == goal[plan.order@[j] as int] by {
                        if j < index {
                            assert(plan.order@[j] != plan.order@[index as int]);
                        }
                    }
                    assert(agrees(plan, pre_rec.pose@, goal, index + 1));
                }
            }
            if start.unclocked() && problem.hole@.no_duplicates() {
                assert forall|goal: Seq<Point>|
                    #[trigger] problem.valid(goal) && agrees(plan, start.pose@, goal, index as int) && dislikes_of(
                        problem.hole@,
                        goal,
                    ) == 0 && cell_index(mn, h, goal[v as int]) == k implies result == Some(0u64) by {
                    lemma_perfect_never_pruned(plan, problem, goal);
                }
            }
        }
        let ghost back = *self;
        while done > 0
            invariant
                total == n * cells,
                self.can_place@.len() == n * cells,
                self.consumed@.len() == n,
                self.same_rest(&back),
                plan.ok(problem),
                n == problem.figure.vertices@.len(),
                v < n,
                *fwd == plan.forward@[v as int],
                done <= fwd@.len(),
                cells == plan.cells,
                box_ok(mn, mx),
                mn == problem.bbox_min,
                mx == problem.bbox_max,
                h == mx.y - mn.y + 1,
                in_box(mn, mx, p),
                snaps.len() >= done + 1,
                snaps[0] == (start.can_place@, start.consumed@),
                snaps[done as int] == (self.can_place@, self.consumed@),
                forall|j: int| 0 <= j < snaps.len() ==> #[trigger] grid_bound(snaps[j].0, snaps[j].1, n as int, cells as int),
                forall|j: int| 0 <= j < snaps.len() ==> (#[trigger] snaps[j]).0.len() == n * cells && snaps[j].1.len() == n,
                forall|j: int|
                    0 <= j < snaps.len() - 1 && j < fwd@.len() ==> {
                        let (e, w) = fwd@[j];
                        &&& shifted(
                            (#[trigger] snaps[j]).0,
                            snaps[j + 1].0,
                            w * cells,
                            cells as int,
                            mn,
                            h,
                            p,
                            plan.bounds@[e as int].0 as int,
                            plan.bounds@[e as int].1 as int,
                            true,
                        )
                        &&& snaps[j + 1].1[w as int] == snaps[j].1[w as int] + 1
                        &&& snaps[j + 1].1 == snaps[j].1.update(w as int, snaps[j + 1].1[w as int])
                    },
            decreases done,
        {
            done = done - 1;
            let (e, w) = fwd[done];
            let (lo, hi) = plan.bounds[e];
            proof {
                lemma_block(w as int, n as int, cells as int, 0);
            }
            let base = w * cells;
            let c = self.consumed[w];
            let ghost g1 = self.can_place@;
            proof {
                assert(snaps[done as int + 1] == snaps[done as int + 1]);
                assert(snaps[done + 1].1[w as int] == snaps[done as int].1[w as int] + 1);
                assert(snaps[done + 1].1 == snaps[done as int].1.update(w as int, snaps[done + 1].1[w as int]));
                assert forall|kk: int| 0 <= kk < box_cells(mn, mx) && crate::propagate::reach(p, grid_point(mn, h, kk), lo as int, hi as int)
                    implies #[trigger] at(self.can_place@, base as int, kk) >= 1 by {
                    assert(shifted(snaps[done as int].0, snaps[done + 1].0, w * cells, cells as int, mn, h, p, lo as int, hi as int, true));
                }
            }
            self.consumed.set(w, c - 1);
            shift(&mut self.can_place, base, mn, mx, &plan.table, p, lo, hi, false, 0);
            proof {
                lemma_shift_round_trip(
                    snaps[done as int].0,
                    g1,
                    self.can_place@,
                    base as int,
                    cells as int,
                    mn,
                    h,
                    p,
                    lo as int,
                    hi as int,
                );
                assert(self.consumed@ =~= snaps[done as int].1);
            }
        }
        proof {
            assert(self.covered@ == placed.covered@);
            assert forall|i: int| 0 <= i < problem.hole@.len() && problem.hole@[i] == p implies #[trigger] self.covered@[i] >= 1 by {
                assert(placed.covered@[i] == start.covered@[i] + 1);
            }
        }
        self.cover(problem, p, false);
        self.pose.set(v, old_pos);
        proof {
            assert(self.covered@ =~= start.covered@);
            assert(self.pose@ =~= start.pose@);
        }
        result
    }

    /// Moves the coverage counters of the hole vertices at `p` by one.
    fn cover(&mut self, problem: &Problem, p: Point, up: bool)
        requires
            old(self).covered@.len() == problem.hole@.len(),
            forall|h: int|
                0 <= h < problem.hole@.len() && problem.hole@[h] == p ==> if up {
                    #[trigger] old(self).covered@[h] < usize::MAX
                } else {
                    old(self).covered@[h] >= 1
                },
        ensures
            final(self).covered@.len() == old(self).covered@.len(),
            forall|h: int|
                0 <= h < problem.hole@.len() ==> #[trigger] final(self).covered@[h] == old(self).covered@[h] + if problem.hole@[h]
                    != p {
                    0int
                } else if up {
                    1int
                } else {
                    -1int
                },
            final(self).can_place == old(self).can_place,
            final(self).consumed == old(self).consumed,
            final(self).pose == old(self).pose,
            final(self).best == old(self).best,
            final(self).emitted == old(self).emitted,
            final(self).scores == old(self).scores,
            final(self).visits == old(self).visits,
            final(self).terminate == old(self).terminate,
            final(self).deadline_ms == old(self).deadline_ms,
    {
        let ghost c0 = self.covered@;
        let mut h: usize = 0;
        while h < problem.hole.len()
            invariant
                self.covered@.len() == problem.hole@.len(),
                c0.len() == problem.hole@.len(),
                h <= problem.hole@.len(),
                forall|i: int|
                    0 <= i < problem.hole@.len() && problem.hole@[i] == p ==> if up {
                        #[trigger] c0[i] < usize::MAX
                    } else {
                        c0[i] >= 1
                    },
                forall|i: int| h <= i < problem.hole@.len() ==> #[trigger] self.covered@[i] == c0[i],
                forall|i: int|
                    0 <= i < h ==> #[trigger] self.covered@[i] == c0[i] + if problem.hole@[i] != p {
                        0int
                    } else if up {
                        1int
                    } else {
                        -1int
                    },
                self.can_place == old(self).can_place,
                self.consumed == old(self).consumed,
                self.pose == old(self).pose,
                self.best == old(self).best,
                self.emitted == old(self).emitted,
                self.scores == old(self).scores,
                self.visits == old(self).visits,
                self.terminate == old(self).terminate,
                self.deadline_ms == old(self).deadline_ms,
            decreases problem.hole@.len() - h,
        {
            if problem.hole[h] == p {
                let c = self.covered[h];
                if up {
                    self.covered.set(h, c + 1);
                } else {
                    self.covered.set(h, c - 1);
                }
            }
            h = h + 1;
        }
    }

    /// Number of hole vertices on which no placed vertex stands.
    fn uncovered(&self) -> (r: usize)
        ensures
            r == zeros(self.covered@),
    {
        let mut count: usize = 0;
        let mut h: usize = 0;
        while h < self.covered.len()
            invariant
                h <= self.covered@.len(),
                count == zeros(self.covered@.subrange(0, h as int)),
                count <= h,
            decreases self.covered@.len() - h,
        {
            proof {
                assert(self.covered@.subrange(0, h + 1 as int).drop_last() == self.covered@.subrange(0, h as int));
            }
            if self.covered[h] == 0 {
                count = count + 1;
            }
            h = h + 1;
        }
        assert(self.covered@.subrange(0, self.covered@.len() as int) == self.covered@);
        count
    }
}

/// The improving poses that a search found, in order, with their dislikes.
pub struct SearchOutcome {
    pub poses: Vec<Pose>,
    pub scores: Vec<u64>,
}

proof fn lemma_lists_ok(figure: &Figure)
    requires
        figure.wf(),
    ensures
        lists_ok(figure.vertex_edges@, figure.vertices@.len() as int),
{
    let n = figure.vertices@.len() as int;
    assert forall|v: int, j: int| 0 <= v < n && 0 <= j < figure.vertex_edges@[v]@.len() implies (
    #[trigger] figure.vertex_edges@[v]@[j]).1 < n by {
        assert(incidence_ok(figure.edges@, v, figure.vertex_edges@[v]@[j]));
        assert(edge_ok(figure.edges@[figure.vertex_edges@[v]@[j].0 as int], n));
    }
}

/// A sequence that lists each of `0..n` exactly once has length `n`.
pub proof fn lemma_permutation_len(s: Seq<usize>, n: nat)
    requires
        n <= usize::MAX,
        s.no_duplicates(),
        forall|i: int| 0 <= i < s.len() ==> (#[trigger] s[i]) < n,
        forall|u: usize| u < n ==> #[trigger] s.contains(u),
    ensures
        s.len() == n,
    decreases n,
{
    if n == 0 {
        if s.len() > 0 {
            assert(s[0] < 0);
        }
    } else {
        let top = (n - 1) as usize;
        assert(s.contains(top));
        let i = choose|i: int| 0 <= i < s.len() && s[i] == top;
        let t = s.remove(i);
        assert forall|j: int| 0 <= j < t.len() implies (#[trigger] t[j]) < n - 1 by {
            if j < i {
                assert(t[j] == s[j]);
            } else {
                assert(t[j] == s[j + 1]);
            }
        }
        assert forall|u: usize| u < n - 1 implies #[trigger] t.contains(u) by {
            assert(s.contains(u));
            let k = choose|k: int| 0 <= k < s.len() && s[k] == u;
            if k < i {
                assert(t[k] == s[k]);
            } else {
                assert(s[k] != s[i]);
                assert(t[k - 1] == s[k]);
            }
        }
        assert(t.no_duplicates()) by {
            assert forall|a: int, b: int| 0 <= a < t.len() && 0 <= b < t.len() && a != b implies t[a] != t[b] by {
                let sa = if a < i { a } else { a + 1 };
                let sb = if b < i { b } else { b + 1 };
                assert(t[a] == s[sa]);
                assert(t[b] == s[sb]);
            }
        }
        lemma_permutation_len(t, (n - 1) as nat);
    }
}

/// A depth-first order of all vertices: from vertex 0, then from each vertex
/// not reached yet, in increasing order.
pub fn placement_order(figure: &Figure) -> (r: Vec<usize>)
    requires
        figure.wf(),
    ensures
        order_matches(r@, Seq::new(figure.vertices@.len(), |i: int| true)),
        r@.len() == figure.vertices@.len(),
{
    let n = figure.vertices.len();
    proof {
        lemma_lists_ok(figure);
    }
    let mut order: Vec<usize> = Vec::new();
    let mut visited: Vec<bool> = Vec::new();
    let mut parents: Vec<(usize, usize)> = Vec::new();
    let mut tree: Vec<Vec<(usize, usize)>> = Vec::new();
    let mut i: usize = 0;
    while i < n
        invariant
            i <= n,
            visited@.len() == i,
            parents@.len() == i,
            tree@.len() == i,
            forall|u: int| 0 <= u < i ==> (#[trigger] tree@[u])@.len() == 0,
            forall|u: int| 0 <= u < i ==> !(#[trigger] visited@[u]),
        decreases n - i,
    {
        visited.push(false);
        parents.push((0, 0));
        tree.push(Vec::new());
        i = i + 1;
    }
    assert(order_matches(order@, visited@));
    assert(tree_ok(figure.vertex_edges@, tree@));
    let mut s: usize = 0;
    while s < n
        invariant
            s <= n,
            n == figure.vertices@.len(),
            lists_ok(figure.vertex_edges@, n as int),
            visited@.len() == n,
            parents@.len() == n,
            tree_ok(figure.vertex_edges@, tree@),
            order_matches(order@, visited@),
            forall|u: int| 0 <= u < s ==> #[trigger] visited@[u],
        decreases n - s,
    {
        if !visited[s] {
            topsort(s, None, None, &mut order, &mut visited, &mut parents, &figure.vertex_edges, &mut tree);
        }
        s = s + 1;
    }
    assert(visited@ =~= Seq::new(n as nat, |i: int| true));
    proof {
        assert forall|u: usize| u < n implies #[trigger] order@.contains(u) by {
            assert(visited@[u as int]);
        }
        lemma_permutation_len(order@, n as nat);
    }
    order
}

/// `position` inverts the order, and the forward edges of each vertex are
/// exactly its edges to vertices placed after it.
pub open spec fn forward_partition(plan: &SearchPlan, figure: &Figure) -> bool {
    let n = figure.vertices@.len();
    &&& plan.position@.len() == n
    &&& forall|i: int| 0 <= i < n ==> plan.position@[#[trigger] plan.order@[i] as int] == i
    &&& forall|v: int, j: int|
        0 <= v < n && 0 <= j < plan.forward@[v]@.len() ==> figure.vertex_edges@[v]@.contains(
            #[trigger] plan.forward@[v]@[j],
        ) && plan.position@[plan.forward@[v]@[j].1 as int] > plan.position@[v]
    &&& forall|v: int, j: int|
        0 <= v < n && 0 <= j < figure.vertex_edges@[v]@.len() && plan.position@[(
        #[trigger] figure.vertex_edges@[v]@[j]).1 as int] > plan.position@[v] ==> plan.forward@[v]@.contains(
            figure.vertex_edges@[v]@[j],
        )
}

/// An edge's squared-length interval clipped to `[0, top]`.
pub open spec fn clip_bounds(lo: int, hi: int, top: int) -> (i64, i64) {
    ((if lo < 0 { 0 } else { lo }) as i64, (if hi > top { top } else { hi }) as i64)
}

/// Squared length of the diagonal of the box: the largest squared distance
/// between two of its lattice points, hole vertices among them.
pub open spec fn box_diagonal2(mn: Point, mx: Point) -> int {
    (mx.x - mn.x) * (mx.x - mn.x) + (mx.y - mn.y) * (mx.y - mn.y)
}

pub proof fn lemma_box_distance(mn: Point, mx: Point, p: Point, q: Point)
    requires
        in_box(mn, mx, p),
        in_box(mn, mx, q),
    ensures
        0 <= dist2(p, q) <= box_diagonal2(mn, mx),
{
    let a = p.x - q.x;
    let b = p.y - q.y;
    let w = mx.x - mn.x;
    let h = mx.y - mn.y;
    assert(a * a <= w * w) by (nonlinear_arith)
        requires -w <= a <= w;
    assert(b * b <= h * h) by (nonlinear_arith)
        requires -h <= b <= h;
    assert(a * a >= 0 && b * b >= 0) by (nonlinear_arith);
}

/// The search takes the problem on: a figure of one to `MAX_SEARCH_VERTICES`
/// vertices, none with more than `MAX_FORWARD_EDGES` edges, and an offset
/// table that this machine can index.
pub open spec fn search_applies(problem: &Problem) -> bool {
    let n = problem.figure.vertices@.len();
    &&& 1 <= n <= MAX_SEARCH_VERTICES
    &&& forall|v: int| 0 <= v < n ==> (#[trigger] problem.figure.vertex_edges@[v])@.len() <= MAX_FORWARD_EDGES
    &&& box_diagonal2(problem.bbox_min, problem.bbox_max) <= usize::MAX
}

/// Builds the plan and the initial working state, or declines: a figure with
/// no vertex, with more than `MAX_SEARCH_VERTICES`, or with a vertex of more
/// than `MAX_FORWARD_EDGES` forward edges, or a hole whose offset table could
/// not be indexed on this machine.
pub fn prepare(problem: &Problem, initial: &Pose, slack: Option<usize>) -> (r: Option<(SearchPlan, SearchRunner)>)
    requires
        problem.wf(),
        problem.pose_ok(initial.vertices@),
    ensures
        problem.figure.vertices@.len() > MAX_SEARCH_VERTICES ==> r.is_none(),
        search_applies(problem) ==> r is Some,
        r matches Some((plan, runner)) ==> {
            &&& plan.ok(problem)
            &&& plan.slack == slack
            &&& runner.grids_match(&plan, problem, 0)
            &&& runner.deadline_ms is None
            &&& !runner.terminate
            &&& runner.ok(&plan, problem)
            &&& runner.within_level(0)
            &&& runner.scores@.len() == 0
            &&& runner.pose@ == initial.vertices@
        },
{
    let n = problem.figure.vertices.len();
    let m = problem.figure.edges.len();
    if n == 0 || n > MAX_SEARCH_VERTICES {
        return None;
    }
    let started = clock_now();
    let order = placement_order(&problem.figure);
    let mut pos: Vec<usize> = Vec::new();
    let mut i: usize = 0;
    while i < n
        invariant
            i <= n,
            pos@.len() == i,
        decreases n - i,
    {
        pos.push(0);
        i = i + 1;
    }
    let mut i: usize = 0;
    while i < n
        invariant
            i <= n,
            pos@.len() == n,
            order@.len() == n,
            order_matches(order@, Seq::new(n as nat, |i: int| true)),
            forall|t: int| 0 <= t < i ==> pos@[#[trigger] order@[t] as int] == t,
        decreases n - i,
    {
        assert(order@[i as int] < n);
        let ghost before = pos@;
        pos.set(order[i], i);
        proof {
            assert forall|t: int| 0 <= t < i + 1 implies pos@[#[trigger] order@[t] as int] == t by {
                if t < i {
                    assert(order@[t] != order@[i as int]);
                    assert(pos@[order@[t] as int] == before[order@[t] as int]);
                }
            }
        }
        i = i + 1;
    }
    proof {
        lemma_lists_ok(&problem.figure);
    }
    let mut forward: Vec<Vec<(usize, usize)>> = Vec::new();
    let mut v: usize = 0;
    while v < n
        invariant
            v <= n,
            n == problem.figure.vertices@.len(),
            m == problem.figure.edges@.len(),
            problem.wf(),
            lists_ok(problem.figure.vertex_edges@, n as int),
            pos@.len() == n,
            forward@.len() == v,
            forall|u: int| 0 <= u < v ==> (#[trigger] forward@[u])@.len() <= MAX_FORWARD_EDGES,
            forall|u: int, j: int|
                0 <= u < v && 0 <= j < forward@[u]@.len() ==> problem.figure.vertex_edges@[u]@.contains(
                    #[trigger] forward@[u]@[j],
                ) && pos@[forward@[u]@[j].1 as int] > pos@[u],
            forall|u: int, j: int|
                0 <= u < v && 0 <= j < problem.figure.vertex_edges@[u]@.len() && pos@[(
                #[trigger] problem.figure.vertex_edges@[u]@[j]).1 as int] > pos@[u] ==> forward@[u]@.contains(
                    problem.figure.vertex_edges@[u]@[j],
                ),
            forall|u: int, j: int|
                0 <= u < v && 0 <= j < forward@[u]@.len() ==> (#[trigger] forward@[u]@[j]).0 < m && forward@[u]@[j].1 < n,
        decreases n - v,
    {
        let list = &problem.figure.vertex_edges[v];
        let mut out: Vec<(usize, usize)> = Vec::new();
        let mut j: usize = 0;
        while j < list.len()
            invariant
                v < n,
                n == problem.figure.vertices@.len(),
                m == problem.figure.edges@.len(),
                problem.wf(),
                *list == problem.figure.vertex_edges@[v as int],
                lists_ok(problem.figure.vertex_edges@, n as int),
                pos@.len() == n,
                j <= list@.len(),
                out@.len() <= j,
                forall|t: int| 0 <= t < out@.len() ==> (#[trigger] out@[t]).0 < m && out@[t].1 < n,
                forall|t: int|
                    0 <= t < out@.len() ==> list@.contains(#[trigger] out@[t]) && pos@[out@[t].1 as int] > pos@[v as int],
                forall|t: int| 0 <= t < j && pos@[(#[trigger] list@[t]).1 as int] > pos@[v as int] ==> out@.contains(list@[t]),
            decreases list@.len() - j,
        {
            let (e, w) = list[j];
            proof {
                assert(incidence_ok(problem.figure.edges@, v as int, list@[j as int]));
                assert(list@[j as int].1 < n);
            }
            let ghost before = out@;
            if pos[w] > pos[v] {
                out.push((e, w));
                proof {
                    assert(out@[out@.len() - 1] == list@[j as int]);
                    assert forall|t: int| 0 <= t < j + 1 && pos@[(#[trigger] list@[t]).1 as int] > pos@[v as int] implies out@.contains(
                        list@[t],
                    ) by {
                        if t < j {
                            let k = choose|k: int| 0 <= k < before.len() && before[k] == list@[t];
                            assert(out@[k] == list@[t]);
                        }
                    }
                }
            }
            proof {
                assert(list@.contains(list@[j as int]));
            }
            j = j + 1;
        }
        if out.len() > MAX_FORWARD_EDGES {
            return None;
        }
        let ghost fbefore = forward@;
        forward.push(out);
        proof {
            assert forall|u: int, j: int|
                0 <= u < v + 1 && 0 <= j < problem.figure.vertex_edges@[u]@.len() && pos@[(
                #[trigger] problem.figure.vertex_edges@[u]@[j]).1 as int] > pos@[u] implies forward@[u]@.contains(
                problem.figure.vertex_edges@[u]@[j],
            ) by {
                if u < v {
                    assert(forward@[u] == fbefore[u]);
                }
            }
        }
        v = v + 1;
    }
    proof {
        assert(in_range(problem.hole@[0]));
        crate::problem::lemma_box_in_range(problem.hole@, problem.bbox_min, problem.bbox_max);
    }
    let wx = problem.bbox_max.x - problem.bbox_min.x;
    let wy = problem.bbox_max.y - problem.bbox_min.y;
    proof {
        assert(0 <= wx * wx <= 4_000_000_000_000) by (nonlinear_arith)
            requires 0 <= wx <= 2_000_000;
        assert(0 <= wy * wy <= 4_000_000_000_000) by (nonlinear_arith)
            requires 0 <= wy <= 2_000_000;
    }
    let top = wx * wx + wy * wy;
    if top as u64 > usize::MAX as u64 {
        return None;
    }
    let max_delta = top as usize;
    assert(max_delta == top);
    let table = build_delta_table(max_delta);
    let mut bounds: Vec<(i64, i64)> = Vec::new();
    let mut e: usize = 0;
    while e < m
        invariant
            e <= m,
            m == problem.figure.edges@.len(),
            problem.wf(),
            table@.len() == max_delta + 1,
            top == max_delta,
            bounds@.len() == e,
            forall|t: int| 0 <= t < e ==> 0 <= (#[trigger] bounds@[t]).0 && bounds@[t].1 < table@.len(),
            forall|t: int|
                0 <= t < e ==> #[trigger] bounds@[t] == clip_bounds(
                    len2_lower(problem.figure.edges@[t].len2 as int, problem.figure.epsilon as int),
                    len2_upper(problem.figure.edges@[t].len2 as int, problem.figure.epsilon as int),
                    top as int,
                ),
        decreases m - e,
    {
        let (lo, hi) = problem.figure.edge_len2_bounds_int(e);
        let lo2 = if lo < 0 { 0 } else { lo };
        let hi2 = if hi > top { top } else { hi };
        bounds.push((lo2, hi2));
        e = e + 1;
    }
    let cells = problem.inside.len();
    proof {
        let w = problem.bbox_max.x - problem.bbox_min.x + 1;
        let h = problem.bbox_max.y - problem.bbox_min.y + 1;
        assert(w * h >= 1) by (nonlinear_arith)
            requires w >= 1, h >= 1;
    }
    let mut can_place: Vec<usize> = Vec::new();
    let mut consumed: Vec<usize> = Vec::new();
    let mut w: usize = 0;
    while w < n
        invariant
            w <= n,
            cells == problem.inside@.len(),
            can_place@.len() == w * cells,
            consumed@.len() == w,
            forall|i: int| 0 <= i < can_place@.len() ==> #[trigger] can_place@[i] <= 1,
            forall|i: int| 0 <= i < consumed@.len() ==> #[trigger] consumed@[i] == 0,
            forall|u: int, kk: int|
                0 <= u < w && 0 <= kk < cells ==> #[trigger] at(can_place@, u * cells, kk) == if problem.inside@[kk] {
                    1int
                } else {
                    0int
                },
        decreases n - w,
    {
        let mut k: usize = 0;
        while k < cells
            invariant
                k <= cells,
                w < n,
                cells == problem.inside@.len(),
                can_place@.len() == w * cells + k,
                forall|i: int| 0 <= i < can_place@.len() ==> #[trigger] can_place@[i] <= 1,
                forall|u: int, kk: int|
                    0 <= u < w && 0 <= kk < cells ==> #[trigger] at(can_place@, u * cells, kk) == if problem.inside@[kk] {
                        1int
                    } else {
                        0int
                    },
                forall|kk: int|
                    0 <= kk < k ==> #[trigger] at(can_place@, w * cells, kk) == if problem.inside@[kk] {
                        1int
                    } else {
                        0int
                    },
            decreases cells - k,
        {
            let ghost before = can_place@;
            if problem.inside[k] {
                can_place.push(1);
            } else {
                can_place.push(0);
            }
            proof {
                assert forall|u: int, kk: int| 0 <= u < w && 0 <= kk < cells implies #[trigger] at(can_place@, u * cells, kk)
                    == at(before, u * cells, kk) by {
                    lemma_block(u, w as int, cells as int, kk);
                }
                assert forall|kk: int| 0 <= kk < k implies #[trigger] at(can_place@, w * cells, kk) == at(
                    before,
                    w * cells,
                    kk,
                ) by {}
            }
            k = k + 1;
        }
        assert(w * cells + cells == (w + 1) * cells) by (nonlinear_arith);
        consumed.push(0);
        w = w + 1;
    }
    let mut covered: Vec<usize> = Vec::new();
    let mut h: usize = 0;
    while h < problem.hole.len()
        invariant
            h <= problem.hole@.len(),
            covered@.len() == h,
            forall|i: int| 0 <= i < covered@.len() ==> #[trigger] covered@[i] == 0,
        decreases problem.hole@.len() - h,
    {
        covered.push(0);
        h = h + 1;
    }
    let plan = SearchPlan { order, position: pos, forward, bounds, table, cells, slack, started };
    let runner = SearchRunner {
        can_place,
        consumed,
        covered,
        pose: copy_points(&initial.vertices),
        best: None,
        emitted: Vec::new(),
        scores: Vec::new(),
        visits: 0,
        terminate: false,
        deadline_ms: None,
    };
    proof {
        assert forall|u: int, kk: int| 0 <= u < n && plan.position@[u] >= 0 && 0 <= kk < plan.cells implies #[trigger] at(
            runner.can_place@,
            u * plan.cells,
            kk,
        ) == (if problem.inside@[kk] {
            1int
        } else {
            0int
        }) + gain(&plan, runner.pose@, 0, u, grid_point(problem.bbox_min, problem.bbox_max.y - problem.bbox_min.y + 1, kk)) by {}
        assert forall|u: int| 0 <= u < n && plan.position@[u] >= 0 implies #[trigger] runner.consumed@[u] == count(&plan, 0, u) by {}
        assert forall|i: int| 0 <= i < n implies #[trigger] plan.order@[i] < n by {
            assert(order_matches(plan.order@, Seq::new(n as nat, |i: int| true)));
        }
        assert forall|u: int, k: int| 0 <= u < n && 0 <= k < cells implies #[trigger] at(runner.can_place@, u * cells, k) <= 1
            + runner.consumed@[u] by {
            lemma_block(u, n as int, cells as int, k);
        }
    }
    Some((plan, runner))
}

impl SearchRunner {
    /// Tries each cell allowed for the first vertex in turn. With a timeout,
    /// the time is divided evenly over these root branches: the `i`-th of `c`
    /// stops `timeout * (i + 1) / c` milliseconds (rounded down per branch)
    /// after the start. Stops early once a placement with no dislikes is found.
    pub fn run_root(&mut self, plan: &SearchPlan, problem: &Problem, timeout_ms: Option<u64>)
        requires
            plan.ok(problem),
            old(self).ok(plan, problem),
            old(self).within_level(0),
            old(self).grids_match(plan, problem, 0),
        ensures
            final(self).ok(plan, problem),
            final(self).same_frame(old(self)),
            final(self).extends(old(self)),
            timeout_ms is None ==> forall|goal: Seq<Point>|
                #[trigger] problem.valid(goal) && never_pruned(plan, problem, goal) ==> (final(self).best matches Some(b) && b
                    <= dislikes_of(problem.hole@, goal)),
            timeout_ms is None && problem.hole@.no_duplicates() && (exists|goal: Seq<Point>|
                #[trigger] problem.valid(goal) && dislikes_of(problem.hole@, goal) == 0) ==> final(self).best == Some(0u64),
    {
        proof {
            lemma_prefix_refl(self.scores@);
        }
        let n = problem.figure.vertices.len();
        let total = self.can_place.len();
        let v = plan.order[0];
        proof {
            lemma_block(v as int, n as int, plan.cells as int, 0);
        }
        let base = v * plan.cells;
        let target = self.consumed[v] + 1;
        let mut roots: u64 = 0;
        let mut k: usize = 0;
        while k < plan.cells
            invariant
                plan.ok(problem),
                self.ok(plan, problem),
                n == problem.figure.vertices@.len(),
                v < n,
                total == self.can_place@.len(),
                base == v * plan.cells,
                base + plan.cells <= self.can_place@.len(),
                roots <= k,
            decreases plan.cells - k,
        {
            proof {
                lemma_block(v as int, n as int, plan.cells as int, k as int);
            }
            if self.can_place[base + k] == target && roots < u64::MAX {
                roots = roots + 1;
            }
            k = k + 1;
        }
        let ghost start = *self;
        let mut seen: u64 = 0;
        let mut k: usize = 0;
        while k < plan.cells
            invariant
                plan.ok(problem),
                self.ok(plan, problem),
                self.same_frame(&start),
                start.same_frame(old(self)),
                start.extends(old(self)),
                start.within_level(0),
                self.extends(&start),
                n == problem.figure.vertices@.len(),
                v < n,
                total == self.can_place@.len(),
                base == v * plan.cells,
                base + plan.cells <= self.can_place@.len(),
                target == self.consumed@[v as int] + 1,
                start.grids_match(plan, problem, 0),
                start.ok(plan, problem),
                v == plan.order@[0],
                k <= plan.cells,
                timeout_ms is None ==> forall|goal: Seq<Point>|
                    #[trigger] problem.valid(goal) && never_pruned(plan, problem, goal) && 0 <= cell_index(
                        problem.bbox_min,
                        problem.bbox_max.y - problem.bbox_min.y + 1,
                        goal[v as int],
                    ) < k ==> (self.best matches Some(b) && b <= dislikes_of(problem.hole@, goal)),
                timeout_ms is None && problem.hole@.no_duplicates() ==> forall|goal: Seq<Point>|
                    #[trigger] problem.valid(goal) && dislikes_of(problem.hole@, goal) == 0 ==> !(0 <= cell_index(
                        problem.bbox_min,
                        problem.bbox_max.y - problem.bbox_min.y + 1,
                        goal[v as int],
                    ) < k),
            decreases plan.cells - k,
        {
            proof {
                lemma_block(v as int, n as int, plan.cells as int, k as int);
            }
            let ghost h = problem.bbox_max.y - problem.bbox_min.y + 1;
            let ghost mut got: Option<u64> = None;
            proof {
                if timeout_ms is None {
                    assert forall|goal: Seq<Point>|
                        #[trigger] problem.valid(goal) && cell_index(problem.bbox_min, h, goal[v as int]) == k implies at(
                            self.can_place@,
                            base as int,
                            k as int,
                        ) == target by {
                        lemma_candidate(plan, problem, &start, goal, 0, v as int);
                    }
                }
            }
            if self.can_place[base + k] == target {
                self.terminate = false;
                self.deadline_ms = match timeout_ms {
                    Some(t) => Some(branch_deadline(t, roots, seen)),
                    None => None,
                };
                if seen < u64::MAX {
                    seen = seen + 1;
                }
                let ghost mid = *self;
                let r = self.try_candidate(plan, problem, 0, k);
                proof {
                    got = r;
                    lemma_prefix_trans(start.scores@, mid.scores@, self.scores@);
                    lemma_best_falls(problem, &mid, self);
                }
                if r == Some(0u64) {
                    proof {
                        lemma_prefix_trans(old(self).scores@, start.scores@, self.scores@);
                        assert forall|goal: Seq<Point>| #[trigger] problem.valid(goal) implies 0 <= dislikes_of(
                            problem.hole@,
                            goal,
                        ) by {
                            crate::problem::lemma_dislikes_nonneg(problem.hole@, goal);
                        }
                    }
                    return;
                }
            }
            proof {
                if timeout_ms is None && problem.hole@.no_duplicates() {
                    assert forall|goal: Seq<Point>|
                        #[trigger] problem.valid(goal) && dislikes_of(problem.hole@, goal) == 0 implies !(0 <= cell_index(
                            problem.bbox_min,
                            h,
                            goal[v as int],
                        ) < k + 1) by {
                        if cell_index(problem.bbox_min, h, goal[v as int]) == k {
                            lemma_candidate(plan, problem, &start, goal, 0, v as int);
                            assert(got == Some(0u64));
                        }
                    }
                }
                if timeout_ms is None {
                    assert forall|goal: Seq<Point>|
                        #[trigger] problem.valid(goal) && never_pruned(plan, problem, goal) && 0 <= cell_index(
                            problem.bbox_min,
                            h,
                            goal[v as int],
                        ) < k + 1 implies (
                        self.best matches Some(b) && b <= dislikes_of(problem.hole@, goal)) by {
                        if cell_index(problem.bbox_min, h, goal[v as int]) == k {
                            lemma_candidate(plan, problem, &start, goal, 0, v as int);
                        }
                    }
                }
            }
            k = k + 1;
        }
        proof {
            lemma_prefix_trans(old(self).scores@, start.scores@, self.scores@);
            if timeout_ms is None {
                assert forall|goal: Seq<Point>| #[trigger] problem.valid(goal) && never_pruned(plan, problem, goal) implies (
                self.best matches Some(b) && b <= dislikes_of(problem.hole@, goal)) by {
                    lemma_candidate(plan, problem, &start, goal, 0, v as int);
                }
            }
            if timeout_ms is None && problem.hole@.no_duplicates() && (exists|goal: Seq<Point>|
                #[trigger] problem.valid(goal) && dislikes_of(problem.hole@, goal) == 0) {
                let goal = choose|goal: Seq<Point>| #[trigger] problem.valid(goal) && dislikes_of(problem.hole@, goal) == 0;
                lemma_candidate(plan, problem, &start, goal, 0, v as int);
            }
        }
    }
}

/// The tree search: the improving poses found from `initial`, each valid,
/// with strictly decreasing dislikes. A figure above the size limit is
/// declined, and nothing is found. Run to the end, with neither coverage
/// pruning nor a timeout, on a problem it takes on, the last pose found is
/// optimal: no valid pose has fewer dislikes. With no timeout, on such a
/// problem whose hole vertices are distinct points, the pruning never cuts a
/// pose with no dislikes, since each placed vertex covers at most one hole
/// vertex: where a valid pose with no dislikes exists, the last pose found
/// has none.
pub fn tree_search(problem: &Problem, initial: &Pose, timeout_ms: Option<u64>, slack: Option<usize>) -> (r: SearchOutcome)
    requires
        problem.wf(),
        problem.pose_ok(initial.vertices@),
    ensures
        emissions_ok(
            problem,
            r.poses@,
            r.scores@,
            if r.scores@.len() == 0 {
                None
            } else {
                Some(r.scores@.last())
            },
        ),
        problem.figure.vertices@.len() > MAX_SEARCH_VERTICES ==> r.poses@.len() == 0,
        slack is None && timeout_ms is None && search_applies(problem) ==> forall|goal: Seq<Point>|
            #[trigger] problem.valid(goal) ==> r.scores@.len() > 0 && r.scores@.last() <= dislikes_of(problem.hole@, goal),
        timeout_ms is None && search_applies(problem) && problem.hole@.no_duplicates() && (exists|goal: Seq<Point>|
            #[trigger] problem.valid(goal) && dislikes_of(problem.hole@, goal) == 0) ==> r.scores@.len() > 0
            && r.scores@.last() == 0,
{
    match prepare(problem, initial, slack) {
        None => SearchOutcome { poses: Vec::new(), scores: Vec::new() },
        Some((plan, runner)) => {
            let mut runner = runner;
            runner.run_root(&plan, problem, timeout_ms);
            SearchOutcome { poses: runner.emitted, scores: runner.scores }
        },
    }
}

} // verus!
