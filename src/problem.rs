//! The problem: the hole, its precomputed inside grid, the figure, and the
//! evaluation of a pose (containment, edge lengths, dislikes).

use crate::figure::{
    Edge,
    edge_ok, edge_test, incident_edges, lemma_bounds_match_tolerance, len2_lower, len2_upper, EdgeTestResult, Figure,
};
use crate::geometry::{
    all_in_range, dist2, distance_squared_int, in_range, polygon_contains_point,
    polygon_contains_segment, polygon_covers, rings_ready, segment_covered, doubled, Point,
    MAX_DIST2,
};
use vstd::prelude::*;

verus! {

/// Largest number of hole vertices that the model accepts.
pub const HOLE_LIMIT: usize = 1_000_000;

/// The bonus kinds that a problem can unlock.
#[derive(Clone, Copy, PartialEq, Eq, Structural, Debug)]
pub enum BonusType {
    Globalist,
    BreakALeg,
    WallHack,
    SuperFlex,
}

/// The name of a bonus kind in problem and solution files.
pub open spec fn bonus_name(b: BonusType) -> Seq<char> {
    match b {
        BonusType::Globalist => "GLOBALIST"@,
        BonusType::BreakALeg => "BREAK_A_LEG"@,
        BonusType::WallHack => "WALLHACK"@,
        BonusType::SuperFlex => "SUPERFLEX"@,
    }
}

impl BonusType {
    /// The bonus kind with this name, if any.
    pub fn from_name(name: &str) -> (r: Option<BonusType>)
        ensures
            r matches Some(b) ==> name@ == bonus_name(b),
            r is None ==> forall|b: BonusType| name@ != #[trigger] bonus_name(b),
    {
        let s = name.to_owned();
        if s == "GLOBALIST".to_owned() {
            Some(BonusType::Globalist)
        } else if s == "BREAK_A_LEG".to_owned() {
            Some(BonusType::BreakALeg)
        } else if s == "WALLHACK".to_owned() {
            Some(BonusType::WallHack)
        } else if s == "SUPERFLEX".to_owned() {
            Some(BonusType::SuperFlex)
        } else {
            proof {
                assert forall|b: BonusType| name@ != #[trigger] bonus_name(b) by {
                    match b {
                        BonusType::Globalist => {},
                        BonusType::BreakALeg => {},
                        BonusType::WallHack => {},
                        BonusType::SuperFlex => {},
                    }
                }
            }
            None
        }
    }

    /// The name of this bonus kind.
    pub fn name(&self) -> (r: String)
        ensures
            r@ == bonus_name(*self),
    {
        match self {
            BonusType::Globalist => "GLOBALIST".to_owned(),
            BonusType::BreakALeg => "BREAK_A_LEG".to_owned(),
            BonusType::WallHack => "WALLHACK".to_owned(),
            BonusType::SuperFlex => "SUPERFLEX".to_owned(),
        }
    }
}

/// A bonus that a problem unlocks at a position.
#[derive(Clone, Copy, PartialEq, Eq, Structural, Debug)]
pub struct BonusUnlock {
    pub position: Point,
    pub bonus: BonusType,
    pub problem: u32,
}

/// A bonus used by a pose.
#[derive(Clone, Copy, PartialEq, Eq, Structural, Debug)]
pub struct BonusUse {
    pub bonus: BonusType,
    pub problem: u32,
}

/// One coordinate per figure vertex, with the bonuses the pose uses.
#[derive(Debug)]
pub struct Pose {
    pub vertices: Vec<Point>,
    pub bonuses: Vec<BonusUse>,
    pub optimal: Option<bool>,
}

/// A copy of a sequence of points.
pub fn copy_points(v: &Vec<Point>) -> (r: Vec<Point>)
    ensures
        r@ == v@,
{
    let mut r: Vec<Point> = Vec::new();
    let mut i: usize = 0;
    while i < v.len()
        invariant
            i <= v@.len(),
            r@ == v@.subrange(0, i as int),
        decreases v.len() - i,
    {
        r.push(v[i]);
        proof {
            assert(v@.subrange(0, i + 1 as int) == v@.subrange(0, i as int).push(v@[i as int]));
        }
        i = i + 1;
    }
    assert(v@.subrange(0, v@.len() as int) == v@);
    r
}

impl Pose {
    /// A pose at the given vertices, using no bonus.
    pub fn new(vertices: Vec<Point>) -> (r: Pose)
        ensures
            r.vertices@ == vertices@,
            r.bonuses@.len() == 0,
            r.optimal.is_none(),
    {
        Pose { vertices, bonuses: Vec::new(), optimal: None }
    }

    /// An owned copy, so that a search can go on changing its own pose.
    pub fn snapshot(&self) -> (r: Pose)
        ensures
            r.vertices@ == self.vertices@,
            r.bonuses@ == self.bonuses@,
            r.optimal == self.optimal,
    {
        let mut bonuses: Vec<BonusUse> = Vec::new();
        let mut i: usize = 0;
        while i < self.bonuses.len()
            invariant
                i <= self.bonuses@.len(),
                bonuses@ == self.bonuses@.subrange(0, i as int),
            decreases self.bonuses.len() - i,
        {
            bonuses.push(self.bonuses[i]);
            proof {
                assert(self.bonuses@.subrange(0, i + 1 as int) == self.bonuses@.subrange(0, i as int).push(
                    self.bonuses@[i as int],
                ));
            }
            i = i + 1;
        }
        assert(self.bonuses@.subrange(0, self.bonuses@.len() as int) == self.bonuses@);
        Pose { vertices: copy_points(&self.vertices), bonuses, optimal: self.optimal }
    }
}

/// `mn` and `mx` are the corners of the smallest box around the points of `s`.
pub open spec fn is_bbox(s: Seq<Point>, mn: Point, mx: Point) -> bool {
    &&& forall|i: int|
        0 <= i < s.len() ==> mn.x <= (#[trigger] s[i]).x <= mx.x && mn.y <= s[i].y <= mx.y
    &&& exists|i: int| 0 <= i < s.len() && (#[trigger] s[i]).x == mn.x
    &&& exists|i: int| 0 <= i < s.len() && (#[trigger] s[i]).x == mx.x
    &&& exists|i: int| 0 <= i < s.len() && (#[trigger] s[i]).y == mn.y
    &&& exists|i: int| 0 <= i < s.len() && (#[trigger] s[i]).y == mx.y
}

/// The score last accepted by the judge for a problem.
#[derive(Clone, Copy, PartialEq, Eq, Structural, Debug)]
pub struct ServerState {
    pub dislikes: u64,
}

impl ServerState {
    /// No score accepted yet: the largest dislikes.
    pub fn new() -> (r: ServerState)
        ensures
            r.dislikes == u64::MAX,
    {
        ServerState { dislikes: u64::MAX }
    }
}

/// What is known of a stored solution.
#[derive(Clone, Copy, PartialEq, Eq, Structural, Debug)]
pub struct SolutionState {
    pub dislikes: u64,
    pub valid: bool,
    pub optimal: bool,
}

impl SolutionState {
    /// No solution yet: the largest dislikes, neither valid nor optimal.
    pub fn new() -> (r: SolutionState)
        ensures
            r.dislikes == u64::MAX,
            !r.valid,
            !r.optimal,
    {
        SolutionState { dislikes: u64::MAX, valid: false, optimal: false }
    }
}

/// A pose for a problem, with what is known of it.
#[derive(Debug)]
pub struct Solution {
    pub id: u32,
    pub pose: Pose,
    pub state: SolutionState,
    pub server_state: ServerState,
}

/// Why the parts of a problem do not make one.
#[derive(Clone, Copy, PartialEq, Eq, Structural, Debug)]
pub enum InputError {
    EmptyHole,
    HoleTooLarge,
    CoordinateOutOfRange,
    EdgeOutOfRange,
    EpsilonTooLarge,
}

/// The bounding box of a nonempty sequence of points.
pub fn bounding_box(s: &Vec<Point>) -> (r: (Point, Point))
    requires
        s@.len() >= 1,
    ensures
        is_bbox(s@, r.0, r.1),
{
    let mut mn = s[0];
    let mut mx = s[0];
    let ghost mut ix0: int = 0;
    let ghost mut ix1: int = 0;
    let ghost mut iy0: int = 0;
    let ghost mut iy1: int = 0;
    let mut i: usize = 1;
    while i < s.len()
        invariant
            1 <= i <= s@.len(),
            forall|j: int| 0 <= j < i ==> mn.x <= (#[trigger] s@[j]).x <= mx.x && mn.y <= s@[j].y <= mx.y,
            0 <= ix0 < s@.len() && s@[ix0].x == mn.x,
            0 <= ix1 < s@.len() && s@[ix1].x == mx.x,
            0 <= iy0 < s@.len() && s@[iy0].y == mn.y,
            0 <= iy1 < s@.len() && s@[iy1].y == mx.y,
        decreases s.len() - i,
    {
        let p = s[i];
        if p.x < mn.x {
            mn.x = p.x;
            proof { ix0 = i as int; }
        }
        if p.x > mx.x {
            mx.x = p.x;
            proof { ix1 = i as int; }
        }
        if p.y < mn.y {
            mn.y = p.y;
            proof { iy0 = i as int; }
        }
        if p.y > mx.y {
            mx.y = p.y;
            proof { iy1 = i as int; }
        }
        i = i + 1;
    }
    (mn, mx)
}

/// The lattice point of cell `k` in a grid of columns of height `h` starting at `mn`.
pub open spec fn grid_point(mn: Point, h: int, k: int) -> Point {
    Point { x: (mn.x + k / h) as i64, y: (mn.y + k % h) as i64 }
}

pub open spec fn in_box(mn: Point, mx: Point, p: Point) -> bool {
    mn.x <= p.x <= mx.x && mn.y <= p.y <= mx.y
}

/// Index of point `p` of the box in its grid.
pub open spec fn cell_index(mn: Point, h: int, p: Point) -> int {
    (p.x - mn.x) * h + (p.y - mn.y)
}

pub proof fn lemma_cell_index(mn: Point, mx: Point, p: Point)
    requires
        in_box(mn, mx, p),
        mn.x <= mx.x,
        mn.y <= mx.y,
    ensures
        0 <= cell_index(mn, mx.y - mn.y + 1, p) < (mx.x - mn.x + 1) * (mx.y - mn.y + 1),
        grid_point(mn, mx.y - mn.y + 1, cell_index(mn, mx.y - mn.y + 1, p)) == p,
{
    let h = mx.y - mn.y + 1;
    let w = mx.x - mn.x + 1;
    let ix = p.x - mn.x;
    let iy = p.y - mn.y;
    assert(0 <= ix * h + iy < w * h) by (nonlinear_arith)
        requires 0 <= ix < w, 0 <= iy < h;
    vstd::arithmetic::div_mod::lemma_fundamental_div_mod_converse(ix * h + iy, h, ix, iy);
}

/// The problem: its id, the hole, the figure, the bonuses it unlocks, and
/// what is precomputed once: the hole with doubled coordinates, its bounding
/// box, and for each lattice point of the box whether the hole holds it.
#[derive(Debug)]
pub struct Problem {
    pub id: u32,
    pub hole: Vec<Point>,
    pub hole2: Vec<Point>,
    pub inside: Vec<bool>,
    pub bbox_min: Point,
    pub bbox_max: Point,
    pub figure: Figure,
    pub bonuses: Vec<BonusUnlock>,
}

/// The least squared distance from `h` to a point of `pose`; zero for an empty pose.
pub open spec fn nearest_dist2(h: Point, pose: Seq<Point>) -> int
    decreases pose.len(),
{
    if pose.len() == 0 {
        0
    } else if pose.len() == 1 {
        dist2(h, pose[0])
    } else {
        let rest = nearest_dist2(h, pose.drop_last());
        let d = dist2(h, pose.last());
        if d < rest {
            d
        } else {
            rest
        }
    }
}

/// The dislikes of a pose: over the hole's vertices, the sum of the squared
/// distance to the nearest pose vertex.
pub open spec fn dislikes_of(hole: Seq<Point>, pose: Seq<Point>) -> int
    decreases hole.len(),
{
    if hole.len() == 0 {
        0
    } else {
        dislikes_of(hole.drop_last(), pose) + nearest_dist2(hole.last(), pose)
    }
}

impl Problem {
    pub open spec fn height(&self) -> int {
        self.bbox_max.y - self.bbox_min.y + 1
    }

    pub open spec fn width(&self) -> int {
        self.bbox_max.x - self.bbox_min.x + 1
    }

    pub open spec fn wf(&self) -> bool {
        &&& 1 <= self.hole@.len() <= HOLE_LIMIT
        &&& rings_ready(self.hole@, self.hole2@)
        &&& self.figure.wf()
        &&& is_bbox(self.hole@, self.bbox_min, self.bbox_max)
        &&& self.inside@.len() == self.width() * self.height()
        &&& forall|k: int|
            0 <= k < self.inside@.len() ==> self.inside@[k] == polygon_covers(
                self.hole@,
                #[trigger] grid_point(self.bbox_min, self.height(), k),
            )
    }

    /// What the precomputed grid says of `p`: inside the box, and marked.
    pub open spec fn grid_holds(&self, p: Point) -> bool {
        in_box(self.bbox_min, self.bbox_max, p) && self.inside@[cell_index(self.bbox_min, self.height(), p)]
    }

    /// A pose fits the figure: one point in range per vertex.
    pub open spec fn pose_ok(&self, pose: Seq<Point>) -> bool {
        pose.len() == self.figure.vertices@.len() && all_in_range(pose)
    }

    /// Every vertex of the pose, and every edge segment, lies in the hole.
    pub open spec fn contains_spec(&self, pose: Seq<Point>) -> bool {
        &&& forall|i: int| 0 <= i < pose.len() ==> #[trigger] self.grid_holds(pose[i])
        &&& forall|e: int|
            0 <= e < self.figure.edges@.len() ==> segment_covered(
                self.hole@,
                pose[(#[trigger] self.figure.edges@[e]).v0 as int],
                pose[self.figure.edges@[e].v1 as int],
            )
    }

    /// Every edge's squared length in the pose meets its tolerance.
    pub open spec fn correct_length_spec(&self, pose: Seq<Point>) -> bool {
        forall|e: int|
            0 <= e < self.figure.edges@.len() ==> edge_test(
                dist2(pose[(#[trigger] self.figure.edges@[e]).v0 as int], pose[self.figure.edges@[e].v1 as int]),
                self.figure.edges@[e].len2 as int,
                self.figure.epsilon as int,
            ) == EdgeTestResult::Fits
    }

    /// The pose fits the figure, lies in the hole and keeps every edge's tolerance.
    pub open spec fn valid(&self, pose: Seq<Point>) -> bool {
        self.pose_ok(pose) && self.contains_spec(pose) && self.correct_length_spec(pose)
    }

    /// Builds the problem and precomputes the inside grid of its hole.
    pub fn new(id: u32, hole: Vec<Point>, figure: Figure, bonuses: Vec<BonusUnlock>) -> (r: Problem)
        requires
            1 <= hole@.len() <= HOLE_LIMIT,
            all_in_range(hole@),
            figure.wf(),
        ensures
            r.wf(),
            r.id == id,
            r.hole@ == hole@,
            r.figure == figure,
            r.bonuses@ == bonuses@,
    {
        let mut hole2: Vec<Point> = Vec::new();
        let mut i: usize = 0;
        while i < hole.len()
            invariant
                i <= hole@.len(),
                all_in_range(hole@),
                hole2@ == doubled(hole@.subrange(0, i as int)),
            decreases hole.len() - i,
        {
            let p = hole[i];
            assert(in_range(hole@[i as int]));
            let q = Point { x: 2 * p.x, y: 2 * p.y };
            hole2.push(q);
            proof {
                assert(doubled(hole@.subrange(0, i + 1 as int)) =~= doubled(hole@.subrange(0, i as int)).push(q));
            }
            i = i + 1;
        }
        assert(hole@.subrange(0, hole@.len() as int) == hole@);
        let (mn, mx) = bounding_box(&hole);
        assert(in_range(hole@[0]));
        assert(mn.x <= hole@[0].x <= mx.x && mn.y <= hole@[0].y <= mx.y);
        let ghost h: int = mx.y - mn.y + 1;
        let mut inside: Vec<bool> = Vec::new();
        let mut x = mn.x;
        proof {
            let j = choose|j: int| 0 <= j < hole@.len() && (#[trigger] hole@[j]).x == mx.x;
            assert(in_range(hole@[j]));
            let j = choose|j: int| 0 <= j < hole@.len() && (#[trigger] hole@[j]).y == mx.y;
            assert(in_range(hole@[j]));
            let j = choose|j: int| 0 <= j < hole@.len() && (#[trigger] hole@[j]).x == mn.x;
            assert(in_range(hole@[j]));
            let j = choose|j: int| 0 <= j < hole@.len() && (#[trigger] hole@[j]).y == mn.y;
            assert(in_range(hole@[j]));
        }
        while x <= mx.x
            invariant
                in_range(mn),
                in_range(mx),
                mn.x <= x <= mx.x + 1,
                mn.y <= mx.y,
                h == mx.y - mn.y + 1,
                all_in_range(hole@),
                1 <= hole@.len(),
                inside@.len() == (x - mn.x) * h,
                forall|k: int|
                    0 <= k < inside@.len() ==> inside@[k] == polygon_covers(hole@, #[trigger] grid_point(mn, h, k)),
            decreases mx.x + 1 - x,
        {
            let mut y = mn.y;
            while y <= mx.y
                invariant
                    in_range(mn),
                    in_range(mx),
                    mn.x <= x <= mx.x,
                    mn.y <= y <= mx.y + 1,
                    h == mx.y - mn.y + 1,
                    all_in_range(hole@),
                    1 <= hole@.len(),
                    inside@.len() == (x - mn.x) * h + (y - mn.y),
                    forall|k: int|
                        0 <= k < inside@.len() ==> inside@[k] == polygon_covers(
                            hole@,
                            #[trigger] grid_point(mn, h, k),
                        ),
                decreases mx.y + 1 - y,
            {
                let p = Point { x, y };
                let c = polygon_contains_point(&hole, p);
                proof {
                    vstd::arithmetic::div_mod::lemma_fundamental_div_mod_converse(
                        (x - mn.x) * h + (y - mn.y),
                        h,
                        x - mn.x,
                        y - mn.y,
                    );
                    assert(grid_point(mn, h, inside@.len() as int) == p);
                }
                inside.push(c);
                y = y + 1;
            }
            assert((x - mn.x) * h + h == (x + 1 - mn.x) * h) by (nonlinear_arith);
            x = x + 1;
        }
        Problem { id, hole, hole2, inside, bbox_min: mn, bbox_max: mx, figure, bonuses }
    }

    /// Builds a problem from its parts as read from input: the hole, the
    /// figure's vertices, its edges as pairs of vertex indices (each edge's
    /// nominal squared length is taken from the vertices), the tolerance in
    /// millionths, and the bonuses. The first failed check gives the error.
    pub fn from_parts(
        id: u32,
        hole: Vec<Point>,
        vertices: Vec<Point>,
        edges: Vec<(usize, usize)>,
        epsilon: u64,
        bonuses: Vec<BonusUnlock>,
    ) -> (r: Result<Problem, InputError>)
        ensures
            r == Err::<Problem, InputError>(InputError::EmptyHole) <==> hole@.len() == 0,
            r == Err::<Problem, InputError>(InputError::HoleTooLarge) <==> hole@.len() > HOLE_LIMIT,
            r == Err::<Problem, InputError>(InputError::CoordinateOutOfRange) <==> 1 <= hole@.len() <= HOLE_LIMIT && !(
            all_in_range(hole@) && all_in_range(vertices@)),
            r == Err::<Problem, InputError>(InputError::EdgeOutOfRange) <==> 1 <= hole@.len() <= HOLE_LIMIT && all_in_range(
                hole@,
            ) && all_in_range(vertices@) && !edges_in(edges@, vertices@.len() as int),
            r == Err::<Problem, InputError>(InputError::EpsilonTooLarge) <==> 1 <= hole@.len() <= HOLE_LIMIT && all_in_range(
                hole@,
            ) && all_in_range(vertices@) && edges_in(edges@, vertices@.len() as int) && epsilon > crate::figure::EPS_LIMIT,
            r matches Ok(p) ==> {
                &&& p.wf()
                &&& p.id == id
                &&& p.hole@ == hole@
                &&& p.figure.vertices@ == vertices@
                &&& p.figure.epsilon == epsilon
                &&& p.bonuses@ == bonuses@
                &&& p.figure.edges@.len() == edges@.len()
                &&& forall|i: int|
                    0 <= i < edges@.len() ==> #[trigger] p.figure.edges@[i] == (Edge {
                        v0: edges@[i].0,
                        v1: edges@[i].1,
                        len2: dist2(vertices@[edges@[i].0 as int], vertices@[edges@[i].1 as int]) as i64,
                    })
                &&& forall|u: int|
                    0 <= u < vertices@.len() ==> (#[trigger] p.figure.vertex_edges@[u])@ == incident_edges(
                        p.figure.edges@,
                        u,
                        edges@.len() as int,
                    )
            },
    {
        if hole.len() == 0 {
            return Err(InputError::EmptyHole);
        }
        if hole.len() > HOLE_LIMIT {
            return Err(InputError::HoleTooLarge);
        }
        if !points_in_range(&hole) || !points_in_range(&vertices) {
            return Err(InputError::CoordinateOutOfRange);
        }
        let n = vertices.len();
        let mut list: Vec<Edge> = Vec::new();
        let mut i: usize = 0;
        while i < edges.len()
            invariant
                i <= edges@.len(),
                n == vertices@.len(),
                all_in_range(vertices@),
                all_in_range(hole@),
                1 <= hole@.len() <= HOLE_LIMIT,
                list@.len() == i,
                forall|j: int| 0 <= j < i ==> edges@[j].0 < n && edges@[j].1 < n,
                forall|j: int|
                    0 <= j < i ==> #[trigger] list@[j] == (Edge {
                        v0: edges@[j].0,
                        v1: edges@[j].1,
                        len2: dist2(vertices@[edges@[j].0 as int], vertices@[edges@[j].1 as int]) as i64,
                    }),
                forall|j: int| 0 <= j < i ==> #[trigger] edge_ok(list@[j], n as int),
            decreases edges@.len() - i,
        {
            let (a, b) = edges[i];
            if a >= n || b >= n {
                assert(!(edges@[i as int].0 < n && edges@[i as int].1 < n));
                return Err(InputError::EdgeOutOfRange);
            }
            assert(in_range(vertices@[a as int]));
            assert(in_range(vertices@[b as int]));
            let len2 = distance_squared_int(vertices[a], vertices[b]);
            list.push(Edge { v0: a, v1: b, len2 });
            i = i + 1;
        }
        if epsilon > crate::figure::EPS_LIMIT {
            return Err(InputError::EpsilonTooLarge);
        }
        let figure = Figure::new(vertices, list, epsilon);
        Ok(Problem::new(id, hole, figure, bonuses))
    }

    /// Whether the segment `ab` lies entirely inside or on the boundary of the hole.
    pub fn contains_segment(&self, segment: (Point, Point)) -> (r: bool)
        requires
            self.wf(),
            in_range(segment.0),
            in_range(segment.1),
        ensures
            r == segment_covered(self.hole@, segment.0, segment.1),
    {
        polygon_contains_segment(&self.hole, &self.hole2, segment.0, segment.1)
    }

    /// The bounding box of the hole.
    pub fn bounding_box(&self) -> (r: (Point, Point))
        requires
            self.wf(),
        ensures
            r == (self.bbox_min, self.bbox_max),
            is_bbox(self.hole@, r.0, r.1),
    {
        (self.bbox_min, self.bbox_max)
    }

    /// The dislikes of the pose: over the hole's vertices, the sum of the
    /// squared distance to the nearest pose vertex.
    pub fn dislikes(&self, pose: &Pose) -> (r: u64)
        requires
            self.wf(),
            all_in_range(pose.vertices@),
        ensures
            r == dislikes_of(self.hole@, pose.vertices@),
    {
        let mut sum: u64 = 0;
        let mut i: usize = 0;
        while i < self.hole.len()
            invariant
                i <= self.hole@.len() <= HOLE_LIMIT,
                all_in_range(self.hole@),
                all_in_range(pose.vertices@),
                sum == dislikes_of(self.hole@.subrange(0, i as int), pose.vertices@),
                sum <= i * MAX_DIST2,
            decreases self.hole.len() - i,
        {
            assert(in_range(self.hole@[i as int]));
            let d = nearest(self.hole[i], &pose.vertices);
            proof {
                assert(self.hole@.subrange(0, i + 1 as int).drop_last() == self.hole@.subrange(0, i as int));
                assert(self.hole@.subrange(0, i + 1 as int).last() == self.hole@[i as int]);
            }
            sum = sum + d;
            i = i + 1;
        }
        assert(self.hole@.subrange(0, self.hole@.len() as int) == self.hole@);
        sum
    }

    /// Whether every vertex and every edge segment of the pose lies in the hole.
    pub fn contains(&self, pose: &Pose) -> (r: bool)
        requires
            self.wf(),
            self.pose_ok(pose.vertices@),
        ensures
            r == self.contains_spec(pose.vertices@),
    {
        let n = pose.vertices.len();
        let mut i: usize = 0;
        while i < n
            invariant
                self.wf(),
                n == pose.vertices@.len(),
                i <= n,
                forall|j: int| 0 <= j < i ==> #[trigger] self.grid_holds(pose.vertices@[j]),
            decreases n - i,
        {
            if !self.contains_point(&pose.vertices[i]) {
                return false;
            }
            i = i + 1;
        }
        let m = self.figure.edges.len();
        let mut e: usize = 0;
        while e < m
            invariant
                self.wf(),
                self.pose_ok(pose.vertices@),
                m == self.figure.edges@.len(),
                e <= m,
                n == pose.vertices@.len(),
                forall|j: int| 0 <= j < n ==> #[trigger] self.grid_holds(pose.vertices@[j]),
                forall|j: int|
                    0 <= j < e ==> segment_covered(
                        self.hole@,
                        pose.vertices@[(#[trigger] self.figure.edges@[j]).v0 as int],
                        pose.vertices@[self.figure.edges@[j].v1 as int],
                    ),
            decreases m - e,
        {
            let edge = self.figure.edges[e];
            assert(edge_ok(self.figure.edges@[e as int], n as int));
            assert(in_range(pose.vertices@[edge.v0 as int]));
            assert(in_range(pose.vertices@[edge.v1 as int]));
            if !polygon_contains_segment(&self.hole, &self.hole2, pose.vertices[edge.v0], pose.vertices[edge.v1]) {
                return false;
            }
            e = e + 1;
        }
        true
    }

    /// Whether every edge of the pose keeps its squared length within tolerance.
    pub fn correct_length(&self, pose: &Pose) -> (r: bool)
        requires
            self.wf(),
            self.pose_ok(pose.vertices@),
        ensures
            r == self.correct_length_spec(pose.vertices@),
    {
        let m = self.figure.edges.len();
        let mut e: usize = 0;
        while e < m
            invariant
                self.wf(),
                self.pose_ok(pose.vertices@),
                m == self.figure.edges@.len(),
                e <= m,
                forall|j: int|
                    0 <= j < e ==> edge_test(
                        dist2(
                            pose.vertices@[(#[trigger] self.figure.edges@[j]).v0 as int],
                            pose.vertices@[self.figure.edges@[j].v1 as int],
                        ),
                        self.figure.edges@[j].len2 as int,
                        self.figure.epsilon as int,
                    ) == EdgeTestResult::Fits,
            decreases m - e,
        {
            if self.figure.test_edge_len2(e, pose) != EdgeTestResult::Fits {
                return false;
            }
            e = e + 1;
        }
        true
    }

    /// Whether the pose is a solution: one point in range per figure vertex,
    /// all of it in the hole, and every edge within tolerance.
    pub fn validate(&self, pose: &Pose) -> (r: bool)
        requires
            self.wf(),
        ensures
            r == self.valid(pose.vertices@),
    {
        if pose.vertices.len() != self.figure.vertices.len() || !points_in_range(&pose.vertices) {
            return false;
        }
        self.contains(pose) && self.correct_length(pose)
    }

    /// Whether `p` is inside or on the boundary of the hole, by the
    /// precomputed grid; points outside the bounding box are outside.
    pub fn contains_point(&self, p: &Point) -> (r: bool)
        requires
            self.wf(),
        ensures
            r == self.grid_holds(*p),
            r == (in_box(self.bbox_min, self.bbox_max, *p) && polygon_covers(self.hole@, *p)),
    {
        if p.x < self.bbox_min.x || p.x > self.bbox_max.x || p.y < self.bbox_min.y || p.y > self.bbox_max.y {
            return false;
        }
        proof {
            assert(in_range(self.hole@[0]));
            lemma_cell_index(self.bbox_min, self.bbox_max, *p);
            lemma_box_in_range(self.hole@, self.bbox_min, self.bbox_max);
        }
        let n = self.inside.len();
        let h = (self.bbox_max.y - self.bbox_min.y + 1) as usize;
        let ix = (p.x - self.bbox_min.x) as usize;
        let iy = (p.y - self.bbox_min.y) as usize;
        proof {
            assert(0 <= ix * h <= ix * h + iy) by (nonlinear_arith)
                requires 0 <= ix, 0 <= iy, 0 < h;
            assert(ix * h + iy == cell_index(self.bbox_min, self.height(), *p));
            assert(n == self.inside@.len());
        }
        let k = ix * h + iy;
        self.inside[k]
    }
}

/// Every edge joins two of `n` vertices.
pub open spec fn edges_in(edges: Seq<(usize, usize)>, n: int) -> bool {
    forall|i: int| 0 <= i < edges.len() ==> (#[trigger] edges[i]).0 < n && edges[i].1 < n
}

/// Whether every point of `v` lies within the accepted range.
pub fn points_in_range(v: &Vec<Point>) -> (r: bool)
    ensures
        r == all_in_range(v@),
{
    let mut i: usize = 0;
    while i < v.len()
        invariant
            i <= v@.len(),
            forall|j: int| 0 <= j < i ==> #[trigger] in_range(v@[j]),
        decreases v.len() - i,
    {
        let p = v[i];
        if p.x < -1_000_000 || p.x > 1_000_000 || p.y < -1_000_000 || p.y > 1_000_000 {
            assert(!in_range(v@[i as int]));
            return false;
        }
        i = i + 1;
    }
    true
}

/// The least squared distance from `h` to a point of `pose`.
fn nearest(h: Point, pose: &Vec<Point>) -> (r: u64)
    requires
        in_range(h),
        all_in_range(pose@),
    ensures
        r == nearest_dist2(h, pose@),
        r <= MAX_DIST2,
{
    let mut best: u64 = 0;
    let mut j: usize = 0;
    while j < pose.len()
        invariant
            j <= pose@.len(),
            in_range(h),
            all_in_range(pose@),
            best == nearest_dist2(h, pose@.subrange(0, j as int)),
            best <= MAX_DIST2,
        decreases pose.len() - j,
    {
        assert(in_range(pose@[j as int]));
        let d = distance_squared_int(h, pose[j]) as u64;
        proof {
            assert(pose@.subrange(0, j + 1 as int).drop_last() == pose@.subrange(0, j as int));
            assert(pose@.subrange(0, j + 1 as int).last() == pose@[j as int]);
        }
        if j == 0 || d < best {
            best = d;
        }
        j = j + 1;
    }
    assert(pose@.subrange(0, pose@.len() as int) == pose@);
    best
}

pub proof fn lemma_dislikes_nonneg(hole: Seq<Point>, pose: Seq<Point>)
    ensures
        0 <= dislikes_of(hole, pose),
    decreases hole.len(),
{
    if hole.len() > 0 {
        lemma_dislikes_nonneg(hole.drop_last(), pose);
        lemma_nearest_nonneg(hole.last(), pose);
    }
}

pub proof fn lemma_nearest_nonneg(h: Point, pose: Seq<Point>)
    ensures
        0 <= nearest_dist2(h, pose),
    decreases pose.len(),
{
    if pose.len() > 0 {
        lemma_nearest_nonneg(h, pose.drop_last());
        let a = h.x - pose.last().x;
        let b = h.y - pose.last().y;
        assert(a * a + b * b >= 0) by (nonlinear_arith);
        if pose.len() == 1 {
            let a0 = h.x - pose[0].x;
            let b0 = h.y - pose[0].y;
            assert(a0 * a0 + b0 * b0 >= 0) by (nonlinear_arith);
        }
    }
}

/// Validation depends on the problem and the pose's vertices alone: poses with
/// the same vertices get the same verdict, however often it is asked.
pub proof fn lemma_validate_deterministic(problem: &Problem, a: &Pose, b: &Pose)
    requires
        a.vertices@ == b.vertices@,
    ensures
        problem.valid(a.vertices@) == problem.valid(b.vertices@),
{
}

/// A valid pose has every vertex inside the hole by the precomputed grid, and
/// every edge segment within the hole.
pub proof fn lemma_valid_pose_inside(problem: &Problem, pose: Seq<Point>)
    requires
        problem.wf(),
        problem.valid(pose),
    ensures
        forall|i: int|
            0 <= i < pose.len() ==> #[trigger] problem.grid_holds(pose[i]) && polygon_covers(problem.hole@, pose[i]),
        forall|e: int|
            0 <= e < problem.figure.edges@.len() ==> segment_covered(
                problem.hole@,
                pose[(#[trigger] problem.figure.edges@[e]).v0 as int],
                pose[problem.figure.edges@[e].v1 as int],
            ),
{
    assert forall|i: int| 0 <= i < pose.len() implies #[trigger] problem.grid_holds(pose[i]) && polygon_covers(
        problem.hole@,
        pose[i],
    ) by {
        let p = pose[i];
        assert(problem.grid_holds(p));
        assert(in_range(problem.hole@[0]));
        lemma_box_in_range(problem.hole@, problem.bbox_min, problem.bbox_max);
        lemma_cell_index(problem.bbox_min, problem.bbox_max, p);
    }
}

/// In a valid pose every edge's squared length lies in
/// `[ceil((1 - eps) L), floor((1 + eps) L)]`.
pub proof fn lemma_valid_pose_lengths(problem: &Problem, pose: Seq<Point>)
    requires
        problem.wf(),
        problem.valid(pose),
    ensures
        forall|e: int|
            0 <= e < problem.figure.edges@.len() ==> {
                let edge = #[trigger] problem.figure.edges@[e];
                let d = dist2(pose[edge.v0 as int], pose[edge.v1 as int]);
                len2_lower(edge.len2 as int, problem.figure.epsilon as int) <= d <= len2_upper(
                    edge.len2 as int,
                    problem.figure.epsilon as int,
                )
            },
{
    assert forall|e: int| 0 <= e < problem.figure.edges@.len() implies {
        let edge = #[trigger] problem.figure.edges@[e];
        let d = dist2(pose[edge.v0 as int], pose[edge.v1 as int]);
        len2_lower(edge.len2 as int, problem.figure.epsilon as int) <= d <= len2_upper(
            edge.len2 as int,
            problem.figure.epsilon as int,
        )
    } by {
        let edge = problem.figure.edges@[e];
        assert(edge_ok(edge, problem.figure.vertices@.len() as int));
        lemma_bounds_match_tolerance(
            dist2(pose[edge.v0 as int], pose[edge.v1 as int]),
            edge.len2 as int,
            problem.figure.epsilon as int,
        );
    }
}

pub proof fn lemma_box_in_range(s: Seq<Point>, mn: Point, mx: Point)
    requires
        all_in_range(s),
        is_bbox(s, mn, mx),
    ensures
        in_range(mn),
        in_range(mx),
        mn.x <= mx.x,
        mn.y <= mx.y,
{
    let j = choose|j: int| 0 <= j < s.len() && (#[trigger] s[j]).x == mx.x;
    assert(in_range(s[j]));
    let j = choose|j: int| 0 <= j < s.len() && (#[trigger] s[j]).y == mx.y;
    assert(in_range(s[j]));
    let j = choose|j: int| 0 <= j < s.len() && (#[trigger] s[j]).x == mn.x;
    assert(in_range(s[j]));
    let j = choose|j: int| 0 <= j < s.len() && (#[trigger] s[j]).y == mn.y;
    assert(in_range(s[j]));
}

} // verus!
