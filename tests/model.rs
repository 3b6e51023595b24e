use hole_fit::figure::EdgeTestResult;
use hole_fit::geometry::Point;
use hole_fit::order::{find_cycles, topsort};
use hole_fit::problem::{BonusType, InputError, Pose, Problem, ServerState, SolutionState};
use hole_fit::solver::{IdSolver, Solver};

fn pt(x: i64, y: i64) -> Point {
    Point { x, y }
}

fn pts(v: &[(i64, i64)]) -> Vec<Point> {
    v.iter().map(|&(x, y)| pt(x, y)).collect()
}

fn u_shape() -> Problem {
    // a U: the notch between x = 2 and x = 4 is open from y = 2 upwards
    Problem::from_parts(
        7,
        pts(&[(0, 0), (6, 0), (6, 6), (4, 6), (4, 2), (2, 2), (2, 6), (0, 6)]),
        pts(&[(0, 0), (1, 0)]),
        vec![(0, 1)],
        0,
        vec![],
    )
    .unwrap()
}

#[test]
fn edge_bounds_round_inward() {
    let problem = Problem::from_parts(
        1,
        pts(&[(0, 0), (20, 0), (20, 20), (0, 20)]),
        pts(&[(0, 0), (10, 0), (0, 0), (2, 1)]),
        vec![(0, 1), (2, 3)],
        150_000,
        vec![],
    )
    .unwrap();
    // L = 100: [85, 115]
    assert_eq!(problem.figure.edge_len2_bounds_int(0), (85, 115));
    // L = 5: 4.25 rounds up to 5, 5.75 rounds down to 5
    assert_eq!(problem.figure.edge_len2_bounds_int(1), (5, 5));
}

#[test]
fn edge_bounds_past_full_tolerance() {
    let problem = Problem::from_parts(
        1,
        pts(&[(0, 0), (20, 0), (20, 20), (0, 20)]),
        pts(&[(0, 0), (10, 0)]),
        vec![(0, 1)],
        2_500_000,
        vec![],
    )
    .unwrap();
    // L = 100, eps = 2.5: [-150, 350]
    assert_eq!(problem.figure.edge_len2_bounds_int(0), (-150, 350));
}

#[test]
fn edge_test_outcomes() {
    let problem = Problem::from_parts(
        1,
        pts(&[(0, 0), (20, 0), (20, 20), (0, 20)]),
        pts(&[(0, 0), (10, 0)]),
        vec![(0, 1)],
        150_000,
        vec![],
    )
    .unwrap();
    let f = &problem.figure;
    let pose = |x: i64, y: i64| Pose::new(vec![pt(0, 0), pt(x, y)]);
    assert_eq!(f.test_edge_len2(0, &pose(10, 0)), EdgeTestResult::Fits);
    assert_eq!(f.test_edge_len2(0, &pose(9, 2)), EdgeTestResult::Fits); // 85
    assert_eq!(f.test_edge_len2(0, &pose(9, 1)), EdgeTestResult::TooShort); // 82
    assert_eq!(f.test_edge_len2(0, &pose(10, 3)), EdgeTestResult::Fits); // 109
    assert_eq!(f.test_edge_len2(0, &pose(10, 4)), EdgeTestResult::TooLong); // 116
    assert_eq!(f.edge_len2(0, &pose(10, 4)), 116);
    assert_eq!(f.edge_len2_diff(0, &pose(9, 1)), -18);
    assert!(!problem.correct_length(&pose(10, 4)));
    assert!(problem.correct_length(&pose(9, 2)));
}

#[test]
fn grid_lookup_and_bounding_box() {
    let problem = u_shape();
    assert_eq!(problem.bounding_box(), (pt(0, 0), pt(6, 6)));
    assert!(problem.contains_point(&pt(0, 0)));
    assert!(problem.contains_point(&pt(1, 5)));
    assert!(problem.contains_point(&pt(3, 2)));
    assert!(!problem.contains_point(&pt(3, 3)));
    assert!(!problem.contains_point(&pt(7, 0)));
    assert!(!problem.contains_point(&pt(-1, 3)));
}

#[test]
fn segments_in_a_concave_hole() {
    let problem = u_shape();
    // along the bottom edge
    assert!(problem.contains_segment((pt(0, 0), pt(6, 0))));
    // across the notch: leaves the hole
    assert!(!problem.contains_segment((pt(1, 4), pt(5, 4))));
    // along the notch floor, on the boundary
    assert!(problem.contains_segment((pt(1, 2), pt(5, 2))));
    // up the left arm
    assert!(problem.contains_segment((pt(1, 0), pt(1, 6))));
    // from one arm's top corner to the other's, over the notch
    assert!(!problem.contains_segment((pt(2, 6), pt(4, 6))));
    // through the notch corners diagonally inside
    assert!(problem.contains_segment((pt(0, 0), pt(2, 2))));
}

#[test]
fn contains_checks_vertices_and_edges() {
    let problem = u_shape();
    assert!(problem.contains(&Pose::new(pts(&[(1, 1), (5, 1)]))));
    assert!(!problem.contains(&Pose::new(pts(&[(1, 4), (5, 4)]))));
    assert!(!problem.contains(&Pose::new(pts(&[(3, 4), (1, 1)]))));
}

#[test]
fn dislikes_sum_nearest_squares() {
    let problem = u_shape();
    let pose = Pose::new(pts(&[(0, 0), (6, 6)]));
    // (0,0) 0, (6,0) 36, (6,6) 0, (4,6) 4, (4,2) 20, (2,2) 8, (2,6) 16, (0,6) 36
    assert_eq!(problem.dislikes(&pose), 120);
}

#[test]
fn input_errors() {
    let square = pts(&[(0, 0), (4, 0), (4, 4), (0, 4)]);
    let figure = pts(&[(0, 0), (2, 0)]);
    let err = |r: Result<Problem, InputError>| r.err().unwrap();
    assert_eq!(err(Problem::from_parts(1, vec![], figure.clone(), vec![(0, 1)], 0, vec![])), InputError::EmptyHole);
    assert_eq!(
        err(Problem::from_parts(1, pts(&[(0, 0), (2_000_000, 0), (0, 4)]), figure.clone(), vec![(0, 1)], 0, vec![])),
        InputError::CoordinateOutOfRange
    );
    assert_eq!(
        err(Problem::from_parts(1, square.clone(), figure.clone(), vec![(0, 2)], 0, vec![])),
        InputError::EdgeOutOfRange
    );
    assert_eq!(
        err(Problem::from_parts(1, square.clone(), figure.clone(), vec![(0, 1)], 2_000_000_000, vec![])),
        InputError::EpsilonTooLarge
    );
    let big: Vec<Point> = (0..1_000_001).map(|i| pt(i % 1000, i / 1000)).collect();
    assert_eq!(err(Problem::from_parts(1, big, figure.clone(), vec![(0, 1)], 0, vec![])), InputError::HoleTooLarge);
    let p = Problem::from_parts(9, square, figure, vec![(0, 1)], 5, vec![]).unwrap();
    assert_eq!(p.id, 9);
    assert_eq!(p.figure.edges[0].len2, 4);
    assert_eq!(p.figure.epsilon, 5);
    assert_eq!(p.figure.vertex_edges, vec![vec![(0, 1)], vec![(0, 0)]]);
}

#[test]
fn bonus_names() {
    for b in [BonusType::Globalist, BonusType::BreakALeg, BonusType::WallHack, BonusType::SuperFlex] {
        assert_eq!(BonusType::from_name(&b.name()), Some(b));
    }
    assert_eq!(BonusType::BreakALeg.name(), "BREAK_A_LEG");
    assert_eq!(BonusType::from_name("WALLHACK"), Some(BonusType::WallHack));
    assert_eq!(BonusType::from_name("wallhack"), None);
}

#[test]
fn fresh_states() {
    assert_eq!(ServerState::new().dislikes, u64::MAX);
    let s = SolutionState::new();
    assert_eq!(s.dislikes, u64::MAX);
    assert!(!s.valid && !s.optimal);
}

#[test]
fn id_solver_hands_back_its_pose() {
    let problem = u_shape();
    let poses = IdSolver {}.solve_gen(&problem, Pose::new(pts(&[(3, 4), (1, 1)])));
    assert_eq!(poses.len(), 1);
    assert_eq!(poses[0].vertices, pts(&[(3, 4), (1, 1)]));
    let solution = IdSolver {}.solve(&problem, ServerState { dislikes: 7 });
    assert_eq!(solution.id, 7);
    assert_eq!(solution.server_state.dislikes, 7);
    assert_eq!(solution.pose.vertices, pts(&[(0, 0), (1, 0)]));
    assert!(solution.state.valid);
}

#[test]
fn depth_first_order_and_cycles() {
    // a square with one diagonal: 0-1, 1-2, 2-3, 3-0, 0-2
    let edges: Vec<Vec<(usize, usize)>> = vec![
        vec![(0, 1), (3, 3), (4, 2)],
        vec![(0, 0), (1, 2)],
        vec![(1, 1), (2, 3), (4, 0)],
        vec![(2, 2), (3, 0)],
    ];
    let mut order = vec![];
    let mut visited = vec![false; 4];
    let mut parents = vec![(0, 0); 4];
    let mut tree = vec![vec![]; 4];
    topsort(0, None, None, &mut order, &mut visited, &mut parents, &edges, &mut tree);
    assert_eq!(order, vec![0, 1, 2, 3]);
    assert_eq!(parents[1], (0, 0));
    assert_eq!(parents[2], (1, 1));
    assert_eq!(parents[3], (2, 2));
    assert_eq!(tree, vec![vec![(0, 1)], vec![(1, 2)], vec![(2, 3)], vec![]]);
    let mut path = vec![];
    let mut cycles = vec![];
    find_cycles(0, 0, &edges, &tree, &mut path, &mut cycles, 6);
    assert!(path.is_empty());
    assert!(cycles.contains(&vec![(1, 0), (2, 1), (0, 4)]));
    assert!(cycles.contains(&vec![(1, 0), (2, 1), (3, 2), (0, 3)]));
    for c in &cycles {
        assert_eq!(c.last().unwrap().0, 0);
    }
}

#[test]
fn empty_and_out_of_range_poses() {
    let problem = u_shape();
    assert_eq!(problem.dislikes(&Pose::new(vec![])), 0);
    assert!(!problem.validate(&Pose::new(vec![])));
    assert!(!problem.validate(&Pose::new(pts(&[(0, 0), (2_000_000, 0)]))));
}

#[test]
fn cycles_respect_depth_and_long_paths_add_nothing() {
    let edges: Vec<Vec<(usize, usize)>> = vec![
        vec![(0, 1), (3, 3), (4, 2)],
        vec![(0, 0), (1, 2)],
        vec![(1, 1), (2, 3), (4, 0)],
        vec![(2, 2), (3, 0)],
    ];
    let tree = vec![vec![(0, 1)], vec![(1, 2)], vec![(2, 3)], vec![]];
    let mut path = vec![];
    let mut cycles = vec![];
    find_cycles(0, 0, &edges, &tree, &mut path, &mut cycles, 2);
    assert!(!cycles.is_empty());
    for c in &cycles {
        assert!(c.len() <= 3);
    }
    assert!(!cycles.contains(&vec![(1, 0), (2, 1), (3, 2), (0, 3)]));
    let mut long_path = vec![(1, 0), (2, 1), (3, 2)];
    let mut more = vec![];
    find_cycles(0, 3, &edges, &tree, &mut long_path, &mut more, 2);
    assert!(more.is_empty());
    assert_eq!(long_path.len(), 3);
}
