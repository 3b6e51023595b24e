use hole_fit::delta::build_delta_table;
use hole_fit::figure::Figure;
use hole_fit::geometry::Point;
use hole_fit::problem::{Pose, Problem, ServerState};
use hole_fit::search::{branch_deadline, past_deadline, prepare, tree_search, MAX_SEARCH_VERTICES};
use hole_fit::solver::{IdSolver, Solver, TreeSearchSolver};

fn pt(x: i64, y: i64) -> Point {
    Point { x, y }
}

fn pts(v: &[(i64, i64)]) -> Vec<Point> {
    v.iter().map(|&(x, y)| pt(x, y)).collect()
}

fn square_problem() -> Problem {
    Problem::from_parts(
        1,
        pts(&[(0, 0), (4, 0), (4, 4), (0, 4)]),
        pts(&[(0, 0), (2, 0)]),
        vec![(0, 1)],
        0,
        vec![],
    )
    .unwrap()
}

fn triangle_problem() -> Problem {
    Problem::from_parts(
        2,
        pts(&[(0, 0), (3, 0), (0, 4)]),
        pts(&[(10, 10), (13, 10), (10, 14)]),
        vec![(0, 1), (1, 2), (2, 0)],
        0,
        vec![],
    )
    .unwrap()
}

#[test]
fn square_two_vertices_keep_length() {
    let problem = square_problem();
    let solver = TreeSearchSolver { timeout_ms: None, coverage_slack: None };
    let poses = solver.solve_gen(&problem, problem.figure.get_default_pose());
    assert!(poses.len() >= 2);
    for pose in &poses[1..] {
        assert!(problem.validate(pose));
        let a = pose.vertices[0];
        let b = pose.vertices[1];
        assert_eq!(Figure::distance_squared_int(a, b), 4);
        for p in &pose.vertices {
            assert!(p.x >= 0 && p.x <= 4 && p.y >= 0 && p.y <= 4);
        }
    }
}

#[test]
fn square_dislikes_from_corners() {
    let problem = square_problem();
    let pose = Pose::new(pts(&[(0, 0), (0, 2)]));
    // corners: (0,0) -> 0, (4,0) -> 16, (4,4) -> 20, (0,4) -> 4
    assert_eq!(problem.dislikes(&pose), 40);
    assert!(problem.validate(&pose));
}

#[test]
fn triangle_into_congruent_hole_reaches_zero() {
    let problem = triangle_problem();
    let solver = TreeSearchSolver::default();
    let poses = solver.solve_gen(&problem, problem.figure.get_default_pose());
    let last = poses.last().unwrap();
    assert!(problem.validate(last));
    assert_eq!(problem.dislikes(last), 0);
    let solution = solver.solve(&problem, ServerState::new());
    assert_eq!(solution.state.dislikes, 0);
    assert!(solution.state.valid);
    assert!(solution.state.optimal);
}

#[test]
fn oversized_figure_is_declined() {
    let n = MAX_SEARCH_VERTICES + 1;
    let vertices: Vec<Point> = (0..n as i64).map(|i| pt(i, 0)).collect();
    let edges: Vec<(usize, usize)> = (0..n - 1).map(|i| (i, i + 1)).collect();
    let problem =
        Problem::from_parts(3, pts(&[(0, 0), (40, 0), (40, 40), (0, 40)]), vertices.clone(), edges, 0, vec![])
            .unwrap();
    let poses = TreeSearchSolver::default().solve_gen(&problem, problem.figure.get_default_pose());
    assert_eq!(poses.len(), 1);
    assert_eq!(poses[0].vertices, vertices);
}

#[test]
fn streamed_dislikes_strictly_decrease() {
    let problem = Problem::from_parts(
        4,
        pts(&[(0, 0), (6, 0), (6, 5), (0, 5)]),
        pts(&[(0, 0), (3, 0), (3, 3)]),
        vec![(0, 1), (1, 2)],
        0,
        vec![],
    )
    .unwrap();
    let outcome = tree_search(&problem, &problem.figure.get_default_pose(), None, None);
    assert!(!outcome.poses.is_empty());
    for i in 1..outcome.scores.len() {
        assert!(outcome.scores[i] < outcome.scores[i - 1]);
    }
    for (pose, score) in outcome.poses.iter().zip(outcome.scores.iter()) {
        assert!(problem.validate(pose));
        assert_eq!(problem.dislikes(pose), *score);
    }
}

#[test]
fn search_is_deterministic() {
    let problem = triangle_problem();
    let a = tree_search(&problem, &problem.figure.get_default_pose(), None, Some(3));
    let b = tree_search(&problem, &problem.figure.get_default_pose(), None, Some(3));
    assert_eq!(a.scores, b.scores);
    assert_eq!(a.poses.len(), b.poses.len());
    for (x, y) in a.poses.iter().zip(b.poses.iter()) {
        assert_eq!(x.vertices, y.vertices);
    }
}

#[test]
fn placing_and_unplacing_restores_grids() {
    let problem = triangle_problem();
    let start = problem.figure.get_default_pose();
    let (plan, mut runner) = prepare(&problem, &start, None).unwrap();
    let can_place = runner.can_place.clone();
    let consumed = runner.consumed.clone();
    let covered = runner.covered.clone();
    let pose = runner.pose.clone();
    // a corner cell of the hole, then one outside it
    for k in [0usize, plan.cells - 1] {
        runner.try_candidate(&plan, &problem, 0, k);
        assert_eq!(runner.can_place, can_place);
        assert_eq!(runner.consumed, consumed);
        assert_eq!(runner.covered, covered);
        assert_eq!(runner.pose, pose);
    }
}

#[test]
fn validate_is_repeatable() {
    let problem = square_problem();
    let good = Pose::new(pts(&[(0, 0), (2, 0)]));
    let bad = Pose::new(pts(&[(0, 0), (3, 0)]));
    let outside = Pose::new(pts(&[(5, 0), (5, 2)]));
    for _ in 0..3 {
        assert!(problem.validate(&good));
        assert!(!problem.validate(&bad));
        assert!(!problem.validate(&outside));
    }
}

#[test]
fn delta_table_buckets_are_exact() {
    let t = build_delta_table(25);
    assert_eq!(t.len(), 26);
    assert_eq!(t[0], vec![(0, 0)]);
    for (d, bucket) in t.iter().enumerate() {
        for (i, &(dx, dy)) in bucket.iter().enumerate() {
            assert_eq!((dx * dx + dy * dy) as usize, d);
            assert!(!bucket[..i].contains(&(dx, dy)));
        }
    }
    assert_eq!(t[25].len(), 12);
    assert_eq!(t[1].len(), 4);
    assert_eq!(t[2].len(), 4);
    assert_eq!(t[3].len(), 0);
    for dx in -5i64..=5 {
        for dy in -5i64..=5 {
            let d = (dx * dx + dy * dy) as usize;
            if d <= 25 {
                assert!(t[d].contains(&(dx, dy)));
            }
        }
    }
}

#[test]
fn timed_search_still_streams_valid_poses() {
    let problem = square_problem();
    let solver = TreeSearchSolver { timeout_ms: Some(0), coverage_slack: None };
    let poses = solver.solve_gen(&problem, problem.figure.get_default_pose());
    for pose in &poses[1..] {
        assert!(problem.validate(pose));
    }
}

#[test]
fn order_covers_disconnected_figures() {
    let problem = Problem::from_parts(
        5,
        pts(&[(0, 0), (9, 0), (9, 9), (0, 9)]),
        pts(&[(0, 0), (1, 0), (5, 5), (6, 5), (7, 5)]),
        vec![(0, 1), (2, 3), (3, 4)],
        0,
        vec![],
    )
    .unwrap();
    let order = hole_fit::search::placement_order(&problem.figure);
    assert_eq!(order, vec![0, 1, 2, 3, 4]);
    let (plan, _) = prepare(&problem, &problem.figure.get_default_pose(), None).unwrap();
    assert_eq!(plan.forward[0], vec![(0, 1)]);
    assert_eq!(plan.forward[1], vec![]);
    assert_eq!(plan.forward[3], vec![(2, 4)]);
    assert_eq!(plan.bounds, vec![(1, 1), (1, 1), (1, 1)]);
    assert_eq!(plan.table.len(), 163);
}

#[test]
fn exhaustive_search_reaches_the_optimum() {
    let problem = Problem::from_parts(
        6,
        pts(&[(0, 0), (5, 0), (5, 2), (2, 2), (2, 5), (0, 5)]),
        pts(&[(0, 0), (2, 0), (2, 1)]),
        vec![(0, 1), (1, 2)],
        0,
        vec![],
    )
    .unwrap();
    let outcome = tree_search(&problem, &problem.figure.get_default_pose(), None, None);
    let mut best = u64::MAX;
    for a in 0..36i64 {
        for b in 0..36i64 {
            for c in 0..36i64 {
                let pose = Pose::new(vec![pt(a / 6, a % 6), pt(b / 6, b % 6), pt(c / 6, c % 6)]);
                if problem.validate(&pose) {
                    best = best.min(problem.dislikes(&pose));
                }
            }
        }
    }
    assert!(best < u64::MAX);
    assert_eq!(*outcome.scores.last().unwrap(), best);
}

#[test]
fn deadline_passes_only_when_set_and_exceeded() {
    assert!(!past_deadline(1_000, None));
    assert!(!past_deadline(100, Some(100)));
    assert!(past_deadline(101, Some(100)));
}

#[test]
fn timeout_divided_over_root_branches() {
    assert_eq!(branch_deadline(1_000, 3, 0), 333);
    assert_eq!(branch_deadline(1_000, 3, 2), 999);
    assert_eq!(branch_deadline(1_000, 3, 3), 1_000);
    assert_eq!(branch_deadline(1_000, 0, 0), 1_000);
}

#[test]
fn perfect_fit_found_with_pruning_on() {
    let problem = triangle_problem();
    let outcome = tree_search(&problem, &problem.figure.get_default_pose(), None, Some(0));
    assert_eq!(*outcome.scores.last().unwrap(), 0);
    let solution = TreeSearchSolver::default().solve(&problem, ServerState::new());
    assert_eq!(solution.state.dislikes, 0);
    assert!(solution.state.valid && solution.state.optimal);
}
