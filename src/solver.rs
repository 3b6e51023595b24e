//! Solver strategies: each turns a problem and a starting pose into a
//! sequence of poses, the starting one first and then each improvement.

use crate::problem::{dislikes_of, Pose, Problem, ServerState, Solution, SolutionState};
use crate::search::{search_applies, tree_search, MAX_SEARCH_VERTICES};
use vstd::prelude::*;

verus! {

/// Default pruning slack on hole-vertex coverage.
pub const COVERAGE_SLACK: usize = 3;

/// The starting pose, then poses that are each valid and strictly better
/// than the one before them.
pub open spec fn improving_sequence(problem: &Problem, start: Seq<crate::geometry::Point>, r: Seq<Pose>) -> bool {
    &&& r.len() >= 1
    &&& r[0].vertices@ == start
    &&& forall|i: int| 1 <= i < r.len() ==> #[trigger] problem.valid(r[i].vertices@)
    &&& forall|i: int, j: int|
        1 <= i < j < r.len() ==> dislikes_of(problem.hole@, r[j].vertices@) < dislikes_of(
            problem.hole@,
            r[i].vertices@,
        )
}

/// The last pose of `r` has no more dislikes than any valid pose.
pub open spec fn ends_optimal(problem: &Problem, r: Seq<Pose>) -> bool {
    forall|goal: Seq<crate::geometry::Point>|
        #[trigger] problem.valid(goal) ==> r.len() > 1 && dislikes_of(problem.hole@, r.last().vertices@) <= dislikes_of(
            problem.hole@,
            goal,
        )
}

/// Two runs that each end optimal, from whatever starting poses, on a
/// problem that has a valid pose, end on the same dislikes: the exact
/// search's result does not depend on the run.
pub proof fn lemma_exact_runs_agree(
    problem: &Problem,
    start_a: Seq<crate::geometry::Point>,
    start_b: Seq<crate::geometry::Point>,
    a: Seq<Pose>,
    b: Seq<Pose>,
    goal: Seq<crate::geometry::Point>,
)
    requires
        improving_sequence(problem, start_a, a),
        improving_sequence(problem, start_b, b),
        ends_optimal(problem, a),
        ends_optimal(problem, b),
        problem.valid(goal),
    ensures
        dislikes_of(problem.hole@, a.last().vertices@) == dislikes_of(problem.hole@, b.last().vertices@),
{
    assert(a.len() > 1 && b.len() > 1);
    assert(problem.valid(a[a.len() - 1].vertices@));
    assert(problem.valid(b[b.len() - 1].vertices@));
}

/// Some valid pose has no dislikes.
pub open spec fn perfect_exists(problem: &Problem) -> bool {
    exists|goal: Seq<crate::geometry::Point>| #[trigger] problem.valid(goal) && dislikes_of(problem.hole@, goal) == 0
}

/// A strategy for fitting the figure into the hole.
pub trait Solver {
    /// The strategy hands back the starting pose alone on `problem`.
    spec fn declines(&self, problem: &Problem) -> bool;

    /// The strategy's last pose on `problem` is optimal among valid poses.
    spec fn exact(&self, problem: &Problem) -> bool;

    /// On `problem` the strategy reaches no dislikes wherever a valid pose has none.
    spec fn finds_perfect(&self, problem: &Problem) -> bool;

    /// The poses produced from `pose`: `pose` itself first, then each improvement.
    fn solve_gen(&self, problem: &Problem, pose: Pose) -> (r: Vec<Pose>)
        requires
            problem.wf(),
            problem.pose_ok(pose.vertices@),
        ensures
            improving_sequence(problem, pose.vertices@, r@),
            self.declines(problem) ==> r@.len() == 1,
            self.exact(problem) ==> ends_optimal(problem, r@),
            self.finds_perfect(problem) && perfect_exists(problem) ==> r@.len() > 1 && dislikes_of(
                problem.hole@,
                r@.last().vertices@,
            ) == 0,
    ;

    /// Runs the strategy from the undeformed figure and scores the last pose.
    fn solve(&self, problem: &Problem, server_state: ServerState) -> (r: Solution)
        requires
            problem.wf(),
        ensures
            exists|s: Seq<Pose>|
                #[trigger] improving_sequence(problem, problem.figure.vertices@, s) && s.last() == r.pose && (self.declines(
                    problem,
                ) ==> s.len() == 1) && (self.exact(problem) ==> ends_optimal(problem, s)),
            self.declines(problem) ==> r.pose.vertices@ == problem.figure.vertices@,
            self.exact(problem) ==> forall|goal: Seq<crate::geometry::Point>|
                #[trigger] problem.valid(goal) ==> r.state.valid && r.state.dislikes <= dislikes_of(problem.hole@, goal),
            self.finds_perfect(problem) && perfect_exists(problem) ==> r.state.valid && r.state.dislikes == 0 && r.state.optimal,
            r.id == problem.id,
            r.server_state == server_state,
            r.state.dislikes == dislikes_of(problem.hole@, r.pose.vertices@),
            r.state.valid == problem.valid(r.pose.vertices@),
            r.state.optimal == (r.state.dislikes == 0 || r.pose.optimal == Some(true)),
    {
        let initial = problem.figure.get_default_pose();
        let mut poses = self.solve_gen(problem, initial);
        let ghost all = poses@;
        let pose = poses.pop().unwrap();
        assert(all.last() == pose);
        proof {
            if self.declines(problem) {
                assert(pose == all[0]);
            }
            if self.finds_perfect(problem) && perfect_exists(problem) {
                assert(all.len() > 1);
                assert(problem.valid(all[all.len() - 1].vertices@));
            }
            if self.exact(problem) {
                assert forall|goal: Seq<crate::geometry::Point>| #[trigger] problem.valid(goal) implies problem.valid(
                    pose.vertices@,
                ) by {
                    assert(all.len() > 1);
                    assert(problem.valid(all[all.len() - 1].vertices@));
                }
            }
        }
        assert(problem.pose_ok(pose.vertices@)) by {
            if poses@.len() > 0 {
                assert(problem.valid(pose.vertices@));
            }
        }
        let dislikes = problem.dislikes(&pose);
        let valid = problem.validate(&pose);
        let optimal = dislikes == 0 || match pose.optimal {
            Some(b) => b,
            None => false,
        };
        let state = SolutionState { dislikes, valid, optimal };
        Solution { id: problem.id, pose, state, server_state }
    }
}

/// Hands back the starting pose unchanged.
pub struct IdSolver {}

impl Solver for IdSolver {
    open spec fn declines(&self, problem: &Problem) -> bool {
        true
    }

    open spec fn exact(&self, problem: &Problem) -> bool {
        false
    }

    open spec fn finds_perfect(&self, problem: &Problem) -> bool {
        false
    }

    fn solve_gen(&self, problem: &Problem, pose: Pose) -> (r: Vec<Pose>) {
        let mut r: Vec<Pose> = Vec::new();
        r.push(pose);
        r
    }
}

/// The exact backtracking tree search.
pub struct TreeSearchSolver {
    /// Wall-clock budget in milliseconds; `None` searches to completion.
    pub timeout_ms: Option<u64>,
    /// Pruning slack on hole-vertex coverage; `None` turns the pruning off.
    pub coverage_slack: Option<usize>,
}

impl Default for TreeSearchSolver {
    fn default() -> (r: TreeSearchSolver)
        ensures
            r.timeout_ms.is_none(),
            r.coverage_slack == Some(COVERAGE_SLACK),
    {
        TreeSearchSolver { timeout_ms: None, coverage_slack: Some(COVERAGE_SLACK) }
    }
}

impl Solver for TreeSearchSolver {
    /// Figures above the search's size limit are declined.
    open spec fn declines(&self, problem: &Problem) -> bool {
        problem.figure.vertices@.len() > MAX_SEARCH_VERTICES
    }

    /// Run to the end, with neither pruning nor a timeout, on a problem that
    /// the search takes on.
    open spec fn exact(&self, problem: &Problem) -> bool {
        self.timeout_ms is None && self.coverage_slack is None && search_applies(problem)
    }

    /// Run to the end on a problem that the search takes on, whose hole
    /// vertices are distinct points; the pruning may be on.
    open spec fn finds_perfect(&self, problem: &Problem) -> bool {
        self.timeout_ms is None && search_applies(problem) && problem.hole@.no_duplicates()
    }

    fn solve_gen(&self, problem: &Problem, pose: Pose) -> (r: Vec<Pose>) {
        let outcome = tree_search(problem, &pose, self.timeout_ms, self.coverage_slack);
        let mut rest = outcome.poses;
        let ghost found = rest@;
        let mut r: Vec<Pose> = Vec::new();
        r.push(pose);
        r.append(&mut rest);
        proof {
            assert forall|i: int| 1 <= i < r@.len() implies #[trigger] problem.valid(r@[i].vertices@) by {
                assert(r@[i] == found[i - 1]);
            }
            assert forall|i: int, j: int| 1 <= i < j < r@.len() implies dislikes_of(problem.hole@, r@[j].vertices@)
                < dislikes_of(problem.hole@, r@[i].vertices@) by {
                assert(r@[i] == found[i - 1]);
                assert(r@[j] == found[j - 1]);
                assert(outcome.scores@[j - 1] < outcome.scores@[i - 1]);
            }
            assert(r@.len() == found.len() + 1);
            if found.len() > 0 {
                assert(r@.last() == found.last());
                assert(outcome.scores@[found.len() - 1] == dislikes_of(problem.hole@, found[found.len() - 1].vertices@));
            }
        }
        r
    }
}

} // verus!
