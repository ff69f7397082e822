//! The common interface of the bounds, and facts about the loads of every schedule that
//! the lower bounds rest on.
use vstd::prelude::*;
use crate::common::common::lemma_load_nonneg;
use crate::common::common::lemma_max_load;
use crate::common::common::load;
use crate::common::common::max_load;
use crate::common::common::prefix_total;
use crate::common::timeout::Timeout;
use crate::problem_instance::problem_instance::ProblemInstance;
use crate::problem_instance::solution::Solution;

verus! {

/// A bound takes the best known lower bound and schedule and improves on them.
pub trait Bound {
    /// The inputs on which this bound can run.
    spec fn bound_requires(&self, problem: &ProblemInstance, lower_bound: usize, upper_bound: Option<Solution>) -> bool;

    fn bound(
        &self,
        problem: &ProblemInstance,
        lower_bound: usize,
        upper_bound: Option<Solution>,
        timeout: &Timeout,
    ) -> (usize, Option<Solution>)
        requires
            self.bound_requires(problem, lower_bound, upper_bound),
    ;
}

/// The loads of the processors `0..m` added up, counting the first `k` jobs.
pub open spec fn sum_loads(sizes: Seq<usize>, assignment: Seq<usize>, m: int, k: int) -> int
    decreases m,
{
    if m <= 0 {
        0
    } else {
        sum_loads(sizes, assignment, m - 1, k) + load(sizes, assignment, m - 1, k)
    }
}

/// Adding one job to the count adds its size to the processor it is on, if that is
/// among `0..m`.
proof fn lemma_sum_loads_step(sizes: Seq<usize>, assignment: Seq<usize>, m: int, k: int)
    requires
        0 <= k,
    ensures
        sum_loads(sizes, assignment, m, k + 1) == sum_loads(sizes, assignment, m, k) + if 0 <= assignment[k] < m {
            sizes[k] as int
        } else {
            0
        },
    decreases m,
{
    if m > 0 {
        lemma_sum_loads_step(sizes, assignment, m - 1, k);
    }
}

/// Over a schedule whose jobs all sit on processors `0..m`, the loads add up to the total.
pub proof fn lemma_sum_loads(sizes: Seq<usize>, assignment: Seq<usize>, m: int, k: int)
    requires
        0 <= k <= assignment.len(),
        forall|j: int| 0 <= j < k ==> #[trigger] assignment[j] < m,
    ensures
        sum_loads(sizes, assignment, m, k) == prefix_total(sizes, k),
    decreases k,
{
    if k > 0 {
        lemma_sum_loads(sizes, assignment, m, k - 1);
        lemma_sum_loads_step(sizes, assignment, m, k - 1);
    } else {
        lemma_sum_loads_zero(sizes, assignment, m);
    }
}

proof fn lemma_sum_loads_zero(sizes: Seq<usize>, assignment: Seq<usize>, m: int)
    ensures
        sum_loads(sizes, assignment, m, 0) == 0,
    decreases m,
{
    if m > 0 {
        lemma_sum_loads_zero(sizes, assignment, m - 1);
    }
}

/// `m` times the largest load is at least the sum of the loads.
pub proof fn lemma_sum_loads_le(sizes: Seq<usize>, assignment: Seq<usize>, m: int, mm: int)
    requires
        0 <= m <= mm,
    ensures
        sum_loads(sizes, assignment, m, assignment.len() as int) <= m * max_load(sizes, assignment, mm),
    decreases m,
{
    lemma_max_load(sizes, assignment, mm);
    if m > 0 {
        lemma_sum_loads_le(sizes, assignment, m - 1, mm);
        let x = max_load(sizes, assignment, mm);
        assert(load(sizes, assignment, m - 1, assignment.len() as int) <= x + 0 * (m - 1));
        assert((m - 1) * x + x == m * x) by (nonlinear_arith);
    }
}

/// The processor of a job carries at least the job's size.
pub proof fn lemma_load_at_least(sizes: Seq<usize>, assignment: Seq<usize>, j: int, k: int)
    requires
        0 <= j < k,
    ensures
        load(sizes, assignment, assignment[j] as int, k) >= sizes[j],
    decreases k,
{
    let p = assignment[j] as int;
    if j < k - 1 {
        lemma_load_at_least(sizes, assignment, j, k - 1);
    } else {
        lemma_load_nonneg(sizes, assignment, p, k - 1);
    }
}

/// A valid schedule's makespan is at least every load.
pub proof fn lemma_makespan_bounds_load(s: Solution, problem: ProblemInstance, p: int)
    requires
        s.valid_for(&problem),
        0 <= p < problem.num_processors,
    ensures
        load(problem.job_sizes@, s.assignment@, p, s.assignment.len() as int) <= s.makespan,
{
    lemma_max_load(problem.job_sizes@, s.assignment@, problem.num_processors as int);
    assert(load(problem.job_sizes@, s.assignment@, p, s.assignment@.len() as int) <= max_load(problem.job_sizes@, s.assignment@, problem.num_processors as int) + 0 * p);
}

} // verus!
