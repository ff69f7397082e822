//! No schedule is shorter than its largest job.
use vstd::prelude::*;
use crate::bounds::bound::Bound;
use crate::bounds::bound::lemma_load_at_least;
use crate::bounds::bound::lemma_makespan_bounds_load;
use crate::common::timeout::Timeout;
use crate::problem_instance::problem_instance::ProblemInstance;
use crate::problem_instance::solution::Solution;

verus! {

pub struct MaxJobSize {}

impl Bound for MaxJobSize {
    open spec fn bound_requires(&self, problem: &ProblemInstance, lower_bound: usize, upper_bound: Option<Solution>) -> bool {
        problem.job_sizes.len() > 0
    }

    /// The size of the first job (the largest, in a sorted instance), unless the given lower
    /// bound is larger; the schedule is handed back.
    fn bound(
        &self,
        problem: &ProblemInstance,
        lower_bound: usize,
        upper_bound: Option<Solution>,
        timeout: &Timeout,
    ) -> (r: (usize, Option<Solution>))
        ensures
            r.0 == if problem.job_sizes[0] >= lower_bound { problem.job_sizes[0] } else { lower_bound },
            r.1 == upper_bound,
    {
        let new_lower_bound = problem.job_sizes[0];
        if new_lower_bound >= lower_bound {
            (new_lower_bound, upper_bound)
        } else {
            (lower_bound, upper_bound)
        }
    }
}

/// No schedule has a makespan below the size of any of its jobs.
pub proof fn max_job_size_is_lower_bound(problem: ProblemInstance, s: Solution, j: int)
    requires
        problem.wf(),
        s.valid_for(&problem),
        0 <= j < problem.num_jobs,
    ensures
        problem.job_sizes[j] <= s.makespan,
{
    lemma_load_at_least(problem.job_sizes@, s.assignment@, j, s.assignment.len() as int);
    lemma_makespan_bounds_load(s, problem, s.assignment[j] as int);
}

} // verus!
