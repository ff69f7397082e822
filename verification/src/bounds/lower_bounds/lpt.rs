//! A lower bound from the greedy schedule's guarantee.
use vstd::prelude::*;
use crate::bounds::lower_bounds::lower_bound::LowerBound;
use crate::bounds::upper_bounds::lpt::largest_load;
use crate::bounds::upper_bounds::lpt::lpt_assignment;
use crate::bounds::upper_bounds::lpt::lpt_makespan_bound;
use crate::bounds::upper_bounds::lpt::lpt_schedule;
use crate::common::common::lemma_prefix_total_monotone;
use crate::common::common::max_load;
use crate::common::common::prefix_total;
use crate::problem_instance::problem_instance::ProblemInstance;

verus! {

pub struct LPT {}

impl LowerBound for LPT {
    open spec fn lower_bound_requires(&self, problem: &ProblemInstance) -> bool {
        &&& problem.num_processors >= 1
        &&& 3 * prefix_total(problem.job_sizes@, problem.job_sizes.len() as int) <= usize::MAX
    }

    /// Three quarters of the greedy makespan, plus one.
    fn get_lower_bound(&self, instance: &ProblemInstance) -> (r: usize)
        ensures
            r == max_load(instance.job_sizes@, lpt_assignment(instance.job_sizes@, instance.num_processors as int, instance.job_sizes.len() as int), instance.num_processors as int) * 3 / 4 + 1,
    {
        proof {
            lemma_prefix_total_monotone(instance.job_sizes@, 0, instance.job_sizes.len() as int);
            lpt_makespan_bound(instance.job_sizes@, instance.num_processors as int);
        }
        let (solution, total_sizes) = lpt_schedule(instance);
        let makespan = largest_load(&instance.job_sizes, &solution, &total_sizes);
        (makespan * 3) / 4 + 1
    }
}

} // verus!
