//! A complete schedule: which processor each job goes to, and the makespan it reaches.
use vstd::prelude::*;
use crate::common::common::max_load;
use crate::problem_instance::problem_instance::ProblemInstance;

verus! {

/// `assignment[j]` is the processor of job `j`; `makespan` the largest processor load.
#[derive(Clone, Debug)]
pub struct Solution {
    pub makespan: usize,
    pub assignment: Vec<usize>,
}

impl Solution {
    /// A schedule of `problem`: each job on one of its processors, with the makespan that
    /// this assignment reaches.
    pub open spec fn valid_for(&self, problem: &ProblemInstance) -> bool {
        &&& self.assignment.len() == problem.num_jobs
        &&& forall|j: int| 0 <= j < self.assignment.len() ==> #[trigger] self.assignment[j] < problem.num_processors
        &&& self.makespan == max_load(problem.job_sizes@, self.assignment@, problem.num_processors as int)
    }
}

} // verus!
