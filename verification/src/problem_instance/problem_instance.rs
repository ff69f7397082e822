//! An instance of P||Cmax: a number of identical processors and the sizes of the jobs.
use vstd::prelude::*;

verus! {

/// Jobs of the given sizes to be put on `num_processors` identical processors.
#[derive(Clone, Debug)]
pub struct ProblemInstance {
    pub num_processors: usize,
    pub num_jobs: usize,
    pub job_sizes: Vec<usize>,
}

impl ProblemInstance {
    /// Well formed: one size per job.
    pub open spec fn wf(&self) -> bool {
        self.job_sizes.len() == self.num_jobs
    }

    /// The job sizes are in non-increasing order, as the bounds expect.
    pub open spec fn sorted(&self) -> bool {
        forall|i: int, j: int| 0 <= i <= j < self.job_sizes.len() ==> self.job_sizes[i] >= self.job_sizes[j]
    }

    pub fn new(num_processors: usize, num_jobs: usize, job_sizes: Vec<usize>) -> (p: ProblemInstance)
        ensures
            p.num_processors == num_processors,
            p.num_jobs == num_jobs,
            p.job_sizes@ == job_sizes@,
    {
        ProblemInstance { num_processors, num_jobs, job_sizes }
    }
}

} // verus!
