//! A lower bound computed from the instance alone.
use vstd::prelude::*;
use crate::problem_instance::problem_instance::ProblemInstance;

verus! {

pub trait LowerBound {
    /// The instances on which this bound can run.
    spec fn lower_bound_requires(&self, problem: &ProblemInstance) -> bool;

    fn get_lower_bound(&self, problem: &ProblemInstance) -> usize
        requires
            self.lower_bound_requires(problem),
    ;
}

} // verus!
