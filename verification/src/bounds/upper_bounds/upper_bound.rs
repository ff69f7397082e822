//! A first schedule computed from the instance alone.
use vstd::prelude::*;
use crate::problem_instance::problem_instance::ProblemInstance;
use crate::problem_instance::solution::Solution;

verus! {

pub trait InitialUpperBound {
    /// The instances on which this bound can run.
    spec fn upper_bound_requires(&self, instance: &ProblemInstance) -> bool;

    /// A schedule of the instance.
    fn get_upper_bound(&self, instance: &ProblemInstance) -> Solution
        requires
            self.upper_bound_requires(instance),
    ;
}

} // verus!
