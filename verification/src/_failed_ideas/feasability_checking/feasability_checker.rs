//! A test that, for a makespan, finds the next makespan that is not ruled out.
use vstd::prelude::*;
use crate::problem_instance::partial_solution::PartialSolution;

verus! {

/// Finds, from `makespan_to_check` down to `lower_bound`, a makespan that is not ruled out.
pub trait FeasabilityChecker {
    /// The inputs on which the test runs.
    spec fn check_requires(&self, partial_solution: &PartialSolution, makespan_to_check: usize) -> bool;

    fn get_next_feasable(
        &self,
        partial_solution: &PartialSolution,
        makespan_to_check: usize,
        lower_bound: usize,
    ) -> (r: Option<usize>)
        requires
            self.check_requires(partial_solution, makespan_to_check),
        ensures
            r matches Some(v) ==> v <= makespan_to_check,
    ;
}

} // verus!
