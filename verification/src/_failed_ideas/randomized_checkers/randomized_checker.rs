//! A check that may answer "a schedule within the makespan exists" by finding one.
use vstd::prelude::*;
use crate::common::timeout::Timeout;
use crate::problem_instance::partial_solution::PartialSolution;
use crate::problem_instance::solution::Solution;

verus! {

/// Looks for a schedule of `part` within `makespan_to_test`; `None` when none was found.
pub trait RandomizedChecker {
    fn is_sat(&self, part: &PartialSolution, makespan_to_test: usize, timeout: &Timeout) -> Option<Solution>;
}

} // verus!
