//! Encoders that write a model for the CPLEX optimiser, whose answer they read back.
use vstd::prelude::*;
use crate::common::timeout::Timeout;
use crate::problem_instance::partial_solution::PartialSolution;
use crate::problem_instance::problem_instance::ProblemInstance;
use crate::problem_instance::solution::Solution;

verus! {

/// Writes a model of "a schedule of at most `makespan`", names the model file it goes
/// with, and reads the optimiser's answer back as a schedule.
pub trait CPLEXModelEncoder {
    fn encode(
        &mut self,
        partial_solution: &PartialSolution,
        lower_bounds: usize,
        makespan: usize,
        timeout: &Timeout,
    ) -> bool;

    fn get_encoding(&self) -> String;

    fn get_mod_file_path(&self) -> String;

    fn decode(&self, instance: &ProblemInstance, solution: String) -> Solution;
}

} // verus!
