//! Checks that fix part of the schedule first and leave the rest to a solver.
pub mod ordered_job_assignment_checker;
pub mod randomized_checker;
