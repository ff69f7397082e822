//! The scheduling problem: jobs of given sizes on identical processors.
pub mod partial_solution;
pub mod problem_instance;
pub mod solution;
