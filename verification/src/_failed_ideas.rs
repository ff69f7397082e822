//! Approaches that were tried and set aside, kept for comparison.
pub mod encoders;
pub mod feasability_checking;
pub mod randomized_checkers;
