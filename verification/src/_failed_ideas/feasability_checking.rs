//! Quick tests of whether a makespan can be met at all.
pub mod feasability_checker;
pub mod subset_sum;
