//! Lower and upper bounds on the optimal makespan.
pub mod bound;
pub mod lower_bounds;
pub mod upper_bounds;
