//! Shared helpers: the makespan of a schedule, searching a vector, and a time limit.
pub mod bits;
pub mod common;
pub mod timeout;
