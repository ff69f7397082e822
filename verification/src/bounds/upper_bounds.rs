//! Upper bounds: schedules found by heuristics.
pub mod lpt;
pub mod lptp;
pub mod lptpp;
pub mod mss;
pub mod subset_sum;
pub mod upper_bound;
