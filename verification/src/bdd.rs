//! Decision diagrams for sums of job sizes, and the table of remaining capacities that
//! decides which of their nodes can be merged.
pub mod bdd;
pub mod bdd_dyn;
pub mod compressed_ret;
