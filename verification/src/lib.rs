//! Building blocks of a SAT-based solver for makespan scheduling on identical
//! processors (P||Cmax): clause encodings of binary arithmetic, cardinality
//! networks and decision diagrams, problem encodings, and bounds on the makespan.
pub mod _failed_ideas;
pub mod bdd;
pub mod bounds;
pub mod common;
pub mod encoding;
pub mod problem_instance;
