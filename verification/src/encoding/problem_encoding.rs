//! How a schedule is represented by variables.
pub mod one_hot_encoding;
