//! Encoders that were tried and set aside.
pub mod basic_with_fill_up;
