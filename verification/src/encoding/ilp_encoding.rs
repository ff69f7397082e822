//! The integer linear programs.
pub mod mehdi_nizar_prec;
pub mod naive;
