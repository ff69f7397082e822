pub mod basic_encoder;
pub mod binary_arithmetic;
pub mod binmerge_simp;
pub mod cplex_model_encoder;
pub mod encoder;
pub mod fill_up_lite;
pub mod ilp_encoder;
pub mod ilp_encoding;
pub mod pb_bdd_native;
pub mod pb_bdd_pysat;
pub mod problem_encoding;
pub mod random_encoder;
pub mod sat_encoding;
