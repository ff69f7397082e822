pub mod binary_arithmetic;
pub mod cardinality_networks;
pub mod binmerge_native;
pub mod binmerge_inter;
pub mod mehdi_nizar_sat;
pub mod bdd_inter_comp;
pub mod frame;
