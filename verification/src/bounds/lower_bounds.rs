//! Lower bounds: makespans below which no schedule exists.
pub mod fs;
pub mod lifting;
pub mod lifting_weak;
pub mod lower_bound;
pub mod lpt;
pub mod martello_toth;
pub mod max_job_size;
pub mod middle;
pub mod pigeon_hole;
pub mod sss_bound_tightening;
