//! Random Cut Forest: configuration, shared point storage, the node arena,
//! tree links and masses, samplers, the forest that ties each tree to its
//! sampler, and the integer checks behind updates, imputation and
//! extrapolation.

pub mod config;
pub mod counting;
pub mod node_arena;
pub mod point_store;
pub mod queries;
pub mod sampled_forest;
pub mod sampled_store;
pub mod sampler;
pub mod tree_shape;

pub use point_store::PointStore;
pub use config::RcfConfig;
pub use node_arena::NodeArena;
