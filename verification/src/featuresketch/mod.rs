//! FeatureSketch: configuration and the integer layout of its chains and
//! sketches.

pub mod config;
pub mod layout;

pub use config::FeatureSketchConfig;
