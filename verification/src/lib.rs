//! Streaming anomaly detection: the integer bookkeeping of Random Cut Forest,
//! Online Isolation Forest, mStream and FeatureSketch, with its contracts.

pub mod decimal;
pub mod error;
pub mod featuresketch;
pub mod mstream;
pub mod onlineiforest;
pub mod outside;
pub mod rcf;
pub mod seeding;

pub use error::{RcfError, Result};
pub use featuresketch::FeatureSketchConfig;
pub use mstream::MStreamConfig;
pub use onlineiforest::OnlineIForestConfig;
pub use rcf::RcfConfig;
