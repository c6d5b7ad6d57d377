//! mStream: the logical clock, configuration checks and bucket hashing.

pub mod clock;
pub mod config;
pub mod hashing;

pub use clock::{ClockStep, StreamClock};
pub use hashing::{ceil_log2, modular_bucket_sum, CategoricalHasher};
pub use config::MStreamConfig;
