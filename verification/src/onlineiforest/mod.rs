//! Online Isolation Forest: configuration, the sliding window of retained
//! points, the integer split threshold of its trees, and the bins whose
//! counts follow the window.

pub mod bins;
pub mod config;
pub mod window;

pub use config::OnlineIForestConfig;
pub use window::SlidingWindow;
