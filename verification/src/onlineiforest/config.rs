use vstd::prelude::*;

use crate::error::{RcfError, Result};

verus! {

/// Configuration for an Online Isolation Forest detector.
///
/// Values are validated when the detector is built. Use the `with_*` methods to
/// override defaults while keeping the fields themselves read-only.
#[derive(Clone, Copy, Debug)]
pub struct OnlineIForestConfig {
    input_dim: usize,
    num_trees: usize,
    window_size: usize,
    max_leaf_samples: usize,
}

/// The fields of an [`OnlineIForestConfig`].
#[derive(Clone, Copy, Debug, PartialEq, Eq, Structural)]
pub struct OnlineIForestConfigView {
    pub input_dim: usize,
    pub num_trees: usize,
    pub window_size: usize,
    pub max_leaf_samples: usize,
}

impl View for OnlineIForestConfig {
    type V = OnlineIForestConfigView;

    closed spec fn view(&self) -> OnlineIForestConfigView {
        OnlineIForestConfigView {
            input_dim: self.input_dim,
            num_trees: self.num_trees,
            window_size: self.window_size,
            max_leaf_samples: self.max_leaf_samples,
        }
    }
}

impl OnlineIForestConfigView {
    /// The message of the first check this config fails, or `None`.
    pub open spec fn violation(&self) -> Option<Seq<char>> {
        if self.input_dim == 0 {
            Some("input_dim must be > 0"@)
        } else if self.num_trees == 0 {
            Some("num_trees must be > 0"@)
        } else if self.window_size == 0 {
            Some("window_size must be > 0"@)
        } else if self.window_size + 1 > usize::MAX {
            Some("window_size is too large"@)
        } else if self.max_leaf_samples == 0 {
            Some("max_leaf_samples must be > 0"@)
        } else if self.window_size <= self.max_leaf_samples {
            Some("window_size must be greater than max_leaf_samples"@)
        } else {
            None
        }
    }
}

impl OnlineIForestConfig {
    /// Create a config with the paper's default hyperparameters: 32 trees, a
    /// window of 2048 points and a base leaf threshold of 32 samples.
    pub fn new(input_dim: usize) -> (c: Self)
        ensures
            c@ == (OnlineIForestConfigView {
                input_dim,
                num_trees: 32,
                window_size: 2048,
                max_leaf_samples: 32,
            }),
    {
        OnlineIForestConfig { input_dim, num_trees: 32, window_size: 2048, max_leaf_samples: 32 }
    }

    /// Set the number of trees in the ensemble.
    pub fn with_num_trees(self, value: usize) -> (c: Self)
        ensures
            c@ == (OnlineIForestConfigView { num_trees: value, ..self@ }),
    {
        OnlineIForestConfig { num_trees: value, ..self }
    }

    /// Set the number of recent points retained by the sliding window.
    pub fn with_window_size(self, value: usize) -> (c: Self)
        ensures
            c@ == (OnlineIForestConfigView { window_size: value, ..self@ }),
    {
        OnlineIForestConfig { window_size: value, ..self }
    }

    /// Set the base leaf-splitting threshold.
    pub fn with_max_leaf_samples(self, value: usize) -> (c: Self)
        ensures
            c@ == (OnlineIForestConfigView { max_leaf_samples: value, ..self@ }),
    {
        OnlineIForestConfig { max_leaf_samples: value, ..self }
    }

    /// Number of numerical features in each point.
    pub fn input_dim(&self) -> (v: usize)
        ensures
            v == self@.input_dim,
    {
        self.input_dim
    }

    /// Number of trees in the ensemble.
    pub fn num_trees(&self) -> (v: usize)
        ensures
            v == self@.num_trees,
    {
        self.num_trees
    }

    /// Number of recent points retained by the sliding window.
    pub fn window_size(&self) -> (v: usize)
        ensures
            v == self@.window_size,
    {
        self.window_size
    }

    /// Base leaf-splitting threshold.
    pub fn max_leaf_samples(&self) -> (v: usize)
        ensures
            v == self@.max_leaf_samples,
    {
        self.max_leaf_samples
    }

    /// `Ok` exactly when every field is in range; otherwise `InvalidArgument`
    /// with the message of the first failing check.
    pub fn validate(&self) -> (r: Result<()>)
        ensures
            match self@.violation() {
                None => r is Ok,
                Some(msg) => r matches Err(e) && e matches RcfError::InvalidArgument(m) && m@ == msg,
            },
    {
        if self.input_dim == 0 {
            return Err(RcfError::invalid_argument("input_dim must be > 0"));
        }
        if self.num_trees == 0 {
            return Err(RcfError::invalid_argument("num_trees must be > 0"));
        }
        if self.window_size == 0 {
            return Err(RcfError::invalid_argument("window_size must be > 0"));
        }
        if self.window_size.checked_add(1).is_none() {
            return Err(RcfError::invalid_argument("window_size is too large"));
        }
        if self.max_leaf_samples == 0 {
            return Err(RcfError::invalid_argument("max_leaf_samples must be > 0"));
        }
        if self.window_size <= self.max_leaf_samples {
            return Err(
                RcfError::invalid_argument("window_size must be greater than max_leaf_samples"),
            );
        }
        Ok(())
    }
}

} // verus!
