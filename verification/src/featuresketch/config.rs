use vstd::prelude::*;

use crate::error::{RcfError, Result};

verus! {

/// Deepest chain whose bin widths stay positive.
pub const MAX_CHAIN_DEPTH_FOR_POSITIVE_WIDTH: usize = 1024;

/// Configuration for a FeatureSketch detector.
///
/// Values are validated when a detector is built. Use the `with_*` methods to
/// override defaults while keeping the fields themselves read-only.
#[derive(Clone, Copy, Debug)]
pub struct FeatureSketchConfig {
    value_projection_dims: usize,
    presence_projection_dims: usize,
    chains_per_ensemble: usize,
    chain_depth: usize,
    sketch_rows: usize,
    sketch_buckets: usize,
    decay_half_life: u64,
}

/// The message of the first check that `c` fails, or `None` when it is valid.
pub open spec fn feature_sketch_violation(
    value_projection_dims: int,
    presence_projection_dims: int,
    chains_per_ensemble: int,
    chain_depth: int,
    sketch_rows: int,
    sketch_buckets: int,
    decay_half_life: int,
) -> Option<Seq<char>> {
    if value_projection_dims == 0 {
        Some("value_projection_dims must be > 0"@)
    } else if presence_projection_dims == 0 {
        Some("presence_projection_dims must be > 0"@)
    } else if chains_per_ensemble == 0 {
        Some("chains_per_ensemble must be > 0"@)
    } else if chain_depth == 0 {
        Some("chain_depth must be > 0"@)
    } else if chain_depth > MAX_CHAIN_DEPTH_FOR_POSITIVE_WIDTH {
        Some("chain_depth is too large to keep chain bin widths positive"@)
    } else if sketch_rows == 0 {
        Some("sketch_rows must be > 0"@)
    } else if sketch_buckets < 2 {
        Some("sketch_buckets must be >= 2"@)
    } else if decay_half_life == 0 {
        Some("decay_half_life must be > 0"@)
    } else if presence_projection_dims + 1 > usize::MAX {
        Some("presence_projection_dims plus the feature-count signal must fit in usize"@)
    } else if chains_per_ensemble * chain_depth > usize::MAX {
        Some("chains_per_ensemble * chain_depth must fit in usize"@)
    } else if sketch_rows * sketch_buckets > usize::MAX {
        Some("sketch_rows * sketch_buckets must fit in usize"@)
    } else if chains_per_ensemble * chain_depth * sketch_rows * sketch_buckets * 2 > usize::MAX {
        Some("total FeatureSketch sketch cells must fit in usize"@)
    } else {
        None
    }
}

/// The fields of a [`FeatureSketchConfig`].
#[derive(Clone, Copy, Debug, PartialEq, Eq, Structural)]
pub struct FeatureSketchConfigView {
    pub value_projection_dims: usize,
    pub presence_projection_dims: usize,
    pub chains_per_ensemble: usize,
    pub chain_depth: usize,
    pub sketch_rows: usize,
    pub sketch_buckets: usize,
    pub decay_half_life: u64,
}

/// The documented defaults: 32 value and 32 presence projection dimensions,
/// 16 chains of depth 8, sketches of 2 rows by 2048 buckets, and a decay
/// half-life of 2048 events.
pub open spec fn feature_sketch_defaults() -> FeatureSketchConfigView {
    FeatureSketchConfigView {
        value_projection_dims: 32,
        presence_projection_dims: 32,
        chains_per_ensemble: 16,
        chain_depth: 8,
        sketch_rows: 2,
        sketch_buckets: 2048,
        decay_half_life: 2048,
    }
}

impl View for FeatureSketchConfig {
    type V = FeatureSketchConfigView;

    closed spec fn view(&self) -> FeatureSketchConfigView {
        FeatureSketchConfigView {
            value_projection_dims: self.value_projection_dims,
            presence_projection_dims: self.presence_projection_dims,
            chains_per_ensemble: self.chains_per_ensemble,
            chain_depth: self.chain_depth,
            sketch_rows: self.sketch_rows,
            sketch_buckets: self.sketch_buckets,
            decay_half_life: self.decay_half_life,
        }
    }
}

impl FeatureSketchConfig {
    /// The message of the first check this config fails, if any.
    pub open spec fn violation(&self) -> Option<Seq<char>> {
        feature_sketch_violation(
            self@.value_projection_dims as int,
            self@.presence_projection_dims as int,
            self@.chains_per_ensemble as int,
            self@.chain_depth as int,
            self@.sketch_rows as int,
            self@.sketch_buckets as int,
            self@.decay_half_life as int,
        )
    }

    /// Create a config with the documented FeatureSketch defaults.
    pub fn new() -> (c: Self)
        ensures
            c@ == feature_sketch_defaults(),
    {
        FeatureSketchConfig {
            value_projection_dims: 32,
            presence_projection_dims: 32,
            chains_per_ensemble: 16,
            chain_depth: 8,
            sketch_rows: 2,
            sketch_buckets: 2048,
            decay_half_life: 2048,
        }
    }

    pub fn with_value_projection_dims(self, value: usize) -> (c: Self)
        ensures
            c@ == (FeatureSketchConfigView { value_projection_dims: value, ..self@ }),
    {
        FeatureSketchConfig { value_projection_dims: value, ..self }
    }

    pub fn with_presence_projection_dims(self, value: usize) -> (c: Self)
        ensures
            c@ == (FeatureSketchConfigView { presence_projection_dims: value, ..self@ }),
    {
        FeatureSketchConfig { presence_projection_dims: value, ..self }
    }

    pub fn with_chains_per_ensemble(self, value: usize) -> (c: Self)
        ensures
            c@ == (FeatureSketchConfigView { chains_per_ensemble: value, ..self@ }),
    {
        FeatureSketchConfig { chains_per_ensemble: value, ..self }
    }

    pub fn with_chain_depth(self, value: usize) -> (c: Self)
        ensures
            c@ == (FeatureSketchConfigView { chain_depth: value, ..self@ }),
    {
        FeatureSketchConfig { chain_depth: value, ..self }
    }

    pub fn with_sketch_rows(self, value: usize) -> (c: Self)
        ensures
            c@ == (FeatureSketchConfigView { sketch_rows: value, ..self@ }),
    {
        FeatureSketchConfig { sketch_rows: value, ..self }
    }

    pub fn with_sketch_buckets(self, value: usize) -> (c: Self)
        ensures
            c@ == (FeatureSketchConfigView { sketch_buckets: value, ..self@ }),
    {
        FeatureSketchConfig { sketch_buckets: value, ..self }
    }

    pub fn with_decay_half_life(self, value: u64) -> (c: Self)
        ensures
            c@ == (FeatureSketchConfigView { decay_half_life: value, ..self@ }),
    {
        FeatureSketchConfig { decay_half_life: value, ..self }
    }

    pub fn value_projection_dims(&self) -> (v: usize)
        ensures
            v == self@.value_projection_dims,
    {
        self.value_projection_dims
    }

    pub fn presence_projection_dims(&self) -> (v: usize)
        ensures
            v == self@.presence_projection_dims,
    {
        self.presence_projection_dims
    }

    pub fn chains_per_ensemble(&self) -> (v: usize)
        ensures
            v == self@.chains_per_ensemble,
    {
        self.chains_per_ensemble
    }

    pub fn chain_depth(&self) -> (v: usize)
        ensures
            v == self@.chain_depth,
    {
        self.chain_depth
    }

    pub fn sketch_rows(&self) -> (v: usize)
        ensures
            v == self@.sketch_rows,
    {
        self.sketch_rows
    }

    pub fn sketch_buckets(&self) -> (v: usize)
        ensures
            v == self@.sketch_buckets,
    {
        self.sketch_buckets
    }

    pub fn decay_half_life(&self) -> (v: u64)
        ensures
            v == self@.decay_half_life,
    {
        self.decay_half_life
    }

    /// Check every field: `Ok` exactly when no check fails, otherwise
    /// `InvalidArgument` with the message of the first failing check.
    pub fn validate(&self) -> (r: Result<()>)
        ensures
            match self.violation() {
                None => r is Ok,
                Some(msg) => r matches Err(e) && e matches RcfError::InvalidArgument(m) && m@ == msg,
            },
    {
        if self.value_projection_dims == 0 {
            return Err(RcfError::invalid_argument("value_projection_dims must be > 0"));
        }
        if self.presence_projection_dims == 0 {
            return Err(RcfError::invalid_argument("presence_projection_dims must be > 0"));
        }
        if self.chains_per_ensemble == 0 {
            return Err(RcfError::invalid_argument("chains_per_ensemble must be > 0"));
        }
        if self.chain_depth == 0 {
            return Err(RcfError::invalid_argument("chain_depth must be > 0"));
        }
        if self.chain_depth > MAX_CHAIN_DEPTH_FOR_POSITIVE_WIDTH {
            return Err(
                RcfError::invalid_argument(
                    "chain_depth is too large to keep chain bin widths positive",
                ),
            );
        }
        if self.sketch_rows == 0 {
            return Err(RcfError::invalid_argument("sketch_rows must be > 0"));
        }
        if self.sketch_buckets < 2 {
            return Err(RcfError::invalid_argument("sketch_buckets must be >= 2"));
        }
        if self.decay_half_life == 0 {
            return Err(RcfError::invalid_argument("decay_half_life must be > 0"));
        }
        if self.presence_projection_dims.checked_add(1).is_none() {
            return Err(
                RcfError::invalid_argument(
                    "presence_projection_dims plus the feature-count signal must fit in usize",
                ),
            );
        }
        let chain_cells = match self.chains_per_ensemble.checked_mul(self.chain_depth) {
            Some(v) => v,
            None => {
                return Err(
                    RcfError::invalid_argument(
                        "chains_per_ensemble * chain_depth must fit in usize",
                    ),
                );
            },
        };
        if self.sketch_rows.checked_mul(self.sketch_buckets).is_none() {
            return Err(
                RcfError::invalid_argument("sketch_rows * sketch_buckets must fit in usize"),
            );
        }
        let total = match chain_cells.checked_mul(self.sketch_rows) {
            Some(v) => match v.checked_mul(self.sketch_buckets) {
                Some(w) => w.checked_mul(2),
                None => None,
            },
            None => None,
        };
        if total.is_none() {
            proof {
                lemma_product_overflow_monotone(
                    self.chains_per_ensemble as int,
                    self.chain_depth as int,
                    self.sketch_rows as int,
                    self.sketch_buckets as int,
                );
            }
            return Err(
                RcfError::invalid_argument("total FeatureSketch sketch cells must fit in usize"),
            );
        }
        Ok(())
    }
}

/// Once a partial product overflows, so does the full product (all factors
/// are at least 1).
proof fn lemma_product_overflow_monotone(a: int, b: int, c: int, d: int)
    requires
        a >= 1,
        b >= 1,
        c >= 1,
        d >= 2,
    ensures
        a * b * c > usize::MAX ==> a * b * c * d * 2 > usize::MAX,
        a * b * c * d > usize::MAX ==> a * b * c * d * 2 > usize::MAX,
{
    assert(a * b * c * d >= a * b * c) by (nonlinear_arith)
        requires
            a >= 1,
            b >= 1,
            c >= 1,
            d >= 2,
    ;
}

impl Default for FeatureSketchConfig {
    fn default() -> (c: Self)
        ensures
            c@ == feature_sketch_defaults(),
    {
        Self::new()
    }
}

} // verus!
