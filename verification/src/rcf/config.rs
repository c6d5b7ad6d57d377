use vstd::prelude::*;

use crate::error::{RcfError, Result};

verus! {

/// Default temporal window: no shingling.
pub fn default_shingle_size() -> (v: usize)
    ensures
        v == 1,
{
    1
}

/// Default number of points retained per tree.
pub fn default_capacity() -> (v: usize)
    ensures
        v == 256,
{
    256
}

/// Default number of trees in a forest.
pub fn default_num_trees() -> (v: usize)
    ensures
        v == 50,
{
    50
}

/// By default the forest manages the shingle buffer itself.
pub fn default_internal_shingling() -> (v: bool)
    ensures
        v,
{
    true
}

/// The integer hyperparameters of a Random Cut Forest.
///
/// Use [`RcfConfig::new`] then chain the builder methods. (The sampler's
/// time decay and warm-up fraction are real numbers and are kept by the
/// forest alongside this configuration.)
#[derive(Clone, Copy, Debug)]
pub struct RcfConfig {
    /// Number of base feature dimensions per observation (before shingling).
    pub input_dim: usize,
    /// Temporal window size; with internal shingling the model dimension is
    /// `input_dim * shingle_size`.
    pub shingle_size: usize,
    /// Maximum number of points stored per tree.
    pub capacity: usize,
    /// Number of trees in the forest.
    pub num_trees: usize,
    /// Minimum number of updates before scores are meaningful; `0` means
    /// `1 + capacity / 4`.
    pub output_after: usize,
    /// When true the forest manages the shingle buffer and callers pass one
    /// base observation at a time.
    pub internal_shingling: bool,
}

impl RcfConfig {
    /// The first failing check of `validate`, or `None`.
    pub open spec fn violation(&self) -> Option<Seq<char>> {
        if self.input_dim == 0 {
            Some("input_dim must be > 0"@)
        } else if self.shingle_size == 0 {
            Some("shingle_size must be > 0"@)
        } else if self.input_dim * self.shingle_size > usize::MAX {
            Some("input_dim * shingle_size overflows usize"@)
        } else if self.capacity == 0 {
            Some("capacity must be > 0"@)
        } else if self.num_trees == 0 {
            Some("num_trees must be > 0"@)
        } else {
            None
        }
    }

    pub open spec fn spec_effective_output_after(&self) -> int {
        if self.output_after == 0 {
            1 + self.capacity / 4
        } else {
            self.output_after as int
        }
    }

    /// Observations needed before the first shingle is complete: the window
    /// has `shingle_size` slots and starts empty.
    pub open spec fn spec_shingle_lag(&self) -> int {
        if self.internal_shingling && self.shingle_size > 0 {
            self.shingle_size - 1
        } else {
            0
        }
    }

    /// Create a config with defaults for all optional parameters.
    pub fn new(input_dim: usize) -> (c: Self)
        ensures
            c == (RcfConfig {
                input_dim,
                shingle_size: 1,
                capacity: 256,
                num_trees: 50,
                output_after: 0,
                internal_shingling: true,
            }),
    {
        RcfConfig {
            input_dim,
            shingle_size: default_shingle_size(),
            capacity: default_capacity(),
            num_trees: default_num_trees(),
            output_after: 0,
            internal_shingling: default_internal_shingling(),
        }
    }

    /// Set the temporal window size. `1` disables shingling.
    pub fn with_shingle_size(self, v: usize) -> (c: Self)
        ensures
            c == (RcfConfig { shingle_size: v, ..self }),
    {
        RcfConfig { shingle_size: v, ..self }
    }

    /// Set the maximum number of points retained per tree.
    pub fn with_capacity(self, v: usize) -> (c: Self)
        ensures
            c == (RcfConfig { capacity: v, ..self }),
    {
        RcfConfig { capacity: v, ..self }
    }

    /// Set the number of trees in the forest ensemble.
    pub fn with_num_trees(self, v: usize) -> (c: Self)
        ensures
            c == (RcfConfig { num_trees: v, ..self }),
    {
        RcfConfig { num_trees: v, ..self }
    }

    /// Set the minimum updates before non-trivial scores are returned
    /// (`0` keeps the default `1 + capacity / 4`).
    pub fn with_output_after(self, v: usize) -> (c: Self)
        ensures
            c == (RcfConfig { output_after: v, ..self }),
    {
        RcfConfig { output_after: v, ..self }
    }

    /// Enable or disable internal shingle buffer management.
    pub fn with_internal_shingling(self, v: bool) -> (c: Self)
        ensures
            c == (RcfConfig { internal_shingling: v, ..self }),
    {
        RcfConfig { internal_shingling: v, ..self }
    }

    /// Effective output threshold (resolves the `0 → 1 + capacity / 4`
    /// convention).
    pub fn effective_output_after(&self) -> (v: usize)
        ensures
            v == self.spec_effective_output_after(),
    {
        if self.output_after == 0 {
            1 + self.capacity / 4
        } else {
            self.output_after
        }
    }

    /// Full dimensionality seen by each tree: `input_dim * shingle_size`.
    pub fn dim(&self) -> (d: usize)
        requires
            self.input_dim * self.shingle_size <= usize::MAX,
        ensures
            d == self.input_dim * self.shingle_size,
    {
        self.input_dim * self.shingle_size
    }

    /// `Ok` exactly when every field is in range; otherwise `InvalidArgument`
    /// with the message of the first failing check.
    pub fn validate(&self) -> (r: Result<()>)
        ensures
            match self.violation() {
                None => r is Ok,
                Some(msg) => r matches Err(e) && e matches RcfError::InvalidArgument(m) && m@ == msg,
            },
    {
        if self.input_dim == 0 {
            return Err(RcfError::invalid_argument("input_dim must be > 0"));
        }
        if self.shingle_size == 0 {
            return Err(RcfError::invalid_argument("shingle_size must be > 0"));
        }
        if self.input_dim.checked_mul(self.shingle_size).is_none() {
            return Err(RcfError::invalid_argument("input_dim * shingle_size overflows usize"));
        }
        if self.capacity == 0 {
            return Err(RcfError::invalid_argument("capacity must be > 0"));
        }
        if self.num_trees == 0 {
            return Err(RcfError::invalid_argument("num_trees must be > 0"));
        }
        Ok(())
    }

    /// Slots of the shared point store: enough for every tree to hold a
    /// distinct point plus the incoming one, and at least `2 * capacity`.
    pub fn point_store_capacity(&self) -> (n: usize)
        requires
            self.capacity * self.num_trees + 1 <= usize::MAX,
            2 * self.capacity <= usize::MAX,
        ensures
            n == if self.capacity * self.num_trees + 1 >= 2 * self.capacity {
                self.capacity * self.num_trees + 1
            } else {
                2 * self.capacity
            },
    {
        let a = self.capacity * self.num_trees + 1;
        let b = 2 * self.capacity;
        if a >= b {
            a
        } else {
            b
        }
    }

    /// Slots of the shared point store as [`point_store_capacity`], checked:
    /// `Ok` exactly when that count, and the count times `dim` (the floats
    /// the store holds), fit in `usize`; otherwise `Overflow`.
    ///
    /// [`point_store_capacity`]: RcfConfig::point_store_capacity
    pub fn checked_point_store_capacity(&self) -> (r: Result<usize>)
        requires
            self.input_dim * self.shingle_size <= usize::MAX,
        ensures
            ({
                let a = self.capacity * self.num_trees + 1;
                let b = 2 * self.capacity;
                let n = if a >= b {
                    a
                } else {
                    b
                };
                let fits = a <= usize::MAX && b <= usize::MAX && n * (self.input_dim
                    * self.shingle_size) <= usize::MAX;
                &&& fits ==> r == Ok::<usize, RcfError>(n as usize)
                &&& !fits ==> (r matches Err(e) && e matches RcfError::Overflow(m) && m@
                    == "point store capacity overflows usize"@)
            }),
    {
        let a = match self.capacity.checked_mul(self.num_trees) {
            Some(p) => p.checked_add(1),
            None => None,
        };
        let b = self.capacity.checked_mul(2);
        match (a, b) {
            (Some(_), Some(_)) => {},
            _ => {
                return Err(RcfError::overflow("point store capacity overflows usize"));
            },
        }
        let n = self.point_store_capacity();
        match n.checked_mul(self.dim()) {
            Some(_) => Ok(n),
            None => Err(RcfError::overflow("point store capacity overflows usize")),
        }
    }

    /// Whether `entries_seen` observations have completed the first shingle.
    pub fn has_primed_shingle_at(&self, entries_seen: u64) -> (b: bool)
        ensures
            b == ((entries_seen as usize) > self.spec_shingle_lag()),
    {
        let lag = if self.internal_shingling {
            self.shingle_size.saturating_sub(1)
        } else {
            0
        };
        (entries_seen as usize) > lag
    }

    /// Whether a forest that has seen `entries_seen` observations returns
    /// meaningful scores: more than the output threshold plus the shingle lag.
    pub fn is_ready_at(&self, entries_seen: u64) -> (b: bool)
        requires
            self.spec_effective_output_after() + self.spec_shingle_lag() <= usize::MAX,
        ensures
            b == ((entries_seen as usize) > self.spec_effective_output_after()
                + self.spec_shingle_lag()),
    {
        let lag = if self.internal_shingling {
            self.shingle_size.saturating_sub(1)
        } else {
            0
        };
        let needed = self.effective_output_after() + lag;
        (entries_seen as usize) > needed
    }
}

/// The observation count after one more update: `entries_seen + 1`, or
/// `Overflow` when the forest's count or its point store's count is already
/// `u64::MAX`.
pub fn next_entries_seen(entries_seen: u64, store_entries_seen: u64) -> (r: Result<u64>)
    ensures
        entries_seen < u64::MAX && store_entries_seen < u64::MAX ==> r == Ok::<u64, RcfError>(
            (entries_seen + 1) as u64,
        ),
        entries_seen == u64::MAX || store_entries_seen == u64::MAX ==> (r matches Err(e)
            && e matches RcfError::Overflow(m) && m@ == "entries_seen overflow"@),
{
    if entries_seen == u64::MAX || store_entries_seen == u64::MAX {
        return Err(RcfError::overflow("entries_seen overflow"));
    }
    Ok(entries_seen + 1)
}

} // verus!
