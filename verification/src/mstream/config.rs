use vstd::prelude::*;

use crate::error::{RcfError, Result};

verus! {

/// The record shape and hash layout of an mStream detector.
///
/// (The temporal decay factor `alpha` is a real number in `(0, 1)` and is
/// kept by the detector alongside this configuration.)
#[derive(Clone, Copy, Debug)]
pub struct MStreamConfig {
    numeric_dim: usize,
    categorical_dim: usize,
    num_rows: usize,
    num_buckets: usize,
}

/// The fields of an [`MStreamConfig`].
#[derive(Clone, Copy, Debug, PartialEq, Eq, Structural)]
pub struct MStreamConfigView {
    pub numeric_dim: usize,
    pub categorical_dim: usize,
    pub num_rows: usize,
    pub num_buckets: usize,
}

impl View for MStreamConfig {
    type V = MStreamConfigView;

    closed spec fn view(&self) -> MStreamConfigView {
        MStreamConfigView {
            numeric_dim: self.numeric_dim,
            categorical_dim: self.categorical_dim,
            num_rows: self.num_rows,
            num_buckets: self.num_buckets,
        }
    }
}

impl MStreamConfigView {
    /// The first failing check of `validate`, or `None`.
    pub open spec fn violation(&self) -> Option<Seq<char>> {
        if self.numeric_dim == 0 && self.categorical_dim == 0 {
            Some("at least one of numeric_dim or categorical_dim must be > 0"@)
        } else if self.num_rows == 0 {
            Some("num_rows must be > 0"@)
        } else if self.num_buckets < 2 {
            Some("num_buckets must be >= 2"@)
        } else {
            None
        }
    }
}

impl MStreamConfig {
    /// Create a config with the default hash layout: 2 rows of 1024 buckets.
    pub fn new(numeric_dim: usize, categorical_dim: usize) -> (c: Self)
        ensures
            c@ == (MStreamConfigView { numeric_dim, categorical_dim, num_rows: 2, num_buckets: 1024 }),
    {
        MStreamConfig { numeric_dim, categorical_dim, num_rows: 2, num_buckets: 1024 }
    }

    /// Set the number of hash rows.
    pub fn with_num_rows(self, value: usize) -> (c: Self)
        ensures
            c@ == (MStreamConfigView { num_rows: value, ..self@ }),
    {
        MStreamConfig { num_rows: value, ..self }
    }

    /// Set the number of buckets per hash row.
    pub fn with_num_buckets(self, value: usize) -> (c: Self)
        ensures
            c@ == (MStreamConfigView { num_buckets: value, ..self@ }),
    {
        MStreamConfig { num_buckets: value, ..self }
    }

    /// Number of numerical aspects in each record.
    pub fn numeric_dim(&self) -> (v: usize)
        ensures
            v == self@.numeric_dim,
    {
        self.numeric_dim
    }

    /// Number of categorical aspects in each record.
    pub fn categorical_dim(&self) -> (v: usize)
        ensures
            v == self@.categorical_dim,
    {
        self.categorical_dim
    }

    /// Number of hash rows.
    pub fn num_rows(&self) -> (v: usize)
        ensures
            v == self@.num_rows,
    {
        self.num_rows
    }

    /// Number of buckets per hash row.
    pub fn num_buckets(&self) -> (v: usize)
        ensures
            v == self@.num_buckets,
    {
        self.num_buckets
    }

    /// `Ok` exactly when the shape and layout are usable; otherwise
    /// `InvalidArgument` with the message of the first failing check.
    pub fn validate(&self) -> (r: Result<()>)
        ensures
            match self@.violation() {
                None => r is Ok,
                Some(msg) => r matches Err(e) && e matches RcfError::InvalidArgument(m) && m@ == msg,
            },
    {
        if self.numeric_dim == 0 && self.categorical_dim == 0 {
            return Err(
                RcfError::invalid_argument(
                    "at least one of numeric_dim or categorical_dim must be > 0",
                ),
            );
        }
        if self.num_rows == 0 {
            return Err(RcfError::invalid_argument("num_rows must be > 0"));
        }
        if self.num_buckets < 2 {
            return Err(RcfError::invalid_argument("num_buckets must be >= 2"));
        }
        Ok(())
    }

    /// Check that a record has `numeric_dim` numerical and `categorical_dim`
    /// categorical values (the numerical count is checked first).
    pub fn validate_record(&self, numeric_len: usize, categorical_len: usize) -> (r: Result<()>)
        ensures
            numeric_len != self@.numeric_dim ==> (r matches Err(e)
                && e matches RcfError::DimensionMismatch { expected, got } && expected
                == self@.numeric_dim && got == numeric_len),
            numeric_len == self@.numeric_dim && categorical_len != self@.categorical_dim ==> (r
                matches Err(e) && e matches RcfError::DimensionMismatch { expected, got }
                && expected == self@.categorical_dim && got == categorical_len),
            numeric_len == self@.numeric_dim && categorical_len == self@.categorical_dim ==> r is Ok,
    {
        if numeric_len != self.numeric_dim {
            return Err(RcfError::DimensionMismatch { expected: self.numeric_dim, got: numeric_len });
        }
        if categorical_len != self.categorical_dim {
            return Err(
                RcfError::DimensionMismatch { expected: self.categorical_dim, got: categorical_len },
            );
        }
        Ok(())
    }
}

} // verus!
