use vstd::prelude::*;

verus! {

/// Errors reported by the detectors.
///
/// The variants carry a message (or the offending values) describing what
/// was rejected.
#[derive(Debug, Clone)]
#[non_exhaustive]
pub enum RcfError {
    /// An argument or configuration value was out of its allowed range.
    InvalidArgument(String),
    /// An input had the wrong number of dimensions.
    DimensionMismatch { expected: usize, got: usize },
    /// Not enough data has been ingested to answer the query.
    NotReady,
    /// An index was outside the valid range.
    IndexOutOfBounds(usize),
    /// A counter or a size computation would overflow.
    Overflow(String),
    /// An internal invariant was violated.
    Runtime(String),
    /// Reading or writing persisted state failed.
    Io(String),
    /// A tree operation needed a non-empty tree.
    EmptyTree,
}

/// Result type used throughout the crate.
pub type Result<T> = core::result::Result<T, RcfError>;

impl RcfError {
    /// An `InvalidArgument` error carrying `msg`.
    pub fn invalid_argument(msg: &str) -> (e: RcfError)
        ensures
            e matches RcfError::InvalidArgument(m) && m@ == msg@,
    {
        RcfError::InvalidArgument(msg.to_owned())
    }

    /// An `Overflow` error carrying `msg`.
    pub fn overflow(msg: &str) -> (e: RcfError)
        ensures
            e matches RcfError::Overflow(m) && m@ == msg@,
    {
        RcfError::Overflow(msg.to_owned())
    }

    /// Re-wrap a configuration error found in deserialized state: an
    /// `InvalidArgument` message gains the prefix `invalid serialized config: `;
    /// every other error is returned unchanged.
    pub fn invalid_serialized_config(err: RcfError) -> (e: RcfError)
        ensures
            match err {
                RcfError::InvalidArgument(m) => e matches RcfError::InvalidArgument(m2)
                    && m2@ == "invalid serialized config: "@ + m@,
                _ => e == err,
            },
    {
        match err {
            RcfError::InvalidArgument(m) => {
                let mut s = "invalid serialized config: ".to_owned();
                s.append(m.as_str());
                RcfError::InvalidArgument(s)
            },
            other => other,
        }
    }
}

} // verus!
