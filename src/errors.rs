use vstd::prelude::*;

verus! {

/// Why an index could not be created.
#[derive(Clone, Debug, PartialEq, Eq)]
pub enum HnswIndexInitError {
    /// No index configuration was given.
    NoConfigProvided,
    /// The dimensionality is not a positive number.
    InvalidDimensionality(i32),
    /// The persist path holds a NUL character, which no file system accepts.
    InvalidPath(String),
}

/// Why an operation on an index failed.
#[derive(Clone, Debug, PartialEq, Eq)]
pub enum HnswError {
    /// A vector's length differs from the index's dimensionality.
    DimensionMismatch { expected: usize, actual: usize },
    /// The label is already stored.
    DuplicateLabel(usize),
    /// The label is not stored.
    UnknownLabel(usize),
    /// Every slot is taken and none can be reused.
    CapacityExceeded(usize),
    /// A persisted index is malformed; the text names the failed check.
    IntegrityFailure(String),
}

} // verus!
