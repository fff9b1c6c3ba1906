//! What the join can fail with.

use crate::key::KeyError;
use arrow::error::ArrowError;
use vstd::prelude::*;

verus! {

/// An error of the join. Every error ends the join.
#[derive(Debug)]
pub enum JoinError {
    /// A join column is absent from its input, or the two columns of a pair
    /// differ in element type.
    InvalidJoinColumns,
    /// The number of sort options is not the number of join column pairs.
    SortOptionsMismatch { expected: usize, actual: usize },
    /// The target size of the output batches is zero.
    InvalidBatchSize,
    /// A plan was given another number of children than two.
    WrongNumberOfChildren,
    /// The key columns of an input batch are not of the element types that
    /// the join was made for.
    KeyColumnsMismatch,
    /// A schema holds a column that the join cannot carry: one whose element
    /// type is a time of day, or neither primitive nor a string nor a boolean.
    UnsupportedColumns,
    /// The comparator met a key column of an element type it does not accept.
    UnsupportedType,
    /// An error of an input or of Arrow, passed on as it came.
    Arrow(ArrowError),
}

impl JoinError {
    /// The join's error for an error of the comparator.
    pub fn from_key_error(error: KeyError) -> (r: JoinError)
        ensures
            r is UnsupportedType,
    {
        match error {
            KeyError::UnsupportedType => JoinError::UnsupportedType,
        }
    }
}

} // verus!
