//! Errors reported to callers of the query surface.
use vstd::prelude::*;

verus! {

/// A query window lies outside the matrix or is empty.
#[derive(Debug, Clone, Copy, PartialEq, Eq, Structural)]
pub struct MatrixIndexError;

/// The query engine of a resolution has not been built yet.
#[derive(Debug, Clone, Copy, PartialEq, Eq, Structural)]
pub struct SelectorUninitError;

/// The requested resolution does not exist.
#[derive(Debug, Clone, Copy, PartialEq, Eq, Structural)]
pub struct MatrixResolutionError;

impl MatrixIndexError {
    pub fn message(&self) -> &'static str {
        "The incorrect index is provided."
    }
}

impl SelectorUninitError {
    pub fn message(&self) -> &'static str {
        "Selector for matrix is not initialized."
    }
}

impl MatrixResolutionError {
    pub fn message(&self) -> &'static str {
        "Such resolution does not exist."
    }
}

/// Why a query was rejected: a bad window, or an engine not built yet.
#[derive(Debug, Clone, Copy, PartialEq, Eq, Structural)]
pub enum QueryError {
    Index(MatrixIndexError),
    SelectorUninit(SelectorUninitError),
}

} // verus!
