//! Error taxonomy of the engine.
//!
//! Errors are returned to the caller of the public operation that hit them;
//! nothing is retried internally. A [`InnerGridError::MismatchedGridItem`]
//! signals a breach of the grid/registry consistency invariant and is
//! unreachable through the verified operations.

use vstd::prelude::*;

verus! {

/// Any error a public engine operation can return.
#[derive(Debug, Clone, PartialEq, Eq)]
pub enum GridEngineError {
    /// A spatial grid access failed.
    InnerGrid(InnerGridError),
    /// An item lookup or insertion failed.
    Item(ItemError),
}

/// Errors of the spatial grid.
#[derive(Debug, Clone, PartialEq, Eq)]
pub enum InnerGridError {
    /// A cell access fell outside the grid bounds and could not be served
    /// by row growth.
    OutOfBoundsAccess { x: usize, y: usize },
    /// A grid cell referenced an id that the registry does not hold.
    MismatchedGridItem { id: String },
}

/// Errors of the item registry.
#[derive(Debug, Clone, PartialEq, Eq)]
pub enum ItemError {
    /// The operation referenced an id that is not registered.
    ItemNotFound { id: String },
    /// An add used an id that is already registered.
    ItemAlreadyExists { id: String },
}

} // verus!
