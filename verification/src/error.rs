//! The ways in which an operation of this crate can be refused.

use vstd::prelude::*;

verus! {

#[derive(Clone, Copy, Debug, PartialEq, Eq, Structural)]
pub enum FpsError {
    /// A seed or a forced point lies outside `0..N`.
    IndexOutOfRange,
    /// The point to add is already part of the selection.
    AlreadySelected,
    /// A candidate was asked for while every point is selected.
    EmptyCandidateSet,
    /// No seed has been set yet.
    NotInitialized,
    /// The matrix has no rows, no columns, or rows of different lengths.
    DimensionMismatch,
}

} // verus!
