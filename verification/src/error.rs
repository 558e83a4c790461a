//! The ways in which an operation of this crate can fail.

use vstd::prelude::*;

verus! {

/// Why an operation on a notebook was refused.
#[derive(Clone, Copy, Debug, PartialEq, Eq, Structural)]
pub enum NotebookError {
    /// The fragment identifier does not name a cell index.
    MalformedIdentifier,
    /// A line or character count does not fit the integer that carries it.
    ArithmeticOverflow,
}

} // verus!
