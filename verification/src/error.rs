//! The errors that the operations on a block canvas report.

use vstd::prelude::*;

verus! {

/// Why an operation on a block canvas was rejected.
#[derive(Clone, Copy, Debug, PartialEq, Eq, Structural)]
pub enum PixelError {
    /// The block resolution was zero.
    InvalidResolution,
    /// The requested side is zero, or the side rounded up to a multiple of the
    /// resolution cannot be represented or allocated.
    InvalidDimensions,
    /// A neighbour query was made for a block in column zero or row zero.
    InvalidCoordinate,
    /// The coordinate names no block of the grid.
    UnknownBlock,
}

} // verus!
