//! The ways in which a program or a target picture can be rejected.

use vstd::prelude::*;

verus! {

/// Why an instruction stream, a comparison or a target picture was refused.
/// None of these is recovered from: each one says that the input is wrong.
#[derive(Debug, PartialEq, Eq)]
pub enum Error {
    /// An instruction names a block that is not live.
    UnknownBlock,
    /// A cut does not lie strictly inside the block that it is to split.
    CutOutsideBlock,
    /// A merge names two blocks whose union is not a rectangle.
    IncompatibleMerge,
    /// Two rasters of different size were to be compared.
    DimensionMismatch,
    /// The rectangles cannot be painted in any order. The indices are those
    /// of the rectangles that could not be scheduled, in increasing order.
    UnsatisfiableOrder(Vec<usize>),
}

} // verus!
