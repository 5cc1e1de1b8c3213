//! A library for manipulating matrices in several storage layouts: a dense
//! column-major layout, a banded layout, a diagonal layout, and a general
//! compressed sparse layout, together with conversions between them and a
//! small set of arithmetic kernels.

use vstd::prelude::*;

pub mod band;
pub mod compressed;
pub mod dense;
pub mod diagonal;
pub mod operation;

verus! {

/// An error returned by an operation that validates its inputs.
#[derive(Clone, Copy, Debug, PartialEq, Eq, Structural)]
pub enum Error {
    /// A coordinate lies outside the dimensions of the matrix.
    OutOfBounds,
    /// The dimensions of two operands do not agree.
    DimensionMismatch,
}

} // verus!

