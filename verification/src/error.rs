//! The error type shared by every fallible operation of the library.
use vstd::prelude::*;

verus! {

/// The unified error type for all operations.
#[derive(Debug, Clone, PartialEq)]
pub enum Error {
    /// Two tensors have incompatible shapes for the requested operation.
    ShapeMismatch { expected: Vec<usize>, got: Vec<usize> },
    /// The flat data length does not match the product of the shape.
    SizeMismatch { expected: usize, got: usize },
    /// An operation was attempted on an empty (zero-element) tensor.
    EmptyTensor,
    /// Generic invalid input (bad arguments, zero dimensions, etc.).
    InvalidInput(String),
    /// Division or modulo by zero detected.
    DivisionByZero,
    /// Gradient was requested but is not available.
    NoGradient,
    /// Two shapes cannot be broadcast together.
    BroadcastError { a: Vec<usize>, b: Vec<usize> },
    /// Matrix multiplication dimension mismatch: A.cols ≠ B.rows.
    MatmulIncompatible { a_cols: usize, b_rows: usize },
}

/// `e` is a shape mismatch reporting `expected` and `got`.
pub open spec fn is_shape_mismatch(e: Error, expected: Seq<usize>, got: Seq<usize>) -> bool {
    e matches Error::ShapeMismatch { expected: x, got: y } && x@ == expected && y@ == got
}

/// `e` is invalid input carrying the message `msg`.
pub open spec fn is_invalid_input(e: Error, msg: Seq<char>) -> bool {
    e matches Error::InvalidInput(m) && m@ == msg
}

/// Builds `Error::InvalidInput` from a message.
pub fn invalid_input(msg: &str) -> (e: Error)
    ensures
        is_invalid_input(e, msg@),
{
    Error::InvalidInput(msg.to_owned())
}

} // verus!
