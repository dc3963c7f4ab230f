//! The failure taxonomy of the library.
//!
//! Parsing and index failures arise while ingesting the coordinate text;
//! the algebraic failures are returned as typed results from the kernels so
//! a caller may decide how to react.

use vstd::prelude::*;

verus! {

#[derive(Clone, Copy, Debug, PartialEq, Eq, Structural)]
pub enum LinAlgError {
    /// A token failed to parse, or the declared dimensions are inconsistent
    /// with the actual entry count.
    ParseError,
    /// A coordinate references a row or column outside the declared bounds.
    IndexOutOfRange,
    /// An algebra operation received operands of incompatible shapes.
    DimensionMismatch,
    /// Cholesky factorization met a non-positive diagonal remainder; carries
    /// the failing `(row, row)` position.
    NotPositiveDefinite(usize, usize),
    /// A substitution step met a zero pivot; carries the failing row.
    SingularSystem(usize),
}

impl LinAlgError {
    /// A short description of the failure.
    pub fn message(&self) -> (r: &'static str)
        ensures
            self matches LinAlgError::ParseError ==> r@ == "Error parsing the matrix file"@,
            self matches LinAlgError::IndexOutOfRange ==> r@ == "Index out of range"@,
            self matches LinAlgError::DimensionMismatch ==> r@ == "Dimension mismatch"@,
            self matches LinAlgError::NotPositiveDefinite(_, _) ==> r@
                == "The matrix is not positive definite"@,
            self matches LinAlgError::SingularSystem(_) ==> r@
                == "The diagonal element cannot be zero"@,
    {
        match self {
            LinAlgError::ParseError => "Error parsing the matrix file",
            LinAlgError::IndexOutOfRange => "Index out of range",
            LinAlgError::DimensionMismatch => "Dimension mismatch",
            LinAlgError::NotPositiveDefinite(_, _) => "The matrix is not positive definite",
            LinAlgError::SingularSystem(_) => "The diagonal element cannot be zero",
        }
    }
}

} // verus!
