//! A verified linear-algebra kernel for solving symmetric positive-definite
//! systems built from sparse input: compressed-sparse-row ingestion,
//! sparse-to-dense conversion, transpose, matrix multiplication, subtraction,
//! Cholesky factorization, forward and backward triangular substitution, and
//! residual norms, all generic over an abstract scalar capability interface.

pub mod dense;
pub mod errors;
pub mod int_scalar;
pub mod laws;
pub mod model;
pub mod norms;
pub mod scalar;
pub mod solve;
pub mod sparse;
pub mod text;
pub mod triangular;
