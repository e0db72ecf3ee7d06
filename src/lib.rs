//! Dense operator algebra for small qubit registers: tensor products,
//! tensor-factor permutation, operator extension, hermitian conjugate,
//! similarity transforms and trace, over exact complex scalars.
//!
//! An operator is a [`matrix::Matrix`]: a dimension and a flat `Vec` of entries in
//! row-major order, in place of an n-dimensional array type. Its entries are
//! [`complex::Complex`] values with `i64` real and imaginary parts, so that every
//! operation here is exact and proved; floating-point operators, and the matrix
//! exponential computed from an eigendecomposition, are left to callers that hold
//! floating-point matrices (see the [`functions::Expm`] trait). Tensor factors are
//! reordered by direct index arithmetic on the bits of row and column indices, with
//! qubit 0 as the most significant factor.

pub mod complex;
pub mod error;
pub mod matrix;
pub mod permute;
pub mod extend;
pub mod functions;
pub mod laws;
