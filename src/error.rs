//! Failures of the operator algebra.

use vstd::prelude::*;

verus! {

/// Why an operation on operators was refused.
#[derive(Clone, Copy, Debug, PartialEq, Eq, Structural)]
pub enum OperatorError {
    /// A dimension is not a power of two, or two dimensions do not agree.
    Shape,
    /// A permutation is not a bijection of the qubit positions, or has the wrong length.
    Permutation,
    /// A qubit index is not below the number of qubits.
    IndexOutOfRange,
}

} // verus!
