//! The standard gate set, identified by gate kind and target qubits.

use vstd::prelude::*;

verus! {

/// Identifier for a gate in the standard circuit gate set.
#[derive(Clone, Copy, Debug, PartialEq, Eq, Structural)]
pub enum Gate {
    H(usize),
    X(usize),
    Y(usize),
    Z(usize),
    S(usize),
    T(usize),
    Rx(usize),
    Ry(usize),
    Rz(usize),
    CNOT(usize, usize),
    CZ(usize, usize),
}

} // verus!
