//! Quantum-classical interface (API layer): the language-neutral contract.
//!
//! A client submits a [`CircuitRequest`] (register size, gate list, number of
//! shots) and receives a [`CircuitResult`] (an outcome histogram and a timing
//! estimate). The wire format is JSON; the serialisable mirrors of these types
//! live with the server code.

use vstd::prelude::*;
use crate::gates::Gate;

verus! {

/// A submitted quantum circuit.
#[derive(Clone, Debug)]
pub struct CircuitRequest {
    /// Number of qubits.
    pub num_qubits: usize,
    /// Ordered gate sequence, serialized as named gates.
    pub gates: Vec<GateSpec>,
    /// Number of measurement shots.
    pub shots: usize,
}

/// Serializable gate specification mirroring [`Gate`].
#[derive(Clone, Copy, Debug, PartialEq, Eq, Structural)]
pub enum GateSpec {
    H(usize),
    X(usize),
    Y(usize),
    Z(usize),
    S(usize),
    T(usize),
    CNOT(usize, usize),
    CZ(usize, usize),
}

/// Result of executing a circuit: an outcome histogram.
#[derive(Clone, Debug)]
pub struct CircuitResult {
    /// Outcome histograms: (basis-state integer, count).
    pub counts: Vec<(u64, usize)>,
    /// Wall-clock execution estimate, nanoseconds (simulation timing).
    pub elapsed_ns: u64,
}

/// Submit/result envelope for the streaming/polling workflow.
#[derive(Clone, Debug)]
pub enum ApiMessage {
    Submit(CircuitRequest),
    Result(CircuitResult),
}

/// Time charged per gate by the execution estimate, in nanoseconds.
pub const GATE_TIME_NS: u64 = 20;

/// The internal gate a gate specification names.
pub open spec fn internal_gate(g: GateSpec) -> Gate {
    match g {
        GateSpec::H(q) => Gate::H(q),
        GateSpec::X(q) => Gate::X(q),
        GateSpec::Y(q) => Gate::Y(q),
        GateSpec::Z(q) => Gate::Z(q),
        GateSpec::S(q) => Gate::S(q),
        GateSpec::T(q) => Gate::T(q),
        GateSpec::CNOT(c, t) => Gate::CNOT(c, t),
        GateSpec::CZ(c, t) => Gate::CZ(c, t),
    }
}

/// Convert a [`GateSpec`] to the internal gate representation.
pub fn to_internal_gate(g: GateSpec) -> (gate: Gate)
    ensures
        gate == internal_gate(g),
{
    match g {
        GateSpec::H(q) => Gate::H(q),
        GateSpec::X(q) => Gate::X(q),
        GateSpec::Y(q) => Gate::Y(q),
        GateSpec::Z(q) => Gate::Z(q),
        GateSpec::S(q) => Gate::S(q),
        GateSpec::T(q) => Gate::T(q),
        GateSpec::CNOT(c, t) => Gate::CNOT(c, t),
        GateSpec::CZ(c, t) => Gate::CZ(c, t),
    }
}

/// The internal gates of a request's gate list, in order.
pub fn internal_gates(specs: &[GateSpec]) -> (gates: Vec<Gate>)
    ensures
        gates@ == specs@.map_values(|g: GateSpec| internal_gate(g)),
{
    let mut gates: Vec<Gate> = Vec::with_capacity(specs.len());
    let mut i: usize = 0;
    while i < specs.len()
        invariant
            i <= specs.len(),
            gates@ == specs@.take(i as int).map_values(|g: GateSpec| internal_gate(g)),
        decreases specs.len() - i,
    {
        gates.push(to_internal_gate(specs[i]));
        i += 1;
        assert(gates@ =~= specs@.take(i as int).map_values(|g: GateSpec| internal_gate(g)));
    }
    assert(specs@.take(specs.len() as int) =~= specs@);
    gates
}

/// Execution-time estimate for a circuit of `num_gates` gates.
pub fn elapsed_estimate_ns(num_gates: usize) -> (ns: u64)
    requires
        num_gates * GATE_TIME_NS <= u64::MAX,
    ensures
        ns == num_gates * GATE_TIME_NS,
{
    (num_gates as u64) * GATE_TIME_NS
}

} // verus!
