use qphase::gates::Gate;
use qphase::interface::{elapsed_estimate_ns, internal_gates, to_internal_gate, ApiMessage, CircuitRequest, CircuitResult, GateSpec};

#[test]
fn gate_spec_matches_internal_gate_enum() {
    // Ensure the public contract covers all gates the simulator supports.
    let _ = Gate::Rx(0);
    let specs = [GateSpec::H(0), GateSpec::CNOT(0, 1)];
    assert_eq!(specs.len(), 2);
}

#[test]
fn gate_specs_convert_one_to_one() {
    assert_eq!(to_internal_gate(GateSpec::H(1)), Gate::H(1));
    assert_eq!(to_internal_gate(GateSpec::X(2)), Gate::X(2));
    assert_eq!(to_internal_gate(GateSpec::Y(3)), Gate::Y(3));
    assert_eq!(to_internal_gate(GateSpec::Z(0)), Gate::Z(0));
    assert_eq!(to_internal_gate(GateSpec::S(4)), Gate::S(4));
    assert_eq!(to_internal_gate(GateSpec::T(5)), Gate::T(5));
    assert_eq!(to_internal_gate(GateSpec::CNOT(0, 1)), Gate::CNOT(0, 1));
    assert_eq!(to_internal_gate(GateSpec::CZ(2, 1)), Gate::CZ(2, 1));
}

#[test]
fn request_gates_convert_in_order() {
    let req = CircuitRequest { num_qubits: 2, gates: vec![GateSpec::H(0), GateSpec::CNOT(0, 1), GateSpec::T(1)], shots: 10 };
    assert_eq!(internal_gates(&req.gates), vec![Gate::H(0), Gate::CNOT(0, 1), Gate::T(1)]);
    assert_eq!(elapsed_estimate_ns(req.gates.len()), 60);
    assert_eq!(elapsed_estimate_ns(0), 0);
}

#[test]
fn api_message_holds_request_or_result() {
    let msg = ApiMessage::Submit(CircuitRequest { num_qubits: 1, gates: vec![GateSpec::H(0)], shots: 10 });
    assert!(matches!(msg, ApiMessage::Submit(_)));
    let res = ApiMessage::Result(CircuitResult { counts: vec![(0, 10)], elapsed_ns: 20 });
    assert!(matches!(res, ApiMessage::Result(_)));
}
