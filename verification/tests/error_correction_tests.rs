use qphase::error_correction::{CodeDistance, Pauli, SurfaceCode, CORRECTION_FREQUENCY_HZ};
use qphase::gates::Gate;
use qphase::pulse::{Envelope, FULL_DRIVE};

#[test]
fn code_size_scales_with_distance() {
    assert_eq!(CodeDistance(3).physical_qubits(), 9);
    assert_eq!(CodeDistance(5).physical_qubits(), 25);
}

#[test]
fn no_errors_means_no_syndrome() {
    let code = SurfaceCode::new(CodeDistance(3));
    let syn = code.measure_syndrome();
    assert!(syn.fired.iter().all(|f| !f));
}

#[test]
fn single_error_produces_syndrome_and_is_corrected() {
    let mut code = SurfaceCode::new(CodeDistance(3));
    code.inject_error(0, Pauli::X);
    let syn = code.measure_syndrome();
    assert!(syn.fired.iter().any(|f| *f));
    let corrections = code.decode_and_correct(&syn);
    assert!(!corrections.is_empty());
    // After correction the syndrome should be clean.
    let syn2 = code.measure_syndrome();
    assert!(syn2.fired.iter().all(|f| !f));
}

#[test]
fn corrections_are_dispatched_as_pulses() {
    let mut code = SurfaceCode::new(CodeDistance(3));
    code.inject_error(0, Pauli::X);
    let syn = code.measure_syndrome();
    let gates = code.decode_and_correct(&syn);
    let pulses = code.corrections_to_pulses(&gates, 0);
    assert_eq!(pulses.len(), gates.len());
    for p in &pulses {
        assert_eq!(p.duration_ns, 20);
    }
}

#[test]
fn syndrome_has_one_entry_per_plaquette() {
    let code = SurfaceCode::new(CodeDistance(4));
    assert_eq!(code.measure_syndrome().fired.len(), 9);
    let tiny = SurfaceCode::new(CodeDistance(1));
    assert!(tiny.measure_syndrome().fired.is_empty());
}

#[test]
fn centre_error_fires_all_four_plaquettes() {
    let mut code = SurfaceCode::new(CodeDistance(3));
    code.inject_error(4, Pauli::Y);
    let syn = code.measure_syndrome();
    assert_eq!(syn.fired, vec![true, true, true, true]);
    let gates = code.decode_and_correct(&syn);
    assert_eq!(gates, vec![Gate::X(0), Gate::X(1), Gate::X(3), Gate::X(4)]);
    // The Y error keeps its Z component.
    assert_eq!(code.error_count(), 1);
    assert!(code.measure_syndrome().fired.iter().all(|f| !f));
}

#[test]
fn z_errors_are_invisible_to_plaquettes() {
    let mut code = SurfaceCode::new(CodeDistance(3));
    code.inject_error(4, Pauli::Z);
    assert_eq!(code.error_count(), 1);
    assert!(code.measure_syndrome().fired.iter().all(|f| !f));
}

#[test]
fn two_errors_on_one_plaquette_cancel() {
    let mut code = SurfaceCode::new(CodeDistance(3));
    code.inject_error(0, Pauli::X);
    code.inject_error(1, Pauli::X);
    let syn = code.measure_syndrome();
    assert_eq!(syn.fired, vec![false, true, false, false]);
}

#[test]
fn error_on_last_column_is_not_corrected() {
    let mut code = SurfaceCode::new(CodeDistance(3));
    code.inject_error(2, Pauli::X);
    let syn = code.measure_syndrome();
    assert_eq!(syn.fired, vec![false, true, false, false]);
    let gates = code.decode_and_correct(&syn);
    assert_eq!(gates, vec![Gate::X(1)]);
    assert_eq!(code.error_count(), 1);
    assert!(code.measure_syndrome().fired.iter().any(|f| *f));
}

#[test]
fn inject_error_outside_patch_is_ignored() {
    let mut code = SurfaceCode::new(CodeDistance(2));
    code.inject_error(4, Pauli::X);
    assert_eq!(code.error_count(), 0);
    code.inject_error(3, Pauli::Z);
    code.inject_error(3, Pauli::I);
    assert_eq!(code.error_count(), 0);
    assert_eq!(code.distance(), CodeDistance(2));
}

#[test]
fn decoding_never_adds_errors() {
    let mut code = SurfaceCode::new(CodeDistance(3));
    let syn = qphase::error_correction::Syndrome { fired: vec![true, true, true, true, true] };
    let gates = code.decode_and_correct(&syn);
    assert_eq!(gates.len(), 4);
    assert_eq!(code.error_count(), 0);
}

#[test]
fn pauli_to_gate() {
    assert_eq!(Pauli::I.to_gate(3), None);
    assert_eq!(Pauli::X.to_gate(3), Some(Gate::X(3)));
    assert_eq!(Pauli::Y.to_gate(1), Some(Gate::Y(1)));
    assert_eq!(Pauli::Z.to_gate(0), Some(Gate::Z(0)));
}

#[test]
fn correction_pulses_keep_slots_and_skip_other_gates() {
    let code = SurfaceCode::new(CodeDistance(3));
    let gates = [Gate::X(2), Gate::H(0), Gate::Z(5)];
    let pulses = code.corrections_to_pulses(&gates, 100);
    assert_eq!(pulses.len(), 2);
    assert_eq!(pulses[0].channel, 2);
    assert_eq!(pulses[0].start_ns, 100);
    assert_eq!(pulses[1].channel, 5);
    assert_eq!(pulses[1].start_ns, 140);
    assert_eq!(pulses[1].amplitude, FULL_DRIVE);
    assert_eq!(pulses[1].frequency_hz, CORRECTION_FREQUENCY_HZ);
    assert_eq!(pulses[1].shape, Envelope::Drag);
}

#[test]
fn anchored_error_on_larger_patch_is_corrected() {
    let mut code = SurfaceCode::new(CodeDistance(4));
    code.inject_error(5, Pauli::Y);
    let syn = code.measure_syndrome();
    assert_eq!(syn.fired.iter().filter(|f| **f).count(), 4);
    code.decode_and_correct(&syn);
    assert!(code.measure_syndrome().fired.iter().all(|f| !f));
    // Y loses its X component and leaves a Z error behind.
    assert_eq!(code.error_count(), 1);
}

#[test]
fn cloned_patch_keeps_its_errors() {
    let mut code = SurfaceCode::new(CodeDistance(3));
    code.inject_error(4, Pauli::X);
    let copy = code.clone();
    assert_eq!(copy.distance(), CodeDistance(3));
    assert_eq!(copy.error_count(), 1);
    assert_eq!(copy.measure_syndrome(), code.measure_syndrome());
}
