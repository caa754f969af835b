use qphase::gates::Gate;
use qphase::pulse::{Envelope, Pulse, FULL_DRIVE};
use qphase::schedule::{compile, max_jitter_ns, ChannelConfig, Schedule, CONTROL_DRIVE, SINGLE_QUBIT_DURATION_NS};

#[test]
fn schedule_is_deterministic_and_ordered() {
    let gates = [Gate::H(0), Gate::X(1), Gate::CNOT(0, 1), Gate::H(1)];
    let chans = ChannelConfig::uniform(2, 5_000_000_000);
    let a = compile(&gates, &chans);
    let b = compile(&gates, &chans);
    assert_eq!(a.pulses().len(), b.pulses().len());
    assert_eq!(a.total_duration_ns(), b.total_duration_ns());
    let starts_a: Vec<i64> = a.pulses().iter().map(|p| p.start_ns).collect();
    let starts_b: Vec<i64> = b.pulses().iter().map(|p| p.start_ns).collect();
    assert_eq!(starts_a, starts_b);
}

#[test]
fn schedule_timing_is_monotonic() {
    let gates: std::vec::Vec<Gate> = (0..4).map(Gate::H).collect();
    let chans = ChannelConfig::uniform(4, 5_000_000_000);
    let sched = compile(&gates, &chans);
    let mut prev_end = 0i64;
    for p in sched.pulses() {
        assert!(p.start_ns >= prev_end, "pulses overlap or are unordered");
        prev_end = p.end_ns();
    }
}

#[test]
fn jitter_target_under_10ns() {
    // Reference clock period of 1 ns; all pulse starts are integer ns so the
    // observed jitter (rounding to the period) is 0 ns, well under 10 ns.
    let gates = [Gate::H(0), Gate::CNOT(0, 1), Gate::H(1)];
    let chans = ChannelConfig::uniform(2, 5_000_000_000);
    let sched = compile(&gates, &chans);
    assert!(max_jitter_ns(&sched, 1) < 10);
}

#[test]
fn pulse_durations_match_spec() {
    let gates = [Gate::H(0)];
    let chans = ChannelConfig::uniform(1, 5_000_000_000);
    let sched = compile(&gates, &chans);
    let p: &Pulse = &sched.pulses()[0];
    assert_eq!(p.duration_ns, SINGLE_QUBIT_DURATION_NS);
}

#[test]
fn compiled_pulse_train_exact() {
    let gates = [Gate::H(0), Gate::CZ(1, 0), Gate::X(1)];
    let chans = ChannelConfig { frequencies_hz: vec![4_900_000_000, 5_100_000_000] };
    let sched = compile(&gates, &chans);
    assert_eq!(sched.len(), 4);
    assert!(!sched.is_empty());
    assert_eq!(sched.total_duration_ns(), 22 + 42 + 22);
    let p = sched.pulses();
    assert_eq!(
        p[0],
        Pulse { channel: 0, start_ns: 0, duration_ns: 20, amplitude: FULL_DRIVE, frequency_hz: 4_900_000_000, phase: 0, shape: Envelope::Drag }
    );
    assert_eq!(
        p[1],
        Pulse { channel: 1, start_ns: 22, duration_ns: 20, amplitude: CONTROL_DRIVE, frequency_hz: 5_100_000_000, phase: 0, shape: Envelope::Gaussian }
    );
    assert_eq!(
        p[2],
        Pulse { channel: 0, start_ns: 42, duration_ns: 20, amplitude: FULL_DRIVE, frequency_hz: 4_900_000_000, phase: 0, shape: Envelope::Gaussian }
    );
    assert_eq!(p[3].start_ns, 64);
    assert_eq!(p[3].channel, 1);
    assert_eq!(p[3].end_ns(), 84);
}

#[test]
fn out_of_range_qubits_route_to_last_channel() {
    let gates = [Gate::Rz(7), Gate::CNOT(9, 0)];
    let chans = ChannelConfig::uniform(3, 6_000_000_000);
    let sched = compile(&gates, &chans);
    let channels: Vec<usize> = sched.pulses().iter().map(|p| p.channel).collect();
    assert_eq!(channels, vec![2, 2, 0]);
}

#[test]
fn empty_circuit_gives_empty_schedule() {
    let chans = ChannelConfig::uniform(0, 5_000_000_000);
    let sched = compile(&[], &chans);
    assert!(sched.is_empty());
    assert_eq!(sched.total_duration_ns(), 0);
    assert_eq!(max_jitter_ns(&sched, 0), 0);
    let d = Schedule::default();
    assert_eq!(d.len(), 0);
    assert_eq!(d.total_duration_ns(), 0);
}

#[test]
fn jitter_on_coarse_clock() {
    let gates = [Gate::H(0), Gate::H(0), Gate::CNOT(0, 1)];
    let chans = ChannelConfig::uniform(2, 5_000_000_000);
    let sched = compile(&gates, &chans);
    // starts: 0, 22, 44, 64
    assert_eq!(max_jitter_ns(&sched, 2), 0);
    assert_eq!(max_jitter_ns(&sched, 10), 4);
    assert_eq!(max_jitter_ns(&sched, -10), 4);
    assert_eq!(max_jitter_ns(&sched, 7), 2);
    let copy = sched.clone();
    assert_eq!(copy.pulses(), sched.pulses());
}

#[test]
fn same_channel_pulses_keep_the_gap() {
    let gates = [Gate::H(0), Gate::X(0), Gate::CNOT(0, 1), Gate::H(1)];
    let chans = ChannelConfig::uniform(2, 5_000_000_000);
    let sched = compile(&gates, &chans);
    let p = sched.pulses();
    for i in 0..p.len() {
        for j in (i + 1)..p.len() {
            assert!(p[i].end_ns() <= p[j].start_ns);
            if p[i].channel == p[j].channel {
                assert!(p[i].end_ns() + 2 <= p[j].start_ns);
            }
        }
        assert!(p[i].end_ns() + 2 <= sched.total_duration_ns());
    }
}

#[test]
fn pulse_count_and_duration_follow_gate_mix() {
    let gates = [Gate::H(0), Gate::CNOT(0, 1), Gate::CZ(1, 0), Gate::X(1)];
    let chans = ChannelConfig::uniform(2, 5_000_000_000);
    let sched = compile(&gates, &chans);
    assert_eq!(sched.len(), 6);
    assert_eq!(sched.total_duration_ns(), 22 * 4 + 20 * 2);
}

#[test]
fn shared_channel_two_qubit_gate_keeps_the_gap() {
    let chans = ChannelConfig::uniform(3, 5_000_000_000);
    let sched = compile(&[Gate::CNOT(0, 0), Gate::H(0)], &chans);
    let p = sched.pulses();
    assert_eq!(p[0].start_ns, 0);
    assert_eq!(p[1].start_ns, 22);
    assert_eq!(p[2].start_ns, 44);
    assert_eq!(sched.total_duration_ns(), 66);
    // Both out-of-range qubits are routed to the last channel.
    let clamped = compile(&[Gate::CZ(5, 9)], &chans);
    let q = clamped.pulses();
    assert_eq!((q[0].channel, q[1].channel), (2, 2));
    assert_eq!(q[0].end_ns() + 2, q[1].start_ns);
    assert_eq!(clamped.total_duration_ns(), 44);
}
