use qphase::histogram::tally_outcomes;
use qphase::simulator::{amplitude_groups, amplitude_pairs, SimError, Xorshift32, SIMULATOR_SEED};

#[test]
fn qubit_out_of_range_is_rejected() {
    assert_eq!(amplitude_pairs(2, 2), Err(SimError::QubitOutOfRange));
    assert_eq!(amplitude_groups(2, 0, 2), Err(SimError::QubitOutOfRange));
    assert_eq!(amplitude_groups(2, 1, 1), Err(SimError::QubitOutOfRange));
}

#[test]
fn single_qubit_pairs_exact() {
    assert_eq!(amplitude_pairs(1, 0), Ok(vec![(0, 1)]));
    assert_eq!(amplitude_pairs(3, 1), Ok(vec![(0, 2), (1, 3), (4, 6), (5, 7)]));
}

#[test]
fn pairs_touch_every_amplitude_once() {
    let pairs = amplitude_pairs(4, 2).unwrap();
    let mut seen = vec![0u32; 16];
    for (a, b) in &pairs {
        seen[*a] += 1;
        seen[*b] += 1;
    }
    assert!(seen.iter().all(|c| *c == 1));
}

#[test]
fn two_qubit_groups_exact() {
    // control 0, target 1 on two qubits: |00>, |c=0 t=1>, |c=1 t=0>, |11>
    assert_eq!(amplitude_groups(2, 0, 1), Ok(vec![(0, 2, 1, 3)]));
    let groups = amplitude_groups(3, 2, 0).unwrap();
    assert_eq!(groups, vec![(0, 1, 4, 5), (2, 3, 6, 7)]);
    let mut seen = vec![0u32; 8];
    for g in &groups {
        for i in [g.0, g.1, g.2, g.3] {
            seen[i] += 1;
        }
    }
    assert!(seen.iter().all(|c| *c == 1));
}

#[test]
fn xorshift_sequence_from_simulator_seed() {
    let mut rng = Xorshift32::new(SIMULATOR_SEED);
    assert_eq!(rng.next_u32(), 1359758873);
    assert_eq!(rng.next_u32(), 3761132862);
    let mut stuck = Xorshift32::new(0);
    assert_eq!(stuck.next_u32(), 0);
}

#[test]
fn tally_counts_each_outcome() {
    let h = tally_outcomes(&[3, 0, 3, 3, 1, 0]);
    assert_eq!(h, vec![(0, 2), (1, 1), (3, 3)]);
    let total: usize = h.iter().map(|(_, c)| c).sum();
    assert_eq!(total, 6);
    assert!(tally_outcomes(&[]).is_empty());
}

#[test]
fn xorshift_stays_nonzero() {
    let mut rng = Xorshift32::new(1);
    for _ in 0..1000 {
        assert_ne!(rng.next_u32(), 0);
    }
}
