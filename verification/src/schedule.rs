//! Deterministic scheduling of gate sequences into pulse parameter streams.
//!
//! The scheduler assigns each gate a fixed nanosecond time slot and emits a
//! [`Pulse`] per single-qubit gate and a pair of linked pulses for two-qubit
//! gates. Timing is fully deterministic: replaying the same circuit always
//! produces the same pulse train with identical start times.

use vstd::prelude::*;
use crate::gates::Gate;
use crate::pulse::{pulse_end, Amplitude, DurationNs, Envelope, Frequency, Pulse, TimestampNs, FULL_DRIVE};

verus! {

/// Minimum separation between consecutive pulses on the same channel, in ns.
pub const INTER_PULSE_GAP_NS: DurationNs = 2;

/// Default single-qubit gate duration, in ns.
pub const SINGLE_QUBIT_DURATION_NS: DurationNs = 20;

/// Default two-qubit gate duration, in ns.
pub const TWO_QUBIT_DURATION_NS: DurationNs = 40;

/// Amplitude of the control drive of a two-qubit gate (eight tenths of full drive).
pub const CONTROL_DRIVE: Amplitude = 800;

/// Per-channel carrier frequency (Hz). Indexed by qubit/channel.
#[derive(Clone, Debug)]
pub struct ChannelConfig {
    pub frequencies_hz: Vec<Frequency>,
}

impl ChannelConfig {
    pub fn uniform(num_channels: usize, frequency_hz: Frequency) -> (config: Self)
        ensures
            config.frequencies_hz@ == Seq::new(num_channels as nat, |i: int| frequency_hz),
    {
        let frequencies_hz = vec![frequency_hz; num_channels];
        assert(frequencies_hz@ =~= Seq::new(num_channels as nat, |i: int| frequency_hz));
        Self { frequencies_hz }
    }
}

/// Whether a gate acts on two qubits.
pub open spec fn is_two_qubit(g: Gate) -> bool {
    g is CNOT || g is CZ
}

/// Whether a two-qubit gate routes its control and its target drive to one
/// channel (the same qubit twice, or two qubits past the last channel).
pub open spec fn drives_share_channel(g: Gate, num_channels: nat) -> bool {
    is_two_qubit(g) && channel_for(two_targets(g).0, num_channels) == channel_for(
        two_targets(g).1,
        num_channels,
    )
}

/// Extra wait before the target drive of a two-qubit gate: one inter-pulse gap
/// when both drives share a channel, none otherwise.
pub open spec fn target_delay_ns(g: Gate, num_channels: nat) -> int {
    if drives_share_channel(g, num_channels) {
        INTER_PULSE_GAP_NS as int
    } else {
        0
    }
}

/// The time a gate occupies on the clock: its duration plus the inter-pulse
/// gap, plus the target delay of a two-qubit gate.
pub open spec fn gate_slot_ns(g: Gate, num_channels: nat) -> int {
    if is_two_qubit(g) {
        TWO_QUBIT_DURATION_NS + INTER_PULSE_GAP_NS + target_delay_ns(g, num_channels)
    } else {
        SINGLE_QUBIT_DURATION_NS + INTER_PULSE_GAP_NS
    }
}

/// Total duration of a gate sequence on `num_channels` channels: the sum of
/// its gates' slots.
pub open spec fn schedule_end(gates: Seq<Gate>, num_channels: nat) -> int
    decreases gates.len(),
{
    if gates.len() == 0 {
        0
    } else {
        schedule_end(gates.drop_last(), num_channels) + gate_slot_ns(gates.last(), num_channels)
    }
}

/// The channel a qubit index is routed to: indices past the last channel are
/// routed to the last channel.
pub open spec fn channel_for(q: usize, num_channels: nat) -> usize {
    if num_channels == 0 {
        0
    } else if q < num_channels {
        q
    } else {
        (num_channels - 1) as usize
    }
}

/// The qubit a single-qubit gate acts on.
pub open spec fn single_target(g: Gate) -> usize {
    match g {
        Gate::H(q) => q,
        Gate::X(q) => q,
        Gate::Y(q) => q,
        Gate::Z(q) => q,
        Gate::S(q) => q,
        Gate::T(q) => q,
        Gate::Rx(q) => q,
        Gate::Ry(q) => q,
        Gate::Rz(q) => q,
        Gate::CNOT(c, _) => c,
        Gate::CZ(c, _) => c,
    }
}

/// The control and target qubits of a two-qubit gate.
pub open spec fn two_targets(g: Gate) -> (usize, usize) {
    match g {
        Gate::CNOT(c, t) => (c, t),
        Gate::CZ(c, t) => (c, t),
        _ => (0, 0),
    }
}

/// A pulse on `channel` starting at `start`.
pub open spec fn make_pulse(
    channel: usize,
    start: int,
    duration: DurationNs,
    amplitude: Amplitude,
    freqs: Seq<Frequency>,
    shape: Envelope,
) -> Pulse {
    Pulse {
        channel,
        start_ns: start as i64,
        duration_ns: duration,
        amplitude,
        frequency_hz: freqs[channel as int],
        phase: 0,
        shape,
    }
}

/// The pulses emitted for one gate whose slot starts at `clock`: one Drag
/// pulse for a single-qubit gate; for a two-qubit gate a control pulse of half
/// the two-qubit duration, then a target pulse of the same length, which waits
/// one more inter-pulse gap when both drives share a channel.
pub open spec fn gate_pulses(g: Gate, clock: int, freqs: Seq<Frequency>) -> Seq<Pulse> {
    let n = freqs.len();
    if is_two_qubit(g) {
        let (c, t) = two_targets(g);
        let half = (TWO_QUBIT_DURATION_NS / 2) as DurationNs;
        seq![
            make_pulse(channel_for(c, n), clock, half, CONTROL_DRIVE, freqs, Envelope::Gaussian),
            make_pulse(
                channel_for(t, n),
                clock + half + target_delay_ns(g, n),
                half,
                FULL_DRIVE,
                freqs,
                Envelope::Gaussian,
            ),
        ]
    } else {
        seq![
            make_pulse(
                channel_for(single_target(g), n),
                clock,
                SINGLE_QUBIT_DURATION_NS,
                FULL_DRIVE,
                freqs,
                Envelope::Drag,
            ),
        ]
    }
}

/// The pulse train of a gate sequence: each gate's pulses, in gate order, at
/// the clock reached by the gates before it.
pub open spec fn schedule_pulses(gates: Seq<Gate>, freqs: Seq<Frequency>) -> Seq<Pulse>
    decreases gates.len(),
{
    if gates.len() == 0 {
        Seq::empty()
    } else {
        let prefix = gates.drop_last();
        schedule_pulses(prefix, freqs) + gate_pulses(
            gates.last(),
            schedule_end(prefix, freqs.len()),
            freqs,
        )
    }
}

/// The clock never runs backwards: a prefix of a sequence ends no later than
/// the sequence.
pub proof fn lemma_schedule_end_prefix(gates: Seq<Gate>, n: nat, i: int)
    requires
        0 <= i <= gates.len(),
    ensures
        0 <= schedule_end(gates.take(i), n) <= schedule_end(gates, n),
    decreases gates.len(),
{
    if gates.len() > 0 {
        if i == gates.len() {
            assert(gates.take(i) =~= gates);
            lemma_schedule_end_prefix(gates.drop_last(), n, i - 1);
        } else {
            lemma_schedule_end_prefix(gates.drop_last(), n, i);
            assert(gates.drop_last().take(i) =~= gates.take(i));
        }
    }
}

/// A compiled pulse schedule: a deterministic, time-ordered pulse train.
#[derive(Debug)]
pub struct Schedule {
    pulses: Vec<Pulse>,
    total_duration_ns: TimestampNs,
}

impl Schedule {
    /// Every pulse starts at or after the beginning of the sequence.
    #[verifier::type_invariant]
    spec fn starts_nonnegative(self) -> bool {
        forall|i: int| 0 <= i < self.pulses.len() ==> self.pulses[i].start_ns >= 0
    }

    /// The pulses of the schedule, in emission order.
    pub closed spec fn pulse_seq(self) -> Seq<Pulse> {
        self.pulses@
    }

    /// The total duration of the schedule, in nanoseconds.
    pub closed spec fn total_ns(self) -> int {
        self.total_duration_ns as int
    }

    pub fn pulses(&self) -> (out: &[Pulse])
        ensures
            out@ == self.pulse_seq(),
    {
        self.pulses.as_slice()
    }

    pub fn total_duration_ns(&self) -> (t: TimestampNs)
        ensures
            t == self.total_ns(),
    {
        self.total_duration_ns
    }

    pub fn len(&self) -> (n: usize)
        ensures
            n == self.pulse_seq().len(),
    {
        self.pulses.len()
    }

    pub fn is_empty(&self) -> (b: bool)
        ensures
            b == (self.pulse_seq().len() == 0),
    {
        self.pulses.len() == 0
    }
}

impl Clone for Schedule {
    fn clone(&self) -> (s: Self)
        ensures
            s.pulse_seq() == self.pulse_seq(),
            s.total_ns() == self.total_ns(),
    {
        proof {
            use_type_invariant(self);
        }
        let mut pulses: Vec<Pulse> = Vec::with_capacity(self.pulses.len());
        let mut i: usize = 0;
        while i < self.pulses.len()
            invariant
                i <= self.pulses.len(),
                pulses@ == self.pulses@.take(i as int),
                forall|j: int| 0 <= j < self.pulses.len() ==> self.pulses[j].start_ns >= 0,
            decreases self.pulses.len() - i,
        {
            pulses.push(self.pulses[i]);
            i += 1;
            assert(pulses@ =~= self.pulses@.take(i as int));
        }
        assert(pulses@ =~= self.pulses@);
        Schedule { pulses, total_duration_ns: self.total_duration_ns }
    }
}

impl Default for Schedule {
    fn default() -> (s: Self)
        ensures
            s.pulse_seq() == Seq::<Pulse>::empty(),
            s.total_ns() == 0,
    {
        Schedule { pulses: Vec::new(), total_duration_ns: 0 }
    }
}

/// Translate a gate sequence into a deterministic [`Schedule`].
///
/// A two-qubit gate whose control and target drives land on one channel
/// delays its target drive by one inter-pulse gap (and its slot grows by the
/// same), so that pulses on one channel always stay a gap apart.
pub fn compile(gates: &[Gate], channels: &ChannelConfig) -> (schedule: Schedule)
    requires
        gates@.len() == 0 || channels.frequencies_hz@.len() > 0,
        schedule_end(gates@, channels.frequencies_hz@.len()) <= i64::MAX,
    ensures
        schedule.pulse_seq() == schedule_pulses(gates@, channels.frequencies_hz@),
        schedule.total_ns() == schedule_end(gates@, channels.frequencies_hz@.len()),
{
    let mut pulses: Vec<Pulse> = Vec::new();
    let mut clock: TimestampNs = 0;
    let num_channels = channels.frequencies_hz.len();
    let ghost freqs = channels.frequencies_hz@;
    let mut i: usize = 0;
    while i < gates.len()
        invariant
            i <= gates.len(),
            freqs == channels.frequencies_hz@,
            num_channels == freqs.len(),
            gates@.len() == 0 || num_channels > 0,
            schedule_end(gates@, freqs.len()) <= i64::MAX,
            clock == schedule_end(gates@.take(i as int), freqs.len()),
            pulses@ == schedule_pulses(gates@.take(i as int), freqs),
            forall|j: int| 0 <= j < pulses.len() ==> pulses[j].start_ns >= 0,
        decreases gates.len() - i,
    {
        proof {
            lemma_schedule_end_prefix(gates@, freqs.len(), i + 1);
            lemma_schedule_end_prefix(gates@, freqs.len(), i as int);
            assert(gates@.take(i + 1).drop_last() =~= gates@.take(i as int));
        }
        let gate = gates[i];
        match gate {
            Gate::H(q)
            | Gate::X(q)
            | Gate::Y(q)
            | Gate::Z(q)
            | Gate::S(q)
            | Gate::T(q)
            | Gate::Rx(q)
            | Gate::Ry(q)
            | Gate::Rz(q) => {
                let q = q.min(num_channels.saturating_sub(1));
                pulses.push(
                    Pulse {
                        channel: q,
                        start_ns: clock,
                        duration_ns: SINGLE_QUBIT_DURATION_NS,
                        amplitude: FULL_DRIVE,
                        frequency_hz: channels.frequencies_hz[q],
                        phase: 0,
                        shape: Envelope::Drag,
                    },
                );
                clock += SINGLE_QUBIT_DURATION_NS as TimestampNs + INTER_PULSE_GAP_NS as TimestampNs;
            },
            Gate::CNOT(c, t) | Gate::CZ(c, t) => {
                let c = c.min(num_channels.saturating_sub(1));
                let t = t.min(num_channels.saturating_sub(1));
                // Control drive (first half) and target drive (second half),
                // emitted deterministically with the control leading; a target
                // on the control's channel waits one gap after the control.
                let delay: TimestampNs = if c == t {
                    INTER_PULSE_GAP_NS as TimestampNs
                } else {
                    0
                };
                pulses.push(
                    Pulse {
                        channel: c,
                        start_ns: clock,
                        duration_ns: TWO_QUBIT_DURATION_NS / 2,
                        amplitude: CONTROL_DRIVE,
                        frequency_hz: channels.frequencies_hz[c],
                        phase: 0,
                        shape: Envelope::Gaussian,
                    },
                );
                pulses.push(
                    Pulse {
                        channel: t,
                        start_ns: clock + (TWO_QUBIT_DURATION_NS / 2) as TimestampNs + delay,
                        duration_ns: TWO_QUBIT_DURATION_NS / 2,
                        amplitude: FULL_DRIVE,
                        frequency_hz: channels.frequencies_hz[t],
                        phase: 0,
                        shape: Envelope::Gaussian,
                    },
                );
                clock += TWO_QUBIT_DURATION_NS as TimestampNs + INTER_PULSE_GAP_NS as TimestampNs + delay;
            },
        }
        i += 1;
        proof {
            assert(pulses@ =~= schedule_pulses(gates@.take(i as int), freqs));
        }
    }
    assert(gates@.take(gates.len() as int) =~= gates@);
    Schedule { total_duration_ns: clock, pulses }
}

/// Absolute value of an integer.
pub open spec fn abs_int(x: int) -> int {
    if x < 0 {
        -x
    } else {
        x
    }
}

/// The timing error of a start time replayed on a reference clock: the
/// magnitude of the (truncating) remainder of the start by the clock period.
pub open spec fn tick_offset(start: int, period: int) -> int {
    abs_int(start) % abs_int(period)
}

/// The largest timing error over a pulse train (0 for an empty train).
pub open spec fn max_tick_offset(pulses: Seq<Pulse>, period: int) -> int
    decreases pulses.len(),
{
    if pulses.len() == 0 {
        0
    } else {
        let rest = max_tick_offset(pulses.drop_last(), period);
        let off = tick_offset(pulses.last().start_ns as int, period);
        if off > rest {
            off
        } else {
            rest
        }
    }
}

/// Maximum absolute timing jitter observed when replaying a schedule on a
/// reference clock with period `clock_period_ns`. Used by the validation
/// harness to confirm the sub-10ns jitter target.
pub fn max_jitter_ns(schedule: &Schedule, clock_period_ns: TimestampNs) -> (jitter: TimestampNs)
    requires
        schedule.pulse_seq().len() == 0 || clock_period_ns != 0,
    ensures
        jitter == max_tick_offset(schedule.pulse_seq(), clock_period_ns as int),
{
    proof {
        use_type_invariant(schedule);
    }
    let period_abs: u64 = if clock_period_ns >= 0 {
        clock_period_ns as u64
    } else {
        (-(clock_period_ns + 1)) as u64 + 1
    };
    let n = schedule.pulses.len();
    let mut best: TimestampNs = 0;
    let mut i: usize = 0;
    while i < n
        invariant
            n == schedule.pulses.len(),
            i <= n,
            n == 0 || period_abs > 0,
            period_abs == abs_int(clock_period_ns as int),
            period_abs <= 0x8000_0000_0000_0000,
            forall|j: int| 0 <= j < n ==> schedule.pulses[j].start_ns >= 0,
            best == max_tick_offset(schedule.pulses@.take(i as int), clock_period_ns as int),
        decreases n - i,
    {
        assert(schedule.pulses@.take(i + 1).drop_last() =~= schedule.pulses@.take(i as int));
        let start = schedule.pulses[i].start_ns;
        let off = ((start as u64) % period_abs) as TimestampNs;
        if off > best {
            best = off;
        }
        i += 1;
    }
    assert(schedule.pulses@.take(n as int) =~= schedule.pulses@);
    best
}

/// The shape of a compiled pulse train: every pulse starts at an even time
/// inside the schedule and ends at least one gap before the schedule does;
/// pulses never overlap and come in time order; pulses on one channel are at
/// least one inter-pulse gap apart; each pulse is routed to a configured
/// channel and carries that channel's frequency.
pub proof fn law_schedule_is_ordered(gates: Seq<Gate>, freqs: Seq<Frequency>)
    requires
        schedule_end(gates, freqs.len()) <= i64::MAX,
    ensures
        ({
            let ps = schedule_pulses(gates, freqs);
            &&& forall|i: int|
                0 <= i < ps.len() ==> {
                    &&& 0 <= (#[trigger] ps[i]).start_ns
                    &&& ps[i].start_ns % 2 == 0
                    &&& pulse_end(ps[i]) + INTER_PULSE_GAP_NS <= schedule_end(gates, freqs.len())
                    &&& (freqs.len() > 0 ==> ps[i].channel < freqs.len() && ps[i].frequency_hz
                        == freqs[ps[i].channel as int])
                }
            &&& forall|i: int, j: int|
                0 <= i < j < ps.len() ==> pulse_end(#[trigger] ps[i]) <= (#[trigger] ps[j]).start_ns
            &&& forall|i: int, j: int|
                0 <= i < j < ps.len() && (#[trigger] ps[i]).channel == (#[trigger] ps[j]).channel
                    ==> pulse_end(ps[i]) + INTER_PULSE_GAP_NS <= ps[j].start_ns
        }),
    decreases gates.len(),
{
    if gates.len() > 0 {
        let n = freqs.len();
        let prefix = gates.drop_last();
        let g = gates.last();
        let e = schedule_end(prefix, n);
        lemma_schedule_end_prefix(gates, n, gates.len() - 1);
        assert(gates.take(gates.len() - 1) =~= prefix);
        law_schedule_is_ordered(prefix, freqs);
        let pp = schedule_pulses(prefix, freqs);
        let np = gate_pulses(g, e, freqs);
        let ps = schedule_pulses(gates, freqs);
        assert(ps == pp + np);
        assert(e % 2 == 0) by {
            lemma_schedule_end_even(prefix, n);
        }
    }
}

/// The clock advances in steps of two nanoseconds, so the schedule ends at an even time.
pub proof fn lemma_schedule_end_even(gates: Seq<Gate>, n: nat)
    ensures
        schedule_end(gates, n) % 2 == 0,
    decreases gates.len(),
{
    if gates.len() > 0 {
        lemma_schedule_end_even(gates.drop_last(), n);
    }
}

/// Replaying a schedule on a 1 ns or 2 ns reference clock shows no jitter at
/// all, and on any clock the jitter stays below the clock period.
pub proof fn law_jitter_bounds(gates: Seq<Gate>, freqs: Seq<Frequency>, period: int)
    requires
        schedule_end(gates, freqs.len()) <= i64::MAX,
        period != 0,
    ensures
        0 <= max_tick_offset(schedule_pulses(gates, freqs), period) < abs_int(period),
        abs_int(period) <= 2 ==> max_tick_offset(schedule_pulses(gates, freqs), period) == 0,
{
    law_schedule_is_ordered(gates, freqs);
    lemma_max_tick_offset_bounds(schedule_pulses(gates, freqs), period);
}

/// Bounds on the largest timing error of pulses that start at even, non-negative times.
proof fn lemma_max_tick_offset_bounds(ps: Seq<Pulse>, period: int)
    requires
        period != 0,
        forall|i: int| 0 <= i < ps.len() ==> 0 <= (#[trigger] ps[i]).start_ns && ps[i].start_ns % 2 == 0,
    ensures
        0 <= max_tick_offset(ps, period) < abs_int(period),
        abs_int(period) <= 2 ==> max_tick_offset(ps, period) == 0,
    decreases ps.len(),
{
    if ps.len() > 0 {
        let rest = ps.drop_last();
        assert forall|i: int| 0 <= i < rest.len() implies 0 <= (#[trigger] rest[i]).start_ns && rest[i].start_ns % 2 == 0 by {
            assert(rest[i] == ps[i]);
        }
        lemma_max_tick_offset_bounds(rest, period);
        let s = ps.last().start_ns as int;
        assert(ps.last() == ps[ps.len() - 1]);
        if abs_int(period) == 2 {
            assert(s % 2 == 0);
        }
    }
}

/// Compiling is deterministic: two schedules that meet the contract of
/// [`compile`] for the same gates and channels hold the same pulse train and
/// the same total duration.
pub proof fn law_compile_is_deterministic(a: Schedule, b: Schedule, gates: Seq<Gate>, freqs: Seq<Frequency>)
    requires
        a.pulse_seq() == schedule_pulses(gates, freqs),
        a.total_ns() == schedule_end(gates, freqs.len()),
        b.pulse_seq() == schedule_pulses(gates, freqs),
        b.total_ns() == schedule_end(gates, freqs.len()),
    ensures
        a.pulse_seq() == b.pulse_seq(),
        a.total_ns() == b.total_ns(),
{
}

/// Number of two-qubit gates in a sequence.
pub open spec fn two_qubit_count(gates: Seq<Gate>) -> nat
    decreases gates.len(),
{
    if gates.len() == 0 {
        0
    } else {
        two_qubit_count(gates.drop_last()) + if is_two_qubit(gates.last()) {
            1nat
        } else {
            0nat
        }
    }
}

/// Number of two-qubit gates whose two drives share a channel.
pub open spec fn shared_channel_count(gates: Seq<Gate>, num_channels: nat) -> nat
    decreases gates.len(),
{
    if gates.len() == 0 {
        0
    } else {
        shared_channel_count(gates.drop_last(), num_channels) + if drives_share_channel(
            gates.last(),
            num_channels,
        ) {
            1nat
        } else {
            0nat
        }
    }
}

/// Every gate yields one pulse and every two-qubit gate one more; every gate
/// takes a 22 ns slot, every two-qubit gate 20 ns more, and every two-qubit
/// gate whose drives share a channel another inter-pulse gap.
pub proof fn law_schedule_size(gates: Seq<Gate>, freqs: Seq<Frequency>)
    ensures
        schedule_pulses(gates, freqs).len() == gates.len() + two_qubit_count(gates),
        schedule_end(gates, freqs.len()) == (SINGLE_QUBIT_DURATION_NS + INTER_PULSE_GAP_NS) * gates.len()
            + (TWO_QUBIT_DURATION_NS - SINGLE_QUBIT_DURATION_NS) * two_qubit_count(gates)
            + INTER_PULSE_GAP_NS * shared_channel_count(gates, freqs.len()),
    decreases gates.len(),
{
    if gates.len() > 0 {
        law_schedule_size(gates.drop_last(), freqs);
    }
}

/// The timing error of a start time is its distance from the last clock tick
/// at or before it (for a start measured in magnitude): it lies below the
/// clock period and what remains is a whole number of periods.
pub proof fn law_tick_offset_is_distance_to_tick(start: int, period: int)
    requires
        period != 0,
    ensures
        ({
            let a = if start < 0 {
                -start
            } else {
                start
            };
            let p = if period < 0 {
                -period
            } else {
                period
            };
            &&& 0 <= tick_offset(start, period) < p
            &&& (a - tick_offset(start, period)) % p == 0
        }),
{
    let a = abs_int(start);
    let p = abs_int(period);
    vstd::arithmetic::div_mod::lemma_fundamental_div_mod(a, p);
    vstd::arithmetic::div_mod::lemma_mod_multiples_basic(a / p, p);
    assert(a - a % p == p * (a / p));
    assert(p * (a / p) == (a / p) * p) by (nonlinear_arith);
}

/// The jitter of a pulse train is the largest timing error of any of its
/// pulses: it is 0 for an empty train, no pulse's error exceeds it, and some
/// pulse's error equals it.
pub proof fn law_max_jitter_is_worst_pulse(ps: Seq<Pulse>, period: int)
    requires
        period != 0,
    ensures
        ps.len() == 0 ==> max_tick_offset(ps, period) == 0,
        forall|i: int|
            0 <= i < ps.len() ==> tick_offset((#[trigger] ps[i]).start_ns as int, period) <= max_tick_offset(ps, period),
        ps.len() > 0 ==> exists|i: int|
            0 <= i < ps.len() && tick_offset((#[trigger] ps[i]).start_ns as int, period) == max_tick_offset(ps, period),
    decreases ps.len(),
{
    if ps.len() > 0 {
        let rest = ps.drop_last();
        law_max_jitter_is_worst_pulse(rest, period);
        let last = ps.len() - 1;
        assert(ps.last() == ps[last]);
        assert forall|i: int| 0 <= i < ps.len() implies tick_offset((#[trigger] ps[i]).start_ns as int, period)
            <= max_tick_offset(ps, period) by {
            if i < last {
                assert(rest[i] == ps[i]);
            }
        }
        if rest.len() == 0 || tick_offset(ps[last].start_ns as int, period) > max_tick_offset(rest, period) {
            if rest.len() == 0 {
                assert(tick_offset(ps[last].start_ns as int, period) >= 0) by {
                    law_tick_offset_is_distance_to_tick(ps[last].start_ns as int, period);
                }
            }
            assert(tick_offset(ps[last].start_ns as int, period) == max_tick_offset(ps, period));
        } else {
            let j = choose|j: int| 0 <= j < rest.len() && tick_offset((#[trigger] rest[j]).start_ns as int, period)
                == max_tick_offset(rest, period);
            assert(rest[j] == ps[j]);
        }
    }
}

/// A pulse train delayed by `offset` nanoseconds.
pub open spec fn delayed(ps: Seq<Pulse>, offset: int) -> Seq<Pulse> {
    Seq::new(
        ps.len(),
        |i: int|
            Pulse {
                channel: ps[i].channel,
                start_ns: (ps[i].start_ns + offset) as i64,
                duration_ns: ps[i].duration_ns,
                amplitude: ps[i].amplitude,
                frequency_hz: ps[i].frequency_hz,
                phase: ps[i].phase,
                shape: ps[i].shape,
            },
    )
}

/// Compiling is compositional: the schedule of one sequence followed by
/// another is the schedule of the first followed by the schedule of the
/// second, delayed by the first one's duration; durations add up.
pub proof fn law_schedule_concatenates(a: Seq<Gate>, b: Seq<Gate>, freqs: Seq<Frequency>)
    requires
        schedule_end(a + b, freqs.len()) <= i64::MAX,
    ensures
        schedule_end(a + b, freqs.len()) == schedule_end(a, freqs.len()) + schedule_end(b, freqs.len()),
        schedule_pulses(a + b, freqs) == schedule_pulses(a, freqs) + delayed(
            schedule_pulses(b, freqs),
            schedule_end(a, freqs.len()),
        ),
    decreases b.len(),
{
    let n = freqs.len();
    let e = schedule_end(a, n);
    if b.len() == 0 {
        assert(a + b =~= a);
        assert(delayed(schedule_pulses(b, freqs), e) =~= Seq::<Pulse>::empty());
        assert(schedule_pulses(a, freqs) + Seq::<Pulse>::empty() =~= schedule_pulses(a, freqs));
    } else {
        let bp = b.drop_last();
        let g = b.last();
        assert((a + b).drop_last() =~= a + bp);
        assert((a + b).last() == g);
        lemma_schedule_end_prefix(a + b, n, (a + b).len() - 1);
        assert((a + b).take((a + b).len() - 1) =~= a + bp);
        law_schedule_concatenates(a, bp, freqs);
        lemma_schedule_end_prefix(a + bp, n, a.len() as int);
        assert((a + bp).take(a.len() as int) =~= a);
        lemma_schedule_end_prefix(bp, n, 0);
        let t = schedule_end(bp, n);
        let sb = schedule_pulses(b, freqs);
        let sbp = schedule_pulses(bp, freqs);
        let gp = gate_pulses(g, t, freqs);
        assert(sb == sbp + gp);
        assert(delayed(gp, e) =~= gate_pulses(g, t + e, freqs));
        assert(delayed(sb, e) =~= delayed(sbp, e) + delayed(gp, e));
        assert(schedule_pulses(a + b, freqs) =~= schedule_pulses(a, freqs) + delayed(sb, e));
    }
}

/// The schedule of a single gate on a non-empty channel table, with the qubit
/// routing spelled out (a qubit past the last channel goes to the last
/// channel): a single-qubit gate is one 20 ns full-drive Drag pulse in a 22 ns
/// slot; a two-qubit gate is a 20 ns Gaussian control pulse at eight tenths of
/// full drive, then a 20 ns full-drive Gaussian target pulse starting when the
/// control ends (one 2 ns gap later if both land on one channel), in a 42 ns
/// slot (44 ns if they share a channel). Every pulse carries its channel's
/// frequency and no phase offset.
pub proof fn law_single_gate_schedule(g: Gate, freqs: Seq<Frequency>)
    requires
        freqs.len() > 0,
    ensures
        ({
            let n = freqs.len() as int;
            let ps = schedule_pulses(seq![g], freqs);
            let route = |q: usize| if q < n { q as int } else { n - 1 };
            match g {
                Gate::CNOT(c, t) | Gate::CZ(c, t) => {
                    let share = route(c) == route(t);
                    &&& ps.len() == 2
                    &&& ps[0].channel == route(c) && ps[1].channel == route(t)
                    &&& ps[0].start_ns == 0 && ps[1].start_ns == if share { 22int } else { 20int }
                    &&& ps[0].duration_ns == 20 && ps[1].duration_ns == 20
                    &&& ps[0].amplitude == 800 && ps[1].amplitude == 1000
                    &&& ps[0].shape == Envelope::Gaussian && ps[1].shape == Envelope::Gaussian
                    &&& ps[0].phase == 0 && ps[1].phase == 0
                    &&& ps[0].frequency_hz == freqs[route(c)] && ps[1].frequency_hz == freqs[route(t)]
                    &&& schedule_end(seq![g], freqs.len()) == if share { 44int } else { 42int }
                },
                Gate::H(q) | Gate::X(q) | Gate::Y(q) | Gate::Z(q) | Gate::S(q) | Gate::T(q) | Gate::Rx(q)
                | Gate::Ry(q) | Gate::Rz(q) => {
                    &&& ps.len() == 1
                    &&& ps[0].channel == route(q)
                    &&& ps[0].start_ns == 0
                    &&& ps[0].duration_ns == 20
                    &&& ps[0].amplitude == 1000
                    &&& ps[0].shape == Envelope::Drag
                    &&& ps[0].phase == 0
                    &&& ps[0].frequency_hz == freqs[route(q)]
                    &&& schedule_end(seq![g], freqs.len()) == 22
                },
            }
        }),
{
    assert(seq![g].drop_last() =~= Seq::<Gate>::empty());
    assert(seq![g].last() == g);
    assert(schedule_end(Seq::<Gate>::empty(), freqs.len()) == 0);
    assert(schedule_pulses(Seq::<Gate>::empty(), freqs) == Seq::<Pulse>::empty());
    assert(schedule_pulses(seq![g], freqs) =~= Seq::<Pulse>::empty() + gate_pulses(g, 0, freqs));
    assert(schedule_pulses(seq![g], freqs) =~= gate_pulses(g, 0, freqs));
}

} // verus!
