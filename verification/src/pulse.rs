//! Pulse parameter types: amplitude, frequency, phase and timing.
//!
//! These describe the microwave envelope parameters emitted by the pulse
//! sequencer, in integer units: amplitude in thousandths of full drive,
//! frequency in whole hertz, phase in milliradians, times in nanoseconds.

use vstd::prelude::*;

verus! {

/// Pulse amplitude, in thousandths of full drive strength (full drive is 1000).
pub type Amplitude = i32;

/// Carrier frequency (or frequency offset), in whole hertz.
pub type Frequency = i64;

/// Phase offset, in milliradians.
pub type Phase = i32;

/// Time offset from sequence start, in nanoseconds.
pub type TimestampNs = i64;

/// Duration of a pulse, in nanoseconds.
pub type DurationNs = u32;

/// Amplitude of a full-strength drive.
pub const FULL_DRIVE: Amplitude = 1000;

/// A microwave control pulse targeting a single qubit channel.
#[derive(Clone, Copy, Debug, PartialEq, Eq, Structural)]
pub struct Pulse {
    /// Qubit/channel index this pulse is routed to.
    pub channel: usize,
    /// Start time relative to sequence start, in nanoseconds.
    pub start_ns: TimestampNs,
    /// Pulse length, in nanoseconds.
    pub duration_ns: DurationNs,
    /// Peak amplitude, in thousandths of full drive.
    pub amplitude: Amplitude,
    /// Carrier frequency in Hz.
    pub frequency_hz: Frequency,
    /// Phase offset in milliradians.
    pub phase: Phase,
    /// Envelope shape.
    pub shape: Envelope,
}

/// Pulse envelope shape.
#[derive(Clone, Copy, Debug, PartialEq, Eq, Structural)]
pub enum Envelope {
    /// Rectangular (constant amplitude).
    Square,
    /// Raised-cosine (Gaussian-derivative-like) smoothing.
    Gaussian,
    /// Drag-corrected Gaussian (used for leakage suppression).
    Drag,
}

/// End time of a pulse, in nanoseconds (exclusive).
pub open spec fn pulse_end(p: Pulse) -> int {
    p.start_ns + p.duration_ns
}

impl Pulse {
    /// End time of this pulse, in nanoseconds (exclusive).
    pub fn end_ns(&self) -> (end: TimestampNs)
        requires
            pulse_end(*self) <= i64::MAX,
        ensures
            end == pulse_end(*self),
    {
        self.start_ns + self.duration_ns as TimestampNs
    }
}

} // verus!
