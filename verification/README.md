# qphase

Verified core of a memory-safe quantum control stack, written in Verus.

`src/` is the verified library:

- `gates` — identifiers of the standard gate set.
- `pulse` — microwave pulse parameters in integer units (amplitude in
  thousandths of full drive, frequency in hertz, phase in milliradians,
  times in nanoseconds).
- `schedule` — deterministic compilation of gate sequences into time-ordered
  pulse trains, and the jitter measure of a schedule on a reference clock.
- `simulator` — the integer side of the state-vector simulator: which
  amplitudes a gate mixes, qubit-range checks, the xorshift32 measurement
  generator and the outcome histogram.
- `cryo` — cryostat stages and their table positions.
- `error_correction` — surface-code patches, syndrome extraction, decoding
  and dispatch of corrective pulses.
- `interface` — the circuit API contract (requests, results, gate specs).

`app/` holds what works on floating point or serialises: the complex
amplitude arithmetic and measurement of the simulator, the cryostat thermal
model and PID loop, the calibration engine, and the JSON server side of the
API.
