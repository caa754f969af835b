//! Surface-code error correction layer (software model).
//!
//! A rotated surface-code patch of distance `d` holds `d * d` data qubits in
//! row-major order. Plaquette `(r, c)`, for `r, c < d - 1`, watches the data
//! qubits at rows `r, r + 1` and columns `c, c + 1`; it fires when an odd number
//! of them carry an error with an X component. The decoder clears the X
//! component of the plaquette's top-left qubit (its anchor) for every fired
//! plaquette and reports one corrective X gate per correction.

use vstd::prelude::*;
use vstd::arithmetic::div_mod::lemma_fundamental_div_mod_converse;
use vstd::arithmetic::div_mod::lemma_fundamental_div_mod;
use crate::gates::Gate;
use crate::pulse::{DurationNs, Envelope, Frequency, Pulse, FULL_DRIVE};

verus! {

/// Distance of the (rotated) surface code. Code uses `d x d` physical qubits.
#[derive(Clone, Copy, Debug, PartialEq, Eq, Structural)]
pub struct CodeDistance(pub usize);

impl CodeDistance {
    /// Number of physical qubits required for a rotated surface code of this
    /// distance.
    pub fn physical_qubits(&self) -> (n: usize)
        requires
            self.0 * self.0 <= usize::MAX,
        ensures
            n == self.0 * self.0,
    {
        self.0 * self.0
    }
}

/// A stabilizer measurement outcome: which syndrome qubits fired (1) vs not (0).
#[derive(Clone, Debug, PartialEq, Eq)]
pub struct Syndrome {
    /// Fired stabilizer measurements, indexed by stabilizer id.
    pub fired: Vec<bool>,
}

/// Pauli operator on a single physical qubit.
#[derive(Clone, Copy, Debug, PartialEq, Eq, Structural)]
pub enum Pauli {
    I,
    X,
    Z,
    Y,
}

/// Gate for a Pauli operator on a qubit.
pub open spec fn pauli_gate(p: Pauli, q: usize) -> Option<Gate> {
    match p {
        Pauli::I => None,
        Pauli::X => Some(Gate::X(q)),
        Pauli::Z => Some(Gate::Z(q)),
        Pauli::Y => Some(Gate::Y(q)),
    }
}

impl Pauli {
    pub fn to_gate(self, q: usize) -> (g: Option<Gate>)
        ensures
            g == pauli_gate(self, q),
    {
        match self {
            Pauli::I => None,
            Pauli::X => Some(Gate::X(q)),
            Pauli::Z => Some(Gate::Z(q)),
            Pauli::Y => Some(Gate::Y(q)),
        }
    }
}

/// An error with an X component (X or Y), the kind the plaquettes detect.
pub open spec fn has_x_part(p: Pauli) -> bool {
    p == Pauli::X || p == Pauli::Y
}

/// The error left after an X correction: X becomes I, Y becomes Z.
pub open spec fn strip_x(p: Pauli) -> Pauli {
    match p {
        Pauli::X => Pauli::I,
        Pauli::Y => Pauli::Z,
        other => other,
    }
}

/// Number of physical qubits carrying any error.
pub open spec fn count_errors(errors: Seq<Pauli>) -> nat
    decreases errors.len(),
{
    if errors.len() == 0 {
        0
    } else {
        count_errors(errors.drop_last()) + if errors.last() != Pauli::I {
            1nat
        } else {
            0nat
        }
    }
}

/// Qubit `(rr, cc)` of a `d x d` patch, if it lies inside the patch.
pub open spec fn qubit_at(d: int, rr: int, cc: int) -> Seq<usize> {
    if 0 <= rr < d && 0 <= cc < d {
        seq![(rr * d + cc) as usize]
    } else {
        seq![]
    }
}

/// The data qubits around plaquette `(r, c)` that lie inside the patch, in the
/// order top-left, top-right, bottom-left, bottom-right.
pub open spec fn plaquette_qubits(d: int, r: int, c: int) -> Seq<usize> {
    qubit_at(d, r, c) + qubit_at(d, r, c + 1) + qubit_at(d, r + 1, c) + qubit_at(d, r + 1, c + 1)
}

/// How many of the listed qubits carry an error with an X component.
pub open spec fn x_type_count(errors: Seq<Pauli>, qs: Seq<usize>) -> nat
    decreases qs.len(),
{
    if qs.len() == 0 {
        0
    } else {
        x_type_count(errors, qs.drop_last()) + if has_x_part(errors[qs.last() as int]) {
            1nat
        } else {
            0nat
        }
    }
}

/// Plaquette `(r, c)` fires when an odd number of its qubits carry an X-type error.
pub open spec fn plaquette_fires(d: int, errors: Seq<Pauli>, r: int, c: int) -> bool {
    x_type_count(errors, plaquette_qubits(d, r, c)) % 2 == 1
}

/// The syndrome of a distance-`d` patch: one entry per plaquette, row-major.
pub open spec fn syndrome_of(d: int, errors: Seq<Pauli>) -> Seq<bool> {
    Seq::new(
        ((d - 1) * (d - 1)) as nat,
        |k: int| plaquette_fires(d, errors, k / (d - 1), k % (d - 1)),
    )
}

/// Whether entry `k` of a syndrome reports a fired plaquette (missing entries do not).
pub open spec fn fired_at(fired: Seq<bool>, k: int) -> bool {
    0 <= k < fired.len() && fired[k]
}

/// The anchor (top-left data qubit) of plaquette number `k`.
pub open spec fn plaquette_anchor(d: int, k: int) -> int {
    (k / (d - 1)) * d + k % (d - 1)
}

/// Whether data qubit `q` is the anchor of a plaquette that the syndrome reports as fired.
pub open spec fn corrected_at(d: int, fired: Seq<bool>, q: int) -> bool {
    &&& q % d < d - 1
    &&& q / d < d - 1
    &&& fired_at(fired, (q / d) * (d - 1) + q % d)
}

/// The errors left after decoding `fired` on a distance-`d` patch.
pub open spec fn decoded(d: int, errors: Seq<Pauli>, fired: Seq<bool>) -> Seq<Pauli> {
    Seq::new(
        errors.len(),
        |q: int|
            if corrected_at(d, fired, q) {
                strip_x(errors[q])
            } else {
                errors[q]
            },
    )
}

/// The corrective gates for the first `k` plaquettes, in plaquette order.
pub open spec fn corrections_upto(d: int, fired: Seq<bool>, k: nat) -> Seq<Gate>
    decreases k,
{
    if k == 0 {
        Seq::empty()
    } else {
        let prev = corrections_upto(d, fired, (k - 1) as nat);
        if fired_at(fired, k - 1) {
            prev.push(Gate::X(plaquette_anchor(d, k - 1) as usize))
        } else {
            prev
        }
    }
}

/// The corrective gates dispatched for syndrome `fired` on a distance-`d` patch.
pub open spec fn corrections_of(d: int, fired: Seq<bool>) -> Seq<Gate> {
    corrections_upto(d, fired, ((d - 1) * (d - 1)) as nat)
}

/// Position facts for plaquette `(r, c)` and its anchor `r * d + c`.
pub proof fn lemma_anchor_position(d: int, r: int, c: int)
    requires
        d >= 2,
        0 <= r < d - 1,
        0 <= c < d - 1,
    ensures
        0 <= r * d + c,
        r * d + c + d + 1 < d * d,
        (r * d + c) / d == r,
        (r * d + c) % d == c,
        (r * (d - 1) + c) / (d - 1) == r,
        (r * (d - 1) + c) % (d - 1) == c,
        0 <= r * (d - 1) + c < (d - 1) * (d - 1),
{
    assert(0 <= r * d) by (nonlinear_arith)
        requires
            0 <= r,
            0 <= d,
    ;
    assert(r * d + c + d + 1 < d * d) by (nonlinear_arith)
        requires
            d >= 2,
            0 <= r < d - 1,
            0 <= c < d - 1,
    ;
    assert(0 <= r * (d - 1) + c < (d - 1) * (d - 1)) by (nonlinear_arith)
        requires
            d >= 2,
            0 <= r < d - 1,
            0 <= c < d - 1,
    ;
    lemma_fundamental_div_mod_converse(r * d + c, d, r, c);
    lemma_fundamental_div_mod_converse(r * (d - 1) + c, d - 1, r, c);
}

/// A data qubit is determined by its row and column.
pub proof fn lemma_row_col(d: int, q: int)
    requires
        d >= 1,
        0 <= q,
    ensures
        q == (q / d) * d + q % d,
        0 <= q % d < d,
        0 <= q / d,
{
    lemma_fundamental_div_mod(q, d);
    assert((q / d) * d == d * (q / d)) by (nonlinear_arith);
}

/// The four qubits of an interior plaquette.
pub proof fn lemma_interior_plaquette(d: int, r: int, c: int)
    requires
        d >= 2,
        0 <= r < d - 1,
        0 <= c < d - 1,
    ensures
        ({
            let a = r * d + c;
            plaquette_qubits(d, r, c) == seq![a as usize, (a + 1) as usize, (a + d) as usize, (a + d + 1) as usize]
        }),
{
    let a = r * d + c;
    assert(r * d + (c + 1) == r * d + c + 1) by (nonlinear_arith);
    assert((r + 1) * d + c == r * d + c + d) by (nonlinear_arith);
    assert((r + 1) * d + (c + 1) == r * d + c + d + 1) by (nonlinear_arith);
    assert(plaquette_qubits(d, r, c) =~= seq![a as usize, (a + 1) as usize, (a + d) as usize, (a + d + 1) as usize]);
}

/// Duration of a corrective pulse, in ns; corrective pulses are spaced by it.
pub const CORRECTION_PULSE_NS: DurationNs = 20;

/// Carrier frequency of corrective pulses (5 GHz), in Hz.
pub const CORRECTION_FREQUENCY_HZ: Frequency = 5_000_000_000;

/// Whether a gate is a single-qubit Pauli gate (X, Y or Z).
pub open spec fn is_pauli_gate(g: Gate) -> bool {
    g is X || g is Y || g is Z
}

/// Corrective pulse for entry `i` of a list of corrections whose first slot
/// begins at time `start`: a Drag pulse on the corrected qubit in slot `i`.
pub open spec fn correction_pulse(g: Gate, i: int, start: int) -> Pulse {
    let q = match g {
        Gate::X(q) => q,
        Gate::Y(q) => q,
        Gate::Z(q) => q,
        _ => 0,
    };
    Pulse {
        channel: q,
        start_ns: (start + i * CORRECTION_PULSE_NS) as i64,
        duration_ns: CORRECTION_PULSE_NS,
        amplitude: FULL_DRIVE,
        frequency_hz: CORRECTION_FREQUENCY_HZ,
        phase: 0,
        shape: Envelope::Drag,
    }
}

/// The pulses dispatched for a list of corrective gates: one per Pauli gate,
/// in list order; other gates are skipped but keep their time slot.
pub open spec fn correction_pulses(gates: Seq<Gate>, start: int) -> Seq<Pulse>
    decreases gates.len(),
{
    if gates.len() == 0 {
        Seq::empty()
    } else {
        let prev = correction_pulses(gates.drop_last(), start);
        if is_pauli_gate(gates.last()) {
            prev.push(correction_pulse(gates.last(), gates.len() - 1, start))
        } else {
            prev
        }
    }
}

/// Encoded logical qubit state under a surface-code patch.
#[derive(Debug)]
pub struct SurfaceCode {
    distance: CodeDistance,
    /// Per-physical-qubit Pauli error currently applied (`X`, `Z`, or none).
    errors: Vec<Pauli>,
}

impl Clone for SurfaceCode {
    fn clone(&self) -> (code: Self)
        ensures
            code.wf() == self.wf(),
            code.code_distance() == self.code_distance(),
            code.error_seq() == self.error_seq(),
    {
        let mut errors: Vec<Pauli> = Vec::with_capacity(self.errors.len());
        let mut i: usize = 0;
        while i < self.errors.len()
            invariant
                i <= self.errors.len(),
                errors@ == self.errors@.take(i as int),
            decreases self.errors.len() - i,
        {
            errors.push(self.errors[i]);
            i += 1;
            assert(errors@ =~= self.errors@.take(i as int));
        }
        assert(errors@ =~= self.errors@);
        SurfaceCode { distance: self.distance, errors }
    }
}

impl SurfaceCode {
    /// One error slot per physical qubit of the patch.
    pub closed spec fn wf(self) -> bool {
        self.errors.len() == self.distance.0 * self.distance.0
    }

    /// The code distance `d` of the patch.
    pub closed spec fn code_distance(self) -> usize {
        self.distance.0
    }

    /// The error on each physical qubit, in row-major order.
    pub closed spec fn error_seq(self) -> Seq<Pauli> {
        self.errors@
    }

    /// A well-formed patch holds one error slot per physical qubit.
    pub proof fn lemma_well_formed(self)
        requires
            self.wf(),
        ensures
            self.error_seq().len() == self.code_distance() * self.code_distance(),
            self.code_distance() * self.code_distance() <= usize::MAX,
    {
    }

    /// Create an empty `d x d` code patch with no errors.
    pub fn new(distance: CodeDistance) -> (code: Self)
        requires
            distance.0 * distance.0 <= usize::MAX,
        ensures
            code.wf(),
            code.code_distance() == distance.0,
            code.error_seq() == Seq::new((distance.0 * distance.0) as nat, |q: int| Pauli::I),
    {
        let n = distance.physical_qubits();
        let mut errors: Vec<Pauli> = Vec::with_capacity(n);
        let mut i: usize = 0;
        while i < n
            invariant
                i <= n,
                errors.len() == i,
                forall|j: int| 0 <= j < i ==> errors[j] == Pauli::I,
            decreases n - i,
        {
            errors.push(Pauli::I);
            i += 1;
        }
        assert(errors@ =~= Seq::new((distance.0 * distance.0) as nat, |q: int| Pauli::I));
        SurfaceCode { distance, errors }
    }

    pub fn distance(&self) -> (d: CodeDistance)
        ensures
            d.0 == self.code_distance(),
    {
        self.distance
    }

    /// Inject a Pauli error on a physical qubit (simulated decoherence).
    /// A qubit index outside the patch is ignored.
    pub fn inject_error(&mut self, qubit: usize, err: Pauli)
        requires
            old(self).wf(),
        ensures
            final(self).wf(),
            final(self).code_distance() == old(self).code_distance(),
            final(self).error_seq() == if qubit < old(self).error_seq().len() {
                old(self).error_seq().update(qubit as int, err)
            } else {
                old(self).error_seq()
            },
    {
        if qubit < self.errors.len() {
            self.errors.set(qubit, err);
        }
    }

    /// Count of physical qubits currently carrying an error.
    pub fn error_count(&self) -> (n: usize)
        ensures
            n == count_errors(self.error_seq()),
    {
        let len = self.errors.len();
        let mut n: usize = 0;
        let mut i: usize = 0;
        while i < len
            invariant
                len == self.errors.len(),
                i <= len,
                n <= i,
                n == count_errors(self.errors@.take(i as int)),
            decreases len - i,
        {
            assert(self.errors@.take(i + 1).drop_last() =~= self.errors@.take(i as int));
            if self.errors[i] != Pauli::I {
                n += 1;
            }
            i += 1;
        }
        assert(self.errors@.take(len as int) =~= self.errors@);
        n
    }

    /// The data qubits around plaquette `(r, c)` that lie inside the patch.
    fn neighbors(&self, r: usize, c: usize) -> (out: Vec<usize>)
        requires
            self.wf(),
            r < self.code_distance(),
            c < self.code_distance(),
        ensures
            out@ == plaquette_qubits(self.code_distance() as int, r as int, c as int),
            forall|i: int| 0 <= i < out.len() ==> out[i] < self.error_seq().len(),
    {
        let d = self.distance.0;
        let mut out: Vec<usize> = Vec::new();
        let ghost dd = d as int;
        let offsets: [(usize, usize); 4] = [(0, 0), (0, 1), (1, 0), (1, 1)];
        let mut k: usize = 0;
        while k < 4
            invariant
                d == self.distance.0,
                dd == d,
                r < d,
                c < d,
                self.errors.len() == d * d,
                k <= 4,
                offsets@ == seq![(0usize, 0usize), (0usize, 1usize), (1usize, 0usize), (1usize, 1usize)],
                out@ == if k == 0 {
                    seq![]
                } else if k == 1 {
                    qubit_at(dd, r as int, c as int)
                } else if k == 2 {
                    qubit_at(dd, r as int, c as int) + qubit_at(dd, r as int, c + 1)
                } else if k == 3 {
                    qubit_at(dd, r as int, c as int) + qubit_at(dd, r as int, c + 1) + qubit_at(
                        dd,
                        r + 1,
                        c as int,
                    )
                } else {
                    plaquette_qubits(dd, r as int, c as int)
                },
                forall|i: int| 0 <= i < out.len() ==> out[i] < d * d,
            decreases 4 - k,
        {
            let (dr, dc) = offsets[k];
            let rr = r + dr;
            let cc = c + dc;
            if rr < d && cc < d {
                assert(rr * d + cc < d * d) by (nonlinear_arith)
                    requires
                        rr < d,
                        cc < d,
                ;
                assert(0 <= rr * d) by (nonlinear_arith);
                let q = rr * d + cc;
                out.push(q);
            }
            proof {
                let prev = if k == 0 {
                    seq![]
                } else if k == 1 {
                    qubit_at(dd, r as int, c as int)
                } else if k == 2 {
                    qubit_at(dd, r as int, c as int) + qubit_at(dd, r as int, c + 1)
                } else {
                    qubit_at(dd, r as int, c as int) + qubit_at(dd, r as int, c + 1) + qubit_at(
                        dd,
                        r + 1,
                        c as int,
                    )
                };
                assert(out@ =~= prev + qubit_at(dd, rr as int, cc as int));
            }
            k += 1;
        }
        out
    }

    /// Extract a syndrome by measuring stabilizers. For the software model we
    /// use a simplified plaquette/star parity: a stabilizer fires when an odd
    /// number of adjacent data qubits carry a matching error.
    pub fn measure_syndrome(&self) -> (s: Syndrome)
        requires
            self.wf(),
            self.code_distance() >= 1,
        ensures
            s.fired@ == syndrome_of(self.code_distance() as int, self.error_seq()),
    {
        let d = self.distance.0;
        let m = d - 1;
        assert(m * m <= d * d) by (nonlinear_arith)
            requires
                m < d,
        ;
        let total = m * m;
        let ghost dd = d as int;
        let ghost errs = self.errors@;
        let mut fired: Vec<bool> = Vec::new();
        assert(total > 0 ==> m > 0) by (nonlinear_arith)
            requires
                total == m * m,
        ;
        let mut k: usize = 0;
        let mut r: usize = 0;
        let mut c: usize = 0;
        while k < total
            invariant
                d == self.distance.0,
                dd == d,
                d >= 1,
                m == d - 1,
                total == m * m,
                errs == self.errors@,
                self.errors.len() == d * d,
                k <= total,
                k == r * m + c,
                k < total ==> r < m && c < m,
                fired.len() == k,
                forall|j: int|
                    0 <= j < k ==> fired[j] == plaquette_fires(dd, errs, j / (dd - 1), j % (dd - 1)),
            decreases total - k,
        {
            proof {
                lemma_anchor_position(dd, r as int, c as int);
            }
            let nb = self.neighbors(r, c);
            let mut count: usize = 0;
            let mut i: usize = 0;
            while i < nb.len()
                invariant
                    i <= nb.len(),
                    count <= i,
                    count == x_type_count(errs, nb@.take(i as int)),
                    errs == self.errors@,
                    forall|t: int| 0 <= t < nb.len() ==> nb[t] < errs.len(),
                decreases nb.len() - i,
            {
                assert(nb@.take(i + 1).drop_last() =~= nb@.take(i as int));
                let q = nb[i];
                let e = self.errors[q];
                if e == Pauli::X || e == Pauli::Y {
                    count += 1;
                }
                i += 1;
            }
            assert(nb@.take(nb.len() as int) =~= nb@);
            fired.push(count % 2 == 1);
            proof {
                assert(fired[k as int] == plaquette_fires(dd, errs, (k as int) / (dd - 1), (k as int) % (dd - 1)));
            }
            let ghost r0 = r;
            let ghost c0 = c;
            k += 1;
            c += 1;
            if c == m {
                c = 0;
                r += 1;
                assert(k == r * m + c && (k < total ==> r < m)) by (nonlinear_arith)
                    requires
                        k == r0 * m + c0 + 1,
                        c0 + 1 == m,
                        r == r0 + 1,
                        c == 0,
                        total == m * m,
                ;
            }
        }
        assert(fired@ =~= syndrome_of(dd, errs));
        Syndrome { fired }
    }

    /// Naive decoder: for each fired syndrome, flag the lowest-index adjacent
    /// qubit for an X correction. Returns the corrective gates to dispatch.
    pub fn decode_and_correct(&mut self, syndrome: &Syndrome) -> (corrections: Vec<Gate>)
        requires
            old(self).wf(),
            old(self).code_distance() >= 1,
        ensures
            final(self).wf(),
            final(self).code_distance() == old(self).code_distance(),
            final(self).error_seq() == decoded(
                old(self).code_distance() as int,
                old(self).error_seq(),
                syndrome.fired@,
            ),
            corrections@ == corrections_of(old(self).code_distance() as int, syndrome.fired@),
    {
        let d = self.distance.0;
        let m = d - 1;
        assert(m * m <= d * d) by (nonlinear_arith)
            requires
                m < d,
        ;
        let total = m * m;
        assert(total > 0 ==> m > 0) by (nonlinear_arith)
            requires
                total == m * m,
        ;
        let ghost dd = d as int;
        let ghost old_errs = self.errors@;
        let ghost fired = syndrome.fired@;
        let mut corrections: Vec<Gate> = Vec::new();
        let mut k: usize = 0;
        let mut r: usize = 0;
        let mut c: usize = 0;
        while k < total
            invariant
                d == self.distance.0,
                dd == d,
                d >= 1,
                m == d - 1,
                total == m * m,
                fired == syndrome.fired@,
                old_errs.len() == d * d,
                self.errors.len() == d * d,
                k <= total,
                k == r * m + c,
                k < total ==> r < m && c < m,
                corrections@ == corrections_upto(dd, fired, k as nat),
                forall|q: int|
                    0 <= q < d * d ==> #[trigger] self.errors@[q] == (if corrected_at(dd, fired, q) && (q / dd)
                        * (dd - 1) + q % dd < k {
                        strip_x(old_errs[q])
                    } else {
                        old_errs[q]
                    }),
            decreases total - k,
        {
            proof {
                lemma_anchor_position(dd, r as int, c as int);
            }
            let ghost before = self.errors@;
            if k < syndrome.fired.len() && syndrome.fired[k] {
                let q = r * d + c;
                let e = self.errors[q];
                let fixed = match e {
                    Pauli::X => Pauli::I,
                    Pauli::Y => Pauli::Z,
                    other => other,
                };
                self.errors.set(q, fixed);
                if let Some(g) = Pauli::X.to_gate(q) {
                    corrections.push(g);
                }
            }
            let ghost r0 = r;
            let ghost c0 = c;
            k += 1;
            c += 1;
            if c == m {
                c = 0;
                r += 1;
                assert(k == r * m + c && (k < total ==> r < m)) by (nonlinear_arith)
                    requires
                        k == r0 * m + c0 + 1,
                        c0 + 1 == m,
                        r == r0 + 1,
                        c == 0,
                        total == m * m,
                ;
            }
            proof {
                let a = r0 * d + c0;
                let k0 = k - 1;
                assert forall|q2: int| 0 <= q2 < d * d implies self.errors@[q2] == (if corrected_at(
                    dd,
                    fired,
                    q2,
                ) && (q2 / dd) * (dd - 1) + q2 % dd < k {
                    strip_x(old_errs[q2])
                } else {
                    old_errs[q2]
                }) by {
                    lemma_row_col(dd, q2);
                    let kq = (q2 / dd) * (dd - 1) + q2 % dd;
                    if q2 % dd < dd - 1 && kq == k0 {
                        lemma_fundamental_div_mod_converse(k0, dd - 1, q2 / dd, q2 % dd);
                        assert(q2 == a);
                    }
                    if q2 == a {
                        assert(kq == k0);
                    }
                    assert(before[q2] == (if corrected_at(dd, fired, q2) && kq < k0 {
                        strip_x(old_errs[q2])
                    } else {
                        old_errs[q2]
                    }));
                }
            }
        }
        proof {
            assert forall|q: int| 0 <= q < d * d && #[trigger] corrected_at(dd, fired, q) implies (q / dd) * (dd - 1) + q % dd < total by {
                lemma_row_col(dd, q);
                lemma_anchor_position(dd, q / dd, q % dd);
            }
            assert(self.errors@ =~= decoded(dd, old_errs, fired));
        }
        corrections
    }

    /// Translate a corrective gate list into sequencer pulses (Drag envelope).
    pub fn corrections_to_pulses(&self, gates: &[Gate], start_ns: i64) -> (pulses: Vec<Pulse>)
        requires
            forall|i: int|
                0 <= i < gates.len() && is_pauli_gate(#[trigger] gates[i]) ==> i * CORRECTION_PULSE_NS
                    <= i64::MAX && start_ns + i * CORRECTION_PULSE_NS <= i64::MAX,
        ensures
            pulses@ == correction_pulses(gates@, start_ns as int),
    {
        let mut pulses: Vec<Pulse> = Vec::new();
        let mut i: usize = 0;
        while i < gates.len()
            invariant
                i <= gates.len(),
                forall|j: int|
                    0 <= j < gates.len() && is_pauli_gate(#[trigger] gates[j]) ==> j * CORRECTION_PULSE_NS
                        <= i64::MAX && start_ns + j * CORRECTION_PULSE_NS <= i64::MAX,
                pulses@ == correction_pulses(gates@.take(i as int), start_ns as int),
            decreases gates.len() - i,
        {
            proof {
                assert(gates@.take(i + 1).drop_last() =~= gates@.take(i as int));
            }
            match gates[i] {
                Gate::X(q) | Gate::Y(q) | Gate::Z(q) => {
                    assert(i * 20 <= i64::MAX) by {
                        assert(is_pauli_gate(gates[i as int]));
                    }
                    pulses.push(
                        Pulse {
                            channel: q,
                            start_ns: start_ns + (i as i64) * 20,
                            duration_ns: CORRECTION_PULSE_NS,
                            amplitude: FULL_DRIVE,
                            frequency_hz: CORRECTION_FREQUENCY_HZ,
                            phase: 0,
                            shape: Envelope::Drag,
                        },
                    );
                },
                _ => {},
            }
            i += 1;
            proof {
                assert(pulses@ =~= correction_pulses(gates@.take(i as int), start_ns as int));
            }
        }
        assert(gates@.take(gates.len() as int) =~= gates@);
        pulses
    }
}

/// No listed qubit carries an X-type error, so none is counted.
proof fn lemma_x_count_zero(errors: Seq<Pauli>, qs: Seq<usize>)
    requires
        forall|i: int| 0 <= i < qs.len() ==> !has_x_part(#[trigger] errors[qs[i] as int]),
    ensures
        x_type_count(errors, qs) == 0,
    decreases qs.len(),
{
    if qs.len() > 0 {
        let prefix = qs.drop_last();
        assert forall|i: int| 0 <= i < prefix.len() implies !has_x_part(#[trigger] errors[prefix[i] as int]) by {
            assert(prefix[i] == qs[i]);
        }
        lemma_x_count_zero(errors, prefix);
    }
}

/// Pointwise, the second sequence has an error only where the first has one.
proof fn lemma_count_errors_le(big: Seq<Pauli>, small: Seq<Pauli>)
    requires
        big.len() == small.len(),
        forall|i: int| 0 <= i < small.len() && small[i] != Pauli::I ==> big[i] != Pauli::I,
    ensures
        count_errors(small) <= count_errors(big),
    decreases small.len(),
{
    if small.len() > 0 {
        let b = big.drop_last();
        let s = small.drop_last();
        assert forall|i: int| 0 <= i < s.len() && s[i] != Pauli::I implies b[i] != Pauli::I by {
            assert(s[i] == small[i]);
            assert(b[i] == big[i]);
        }
        lemma_count_errors_le(b, s);
    }
}

/// A patch whose qubits carry no X-type error reports no fired plaquette.
pub proof fn law_no_x_errors_means_clean_syndrome(d: int, errors: Seq<Pauli>)
    requires
        d >= 1,
        d * d <= usize::MAX,
        errors.len() == d * d,
        forall|q: int| 0 <= q < errors.len() ==> !has_x_part(#[trigger] errors[q]),
    ensures
        syndrome_of(d, errors).len() == (d - 1) * (d - 1),
        forall|k: int| 0 <= k < syndrome_of(d, errors).len() ==> !#[trigger] syndrome_of(d, errors)[k],
{
    assert((d - 1) * (d - 1) >= 0) by (nonlinear_arith);
    assert forall|k: int| 0 <= k < syndrome_of(d, errors).len() implies !#[trigger] syndrome_of(d, errors)[k] by {
        assert(d >= 2) by (nonlinear_arith)
            requires
                0 <= k < (d - 1) * (d - 1),
                d >= 1,
        ;
        let r = k / (d - 1);
        let c = k % (d - 1);
        lemma_row_col(d - 1, k);
        assert(r < d - 1) by (nonlinear_arith)
            requires
                k == r * (d - 1) + c,
                0 <= c,
                k < (d - 1) * (d - 1),
                d >= 2,
        ;
        lemma_anchor_position(d, r, c);
        lemma_interior_plaquette(d, r, c);
        let qs = plaquette_qubits(d, r, c);
        assert forall|i: int| 0 <= i < qs.len() implies !has_x_part(#[trigger] errors[qs[i] as int]) by {
            assert(0 <= qs[i] < errors.len());
        }
        lemma_x_count_zero(errors, qs);
    }
}

/// Decoding never adds an error: every qubit keeps its error or loses its X
/// component, so the number of qubits carrying an error does not grow.
pub proof fn law_decoding_never_adds_errors(d: int, errors: Seq<Pauli>, fired: Seq<bool>)
    ensures
        decoded(d, errors, fired).len() == errors.len(),
        forall|q: int|
            0 <= q < errors.len() ==> #[trigger] decoded(d, errors, fired)[q] == errors[q]
                || decoded(d, errors, fired)[q] == strip_x(errors[q]),
        count_errors(decoded(d, errors, fired)) <= count_errors(errors),
{
    let after = decoded(d, errors, fired);
    assert forall|i: int| 0 <= i < after.len() && after[i] != Pauli::I implies errors[i] != Pauli::I by {
    }
    lemma_count_errors_le(errors, after);
}

/// A single X-type error on the anchor qubit of a plaquette is found and
/// removed: after measuring the syndrome and decoding it, no qubit carries an
/// X-type error and a fresh syndrome is clean.
pub proof fn law_single_anchored_error_is_corrected(d: int, errors: Seq<Pauli>, q: int)
    requires
        d >= 2,
        d * d <= usize::MAX,
        errors.len() == d * d,
        0 <= q < d * d,
        q % d < d - 1,
        q / d < d - 1,
        has_x_part(errors[q]),
        forall|j: int| 0 <= j < d * d && j != q ==> !has_x_part(#[trigger] errors[j]),
    ensures
        ({
            let after = decoded(d, errors, syndrome_of(d, errors));
            &&& forall|j: int| 0 <= j < after.len() ==> !has_x_part(#[trigger] after[j])
            &&& forall|k: int|
                0 <= k < syndrome_of(d, after).len() ==> !#[trigger] syndrome_of(d, after)[k]
        }),
{
    let syn = syndrome_of(d, errors);
    let after = decoded(d, errors, syn);
    lemma_row_col(d, q);
    let r = q / d;
    let c = q % d;
    lemma_anchor_position(d, r, c);
    lemma_interior_plaquette(d, r, c);
    let k0 = r * (d - 1) + c;
    let qs = plaquette_qubits(d, r, c);
    assert(qs[0] as int == q);
    reveal_with_fuel(x_type_count, 5);
    assert(qs.drop_last().drop_last().drop_last().drop_last() =~= Seq::<usize>::empty());
    assert(x_type_count(errors, qs) == 1);
    assert(syn[k0]);
    assert(corrected_at(d, syn, q));
    assert forall|j: int| 0 <= j < after.len() implies !has_x_part(#[trigger] after[j]) by {
        if j == q {
        } else {
            assert(!has_x_part(errors[j]));
        }
    }
    law_no_x_errors_means_clean_syndrome(d, after);
}

/// The decoder issues only X gates.
proof fn lemma_corrections_are_x(d: int, fired: Seq<bool>, k: nat)
    ensures
        forall|i: int| 0 <= i < corrections_upto(d, fired, k).len() ==> (#[trigger] corrections_upto(d, fired, k)[i]) is X,
    decreases k,
{
    if k > 0 {
        lemma_corrections_are_x(d, fired, (k - 1) as nat);
    }
}

/// A list of Pauli gates is dispatched slot by slot, one pulse per gate.
proof fn lemma_pauli_pulses(gates: Seq<Gate>, start: int)
    requires
        forall|i: int| 0 <= i < gates.len() ==> is_pauli_gate(#[trigger] gates[i]),
    ensures
        correction_pulses(gates, start) == Seq::new(gates.len(), |i: int| correction_pulse(gates[i], i, start)),
    decreases gates.len(),
{
    if gates.len() > 0 {
        let prefix = gates.drop_last();
        assert forall|i: int| 0 <= i < prefix.len() implies is_pauli_gate(#[trigger] prefix[i]) by {
            assert(prefix[i] == gates[i]);
        }
        lemma_pauli_pulses(prefix, start);
        assert(is_pauli_gate(gates[gates.len() - 1]));
        assert(correction_pulses(gates, start) =~= Seq::new(gates.len(), |i: int| correction_pulse(gates[i], i, start)));
    }
}

/// Every correction the decoder issues is dispatched as exactly one corrective
/// pulse: a 20 ns Drag pulse on the corrected qubit, in the correction's own
/// time slot.
pub proof fn law_each_correction_is_one_pulse(d: int, fired: Seq<bool>, start: int)
    ensures
        ({
            let cs = corrections_of(d, fired);
            let ps = correction_pulses(cs, start);
            &&& ps.len() == cs.len()
            &&& forall|i: int| 0 <= i < cs.len() ==> {
                &&& (#[trigger] ps[i]) == correction_pulse(cs[i], i, start)
                &&& ps[i].duration_ns == CORRECTION_PULSE_NS
                &&& cs[i] == Gate::X(ps[i].channel)
            }
        }),
{
    let cs = corrections_of(d, fired);
    lemma_corrections_are_x(d, fired, ((d - 1) * (d - 1)) as nat);
    lemma_pauli_pulses(cs, start);
}

/// Counting errors: a patch with no qubits has none, appending an error-free
/// qubit leaves the count unchanged, appending a qubit with any error raises it
/// by one, and putting an error on any error-free qubit raises it by one.
pub proof fn law_error_count_counts_every_qubit(s: Seq<Pauli>, q: int, e: Pauli)
    requires
        0 <= q < s.len(),
        s[q] == Pauli::I,
        e != Pauli::I,
    ensures
        count_errors(Seq::<Pauli>::empty()) == 0,
        count_errors(s.push(Pauli::I)) == count_errors(s),
        count_errors(s.push(e)) == count_errors(s) + 1,
        count_errors(s.update(q, e)) == count_errors(s) + 1,
    decreases s.len(),
{
    assert(s.push(Pauli::I).drop_last() =~= s);
    assert(s.push(e).drop_last() =~= s);
    let t = s.update(q, e);
    if q == s.len() - 1 {
        assert(t.drop_last() =~= s.drop_last());
    } else {
        law_error_count_counts_every_qubit(s.drop_last(), q, e);
        assert(t.drop_last() =~= s.drop_last().update(q, e));
    }
}

/// Whether a Pauli error carries an X component (X or Y).
spec fn x_bit(p: Pauli) -> int {
    if p == Pauli::X || p == Pauli::Y {
        1
    } else {
        0
    }
}

/// The X-type count of four listed qubits, term by term.
proof fn lemma_x_count_four(errors: Seq<Pauli>, a: usize, b: usize, c: usize, e: usize)
    ensures
        x_type_count(errors, seq![a, b, c, e]) == x_bit(errors[a as int]) + x_bit(errors[b as int]) + x_bit(
            errors[c as int],
        ) + x_bit(errors[e as int]),
{
    let qs = seq![a, b, c, e];
    assert(qs.drop_last() =~= seq![a, b, c]);
    assert(seq![a, b, c].drop_last() =~= seq![a, b]);
    assert(seq![a, b].drop_last() =~= seq![a]);
    assert(seq![a].drop_last() =~= Seq::<usize>::empty());
    reveal_with_fuel(x_type_count, 5);
}

/// Each syndrome bit is the parity of the X-type errors on its plaquette:
/// giving or taking an X component on one of plaquette `(r, c)`'s four qubits
/// toggles that plaquette's bit and leaves the bit of every plaquette that
/// does not hold the qubit unchanged.
pub proof fn law_syndrome_bit_is_parity(d: int, errors: Seq<Pauli>, r: int, c: int, q: int, p: Pauli)
    requires
        d >= 2,
        d * d <= usize::MAX,
        errors.len() == d * d,
        0 <= r < d - 1,
        0 <= c < d - 1,
        q == r * d + c || q == r * d + c + 1 || q == (r + 1) * d + c || q == (r + 1) * d + c + 1,
        (p == Pauli::X || p == Pauli::Y) != (errors[q] == Pauli::X || errors[q] == Pauli::Y),
    ensures
        ({
            let after = errors.update(q, p);
            &&& syndrome_of(d, after).len() == (d - 1) * (d - 1)
            &&& syndrome_of(d, errors).len() == (d - 1) * (d - 1)
            &&& syndrome_of(d, after)[r * (d - 1) + c] != syndrome_of(d, errors)[r * (d - 1) + c]
            &&& forall|r2: int, c2: int|
                0 <= r2 < d - 1 && 0 <= c2 < d - 1 && q != r2 * d + c2 && q != r2 * d + c2 + 1 && q != (r2
                    + 1) * d + c2 && q != (r2 + 1) * d + c2 + 1 ==> #[trigger] syndrome_of(d, after)[r2 * (d - 1)
                    + c2] == syndrome_of(d, errors)[r2 * (d - 1) + c2]
        }),
{
    let after = errors.update(q, p);
    assert((r + 1) * d + c == r * d + c + d) by (nonlinear_arith);
    assert((r + 1) * d + c + 1 == r * d + c + d + 1) by (nonlinear_arith);
    assert(0 <= q < d * d) by {
        lemma_anchor_position(d, r, c);
    }
    assert((d - 1) * (d - 1) >= 0) by (nonlinear_arith);
    lemma_anchor_position(d, r, c);
    lemma_interior_plaquette(d, r, c);
    let a = r * d + c;
    lemma_x_count_four(errors, a as usize, (a + 1) as usize, (a + d) as usize, (a + d + 1) as usize);
    lemma_x_count_four(after, a as usize, (a + 1) as usize, (a + d) as usize, (a + d + 1) as usize);
    assert forall|r2: int, c2: int|
        0 <= r2 < d - 1 && 0 <= c2 < d - 1 && q != r2 * d + c2 && q != r2 * d + c2 + 1 && q != (r2 + 1) * d
            + c2 && q != (r2 + 1) * d + c2 + 1 implies #[trigger] syndrome_of(d, after)[r2 * (d - 1) + c2]
        == syndrome_of(d, errors)[r2 * (d - 1) + c2] by {
        lemma_anchor_position(d, r2, c2);
        lemma_interior_plaquette(d, r2, c2);
        let a2 = r2 * d + c2;
        assert((r2 + 1) * d + c2 == r2 * d + c2 + d) by (nonlinear_arith);
        assert((r2 + 1) * d + c2 + 1 == r2 * d + c2 + d + 1) by (nonlinear_arith);
        lemma_x_count_four(errors, a2 as usize, (a2 + 1) as usize, (a2 + d) as usize, (a2 + d + 1) as usize);
        lemma_x_count_four(after, a2 as usize, (a2 + 1) as usize, (a2 + d) as usize, (a2 + d + 1) as usize);
    }
}

/// Qubit `q` is the anchor (top-left qubit) of plaquette `(r, c)`.
pub open spec fn is_anchor_of(d: int, q: int, r: int, c: int) -> bool {
    0 <= r < d - 1 && 0 <= c < d - 1 && q == r * d + c
}

/// Decoding only removes X components, and exactly from the anchors of fired
/// plaquettes: every qubit keeps its Z component, and keeps its X component
/// unless it anchors a plaquette that the syndrome reports as fired.
pub proof fn law_decoding_clears_only_fired_anchors(d: int, errors: Seq<Pauli>, fired: Seq<bool>, q: int)
    requires
        d >= 1,
        0 <= q < errors.len(),
    ensures
        ({
            let after = decoded(d, errors, fired)[q];
            &&& decoded(d, errors, fired).len() == errors.len()
            &&& (after == Pauli::Z || after == Pauli::Y) <==> (errors[q] == Pauli::Z || errors[q] == Pauli::Y)
            &&& (after == Pauli::X || after == Pauli::Y) <==> ((errors[q] == Pauli::X || errors[q] == Pauli::Y)
                && !(exists|r: int, c: int|
                #[trigger] is_anchor_of(d, q, r, c) && r * (d - 1) + c < fired.len() && fired[r * (d - 1) + c]))
        }),
{
    lemma_row_col(d, q);
    if corrected_at(d, fired, q) {
        assert(is_anchor_of(d, q, q / d, q % d));
    }
    if exists|r: int, c: int| #[trigger] is_anchor_of(d, q, r, c) && r * (d - 1) + c < fired.len() && fired[r * (d - 1) + c] {
        let (r, c) = choose|r: int, c: int| #[trigger] is_anchor_of(d, q, r, c) && r * (d - 1) + c < fired.len() && fired[r * (d - 1) + c];
        lemma_anchor_position(d, r, c);
        assert(corrected_at(d, fired, q));
    }
}

/// Every X, Y or Z gate of a correction list becomes exactly one pulse, in
/// list order: a 20 ns full-drive 5 GHz Drag pulse with no phase offset on the
/// gate's qubit, starting 20 ns per position after `start`; a list with no
/// X, Y or Z gate yields no pulse.
pub proof fn law_pauli_corrections_are_dispatched(gates: Seq<Gate>, start: int)
    ensures
        (forall|i: int| 0 <= i < gates.len() ==> (#[trigger] gates[i] is X || gates[i] is Y || gates[i] is Z)) ==> {
            let ps = correction_pulses(gates, start);
            &&& ps.len() == gates.len()
            &&& forall|i: int|
                0 <= i < gates.len() ==> {
                    &&& match #[trigger] gates[i] {
                        Gate::X(q) => ps[i].channel == q,
                        Gate::Y(q) => ps[i].channel == q,
                        Gate::Z(q) => ps[i].channel == q,
                        _ => false,
                    }
                    &&& ps[i].start_ns == (start + 20 * i) as i64
                    &&& ps[i].duration_ns == 20
                    &&& ps[i].amplitude == 1000
                    &&& ps[i].frequency_hz == 5_000_000_000
                    &&& ps[i].phase == 0
                    &&& ps[i].shape == Envelope::Drag
                }
        },
        (forall|i: int| 0 <= i < gates.len() ==> !(#[trigger] gates[i] is X || gates[i] is Y || gates[i] is Z))
            ==> correction_pulses(gates, start).len() == 0,
    decreases gates.len(),
{
    if forall|i: int| 0 <= i < gates.len() ==> (#[trigger] gates[i] is X || gates[i] is Y || gates[i] is Z) {
        assert forall|i: int| 0 <= i < gates.len() implies is_pauli_gate(#[trigger] gates[i]) by {
            assert(gates[i] is X || gates[i] is Y || gates[i] is Z);
        }
        lemma_pauli_pulses(gates, start);
    }
    if gates.len() > 0 && forall|i: int| 0 <= i < gates.len() ==> !(#[trigger] gates[i] is X || gates[i] is Y || gates[i] is Z) {
        let prefix = gates.drop_last();
        assert forall|i: int| 0 <= i < prefix.len() implies !(#[trigger] prefix[i] is X || prefix[i] is Y || prefix[i] is Z) by {
            assert(prefix[i] == gates[i]);
        }
        law_pauli_corrections_are_dispatched(prefix, start);
        assert(!(gates[gates.len() - 1] is X || gates[gates.len() - 1] is Y || gates[gates.len() - 1] is Z));
    }
}

/// The qubit a corrective X gate acts on (-1 for any other gate).
pub open spec fn x_target(g: Gate) -> int {
    match g {
        Gate::X(q) => q as int,
        _ => -1,
    }
}

/// Row-major order of plaquettes matches row-major order of their anchors.
proof fn lemma_anchor_order(d: int, r1: int, c1: int, r2: int, c2: int)
    requires
        d >= 2,
        0 <= r1 < d - 1,
        0 <= c1 < d - 1,
        0 <= r2 < d - 1,
        0 <= c2 < d - 1,
        r1 * (d - 1) + c1 < r2 * (d - 1) + c2,
    ensures
        r1 * d + c1 < r2 * d + c2,
{
    if r1 > r2 {
        assert(r1 * (d - 1) + c1 >= (r2 + 1) * (d - 1)) by (nonlinear_arith)
            requires
                r1 >= r2 + 1,
                d >= 2,
                c1 >= 0,
        ;
        assert((r2 + 1) * (d - 1) > r2 * (d - 1) + c2) by (nonlinear_arith)
            requires
                c2 < d - 1,
        ;
    } else if r1 == r2 {
    } else {
        assert(r1 * d + c1 < r2 * d + c2) by (nonlinear_arith)
            requires
                r1 < r2,
                0 <= c1 < d - 1,
                0 <= c2,
                d >= 2,
        ;
    }
}

proof fn lemma_corrections_upto(d: int, fired: Seq<bool>, k: nat)
    requires
        d >= 2,
        d * d <= usize::MAX,
        k <= (d - 1) * (d - 1),
    ensures
        ({
            let cs = corrections_upto(d, fired, k);
            &&& forall|i: int|
                0 <= i < cs.len() ==> (#[trigger] cs[i]) is X && exists|r: int, c: int|
                    #[trigger] is_anchor_of(d, x_target(cs[i]), r, c) && r * (d - 1) + c < k && r * (d - 1) + c
                        < fired.len() && fired[r * (d - 1) + c]
            &&& forall|i: int, j: int|
                0 <= i < j < cs.len() ==> x_target(#[trigger] cs[i]) < x_target(#[trigger] cs[j])
            &&& forall|r: int, c: int|
                #[trigger] is_anchor_of(d, r * d + c, r, c) && r * (d - 1) + c < k && r * (d - 1) + c < fired.len()
                    && fired[r * (d - 1) + c] ==> exists|i: int| 0 <= i < cs.len() && x_target(#[trigger] cs[i]) == r * d + c
        }),
    decreases k,
{
    if k > 0 {
        let k0 = (k - 1) as nat;
        lemma_corrections_upto(d, fired, k0);
        let prev = corrections_upto(d, fired, k0);
        let cs = corrections_upto(d, fired, k);
        let m = d - 1;
        lemma_row_col(m, k0 as int);
        let r0 = (k0 as int) / m;
        let c0 = (k0 as int) % m;
        assert(r0 < m) by (nonlinear_arith)
            requires
                k0 == r0 * m + c0,
                0 <= c0,
                k0 < m * m,
                m >= 1,
        ;
        lemma_anchor_position(d, r0, c0);
        let a = r0 * d + c0;
        assert(plaquette_anchor(d, k0 as int) == a);
        assert(is_anchor_of(d, a, r0, c0));
        if fired_at(fired, k0 as int) {
            assert(cs == prev.push(Gate::X(a as usize)));
            assert(x_target(cs[cs.len() - 1]) == a);
            assert forall|i: int| 0 <= i < prev.len() implies x_target(#[trigger] prev[i]) < a by {
                let (r, c) = choose|r: int, c: int|
                    #[trigger] is_anchor_of(d, x_target(prev[i]), r, c) && r * (d - 1) + c < k0 && r * (d - 1) + c
                        < fired.len() && fired[r * (d - 1) + c];
                lemma_anchor_order(d, r, c, r0, c0);
            }
            assert forall|i: int| 0 <= i < cs.len() implies (#[trigger] cs[i]) is X && exists|r: int, c: int|
                #[trigger] is_anchor_of(d, x_target(cs[i]), r, c) && r * (d - 1) + c < k && r * (d - 1) + c
                    < fired.len() && fired[r * (d - 1) + c] by {
                if i < prev.len() {
                    assert(cs[i] == prev[i]);
                } else {
                    assert(is_anchor_of(d, x_target(cs[i]), r0, c0));
                }
            }
            assert forall|i: int, j: int| 0 <= i < j < cs.len() implies x_target(#[trigger] cs[i]) < x_target(
                #[trigger] cs[j]) by {
                assert(cs[i] == prev[i]);
                if j < prev.len() {
                    assert(cs[j] == prev[j]);
                }
            }
            assert forall|r: int, c: int|
                #[trigger] is_anchor_of(d, r * d + c, r, c) && r * (d - 1) + c < k && r * (d - 1) + c < fired.len()
                    && fired[r * (d - 1) + c] implies exists|i: int|
                0 <= i < cs.len() && x_target(#[trigger] cs[i]) == r * d + c by {
                if r * (d - 1) + c < k0 {
                    let i = choose|i: int| 0 <= i < prev.len() && x_target(#[trigger] prev[i]) == r * d + c;
                    assert(cs[i] == prev[i]);
                } else {
                    lemma_fundamental_div_mod_converse(k0 as int, m, r, c);
                    assert(x_target(cs[cs.len() - 1]) == r * d + c);
                }
            }
        } else {
            assert(cs == prev);
            assert forall|r: int, c: int|
                #[trigger] is_anchor_of(d, r * d + c, r, c) && r * (d - 1) + c < k && r * (d - 1) + c < fired.len()
                    && fired[r * (d - 1) + c] implies exists|i: int|
                0 <= i < cs.len() && x_target(#[trigger] cs[i]) == r * d + c by {
                if r * (d - 1) + c == k0 {
                    assert(fired_at(fired, k0 as int));
                }
            }
            assert forall|i: int| 0 <= i < cs.len() implies (#[trigger] cs[i]) is X && exists|r: int, c: int|
                #[trigger] is_anchor_of(d, x_target(cs[i]), r, c) && r * (d - 1) + c < k && r * (d - 1) + c
                    < fired.len() && fired[r * (d - 1) + c] by {
                let (r, c) = choose|r: int, c: int|
                    #[trigger] is_anchor_of(d, x_target(prev[i]), r, c) && r * (d - 1) + c < k0 && r * (d - 1) + c
                        < fired.len() && fired[r * (d - 1) + c];
                assert(is_anchor_of(d, x_target(cs[i]), r, c));
            }
        }
    }
}

/// The decoder issues one X gate per fired plaquette and nothing else: every
/// gate is an X on the anchor of a plaquette the syndrome reports as fired,
/// the gates go in increasing order of qubit (so none repeats), and the anchor
/// of every fired plaquette receives a gate.
pub proof fn law_corrections_are_fired_anchors(d: int, fired: Seq<bool>)
    requires
        d >= 2,
        d * d <= usize::MAX,
    ensures
        ({
            let cs = corrections_of(d, fired);
            &&& forall|i: int|
                0 <= i < cs.len() ==> (#[trigger] cs[i]) is X && exists|r: int, c: int|
                    #[trigger] is_anchor_of(d, x_target(cs[i]), r, c) && r * (d - 1) + c < fired.len() && fired[r * (
                    d - 1) + c]
            &&& forall|i: int, j: int|
                0 <= i < j < cs.len() ==> x_target(#[trigger] cs[i]) < x_target(#[trigger] cs[j])
            &&& forall|r: int, c: int|
                #[trigger] is_anchor_of(d, r * d + c, r, c) && r * (d - 1) + c < fired.len() && fired[r * (d - 1) + c]
                    ==> exists|i: int| 0 <= i < cs.len() && x_target(#[trigger] cs[i]) == r * d + c
        }),
{
    let m = d - 1;
    assert(m * m >= 0) by (nonlinear_arith);
    lemma_corrections_upto(d, fired, (m * m) as nat);
    let cs = corrections_of(d, fired);
    assert forall|r: int, c: int|
        #[trigger] is_anchor_of(d, r * d + c, r, c) && r * (d - 1) + c < fired.len() && fired[r * (d - 1) + c]
            implies exists|i: int| 0 <= i < cs.len() && x_target(#[trigger] cs[i]) == r * d + c by {
        lemma_anchor_position(d, r, c);
    }
}

} // verus!
