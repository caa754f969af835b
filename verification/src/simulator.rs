//! The integer side of the state-vector simulator: which amplitudes a gate
//! mixes, the qubit-range checks that guard gate application, the
//! deterministic xorshift32 generator behind measurement sampling.
//!
//! A register of `n` qubits holds `2^n` amplitudes; the amplitude of basis
//! state `|i>` sits at index `i`, and bit `q` of `i` is the value of qubit `q`.

use vstd::prelude::*;

verus! {

/// Errors raised by the simulator.
#[derive(Clone, Copy, Debug, PartialEq, Eq, Structural)]
pub enum SimError {
    /// A gate references a qubit index outside the register.
    QubitOutOfRange,
}

/// `pairs` lists, in increasing order, every basis index `b < n` whose bit
/// `step` is clear, each paired with its partner `b | step`.
pub open spec fn is_pairing(pairs: Seq<(usize, usize)>, n: nat, step: usize) -> bool {
    &&& forall|k: int|
        0 <= k < pairs.len() ==> {
            &&& (#[trigger] pairs[k]).0 < n
            &&& pairs[k].0 & step == 0
            &&& pairs[k].1 == pairs[k].0 | step
        }
    &&& forall|k1: int, k2: int| 0 <= k1 < k2 < pairs.len() ==> (#[trigger] pairs[k1]).0 < (#[trigger] pairs[k2]).0
    &&& forall|b: usize| b < n && b & step == 0 ==> exists|k: int| 0 <= k < pairs.len() && (#[trigger] pairs[k]).0 == b
}

/// The partner of a basis index whose bit `q` is clear stays inside the register.
proof fn lemma_partner(b: usize, q: usize, nq: usize)
    requires
        q < nq,
        nq < usize::BITS,
        b < (1usize << nq),
        b & (1usize << q) == 0,
    ensures
        (b | (1usize << q)) < (1usize << nq),
        (b | (1usize << q)) & (1usize << q) != 0,
{
    assert((b | (1usize << q)) < (1usize << nq) && (b | (1usize << q)) & (1usize << q) != 0) by (bit_vector)
        requires
            q < nq,
            nq < usize::BITS,
            b < (1usize << nq),
            b & (1usize << q) == 0,
    ;
}

/// The amplitude index pairs that a single-qubit gate on qubit `q` mixes in a
/// register of `num_qubits` qubits: an error when `q` is outside the register.
pub fn amplitude_pairs(num_qubits: usize, q: usize) -> (res: Result<Vec<(usize, usize)>, SimError>)
    requires
        num_qubits < usize::BITS,
    ensures
        res is Err <==> q >= num_qubits,
        res matches Err(e) ==> e == SimError::QubitOutOfRange,
        res matches Ok(pairs) ==> is_pairing(pairs@, (1usize << num_qubits) as nat, 1usize << q),
{
    if q >= num_qubits {
        return Err(SimError::QubitOutOfRange);
    }
    let n: usize = 1usize << num_qubits;
    let step: usize = 1usize << q;
    let mut pairs: Vec<(usize, usize)> = Vec::new();
    let mut base: usize = 0;
    while base < n
        invariant
            q < num_qubits,
            num_qubits < usize::BITS,
            n == 1usize << num_qubits,
            step == 1usize << q,
            base <= n,
            forall|k: int|
                0 <= k < pairs.len() ==> {
                    &&& (#[trigger] pairs[k]).0 < base
                    &&& pairs[k].0 & step == 0
                    &&& pairs[k].1 == pairs[k].0 | step
                },
            forall|k1: int, k2: int| 0 <= k1 < k2 < pairs.len() ==> (#[trigger] pairs[k1]).0 < (#[trigger] pairs[k2]).0,
            forall|b: usize| b < base && b & step == 0 ==> exists|k: int| 0 <= k < pairs.len() && (#[trigger] pairs[k]).0 == b,
        decreases n - base,
    {
        let ghost before = pairs@;
        if base & step == 0 {
            proof {
                lemma_partner(base, q, num_qubits);
            }
            pairs.push((base, base | step));
            proof {
                assert forall|b: usize| b < base + 1 && b & step == 0 implies exists|k: int| 0 <= k < pairs.len() && (#[trigger] pairs[k]).0 == b by {
                    if b == base {
                        assert(pairs[pairs.len() - 1].0 == b);
                    } else {
                        let k = choose|k: int| 0 <= k < before.len() && (#[trigger] before[k]).0 == b;
                        assert(pairs[k] == before[k]);
                    }
                }
            }
        }
        base += 1;
    }
    Ok(pairs)
}

/// Basis index `i` is one of the two indices of some pair.
pub open spec fn touched_by_pair(pairs: Seq<(usize, usize)>, i: usize) -> bool {
    exists|k: int| 0 <= k < pairs.len() && ((#[trigger] pairs[k]).0 == i || pairs[k].1 == i)
}

/// Bit facts behind the pairing: setting a clear bit is injective, the
/// result has the bit set, and an index with the bit set is the partner of the
/// index with that bit cleared.
proof fn lemma_bit_partner_facts(i: usize, a: usize, b: usize, q: usize, nq: usize)
    requires
        q < nq,
        nq < usize::BITS,
    ensures
        (a | (1usize << q)) & (1usize << q) != 0,
        a & (1usize << q) == 0 && b & (1usize << q) == 0 && (a | (1usize << q)) == (b | (1usize << q)) ==> a == b,
        i < (1usize << nq) && i & (1usize << q) != 0 ==> {
            &&& (i & !(1usize << q)) & (1usize << q) == 0
            &&& (i & !(1usize << q)) < (1usize << nq)
            &&& ((i & !(1usize << q)) | (1usize << q)) == i
        },
{
    assert((a | (1usize << q)) & (1usize << q) != 0) by (bit_vector)
        requires
            q < usize::BITS,
    ;
    assert(a & (1usize << q) == 0 && b & (1usize << q) == 0 && (a | (1usize << q)) == (b | (1usize << q)) ==> a == b)
        by (bit_vector);
    assert(i < (1usize << nq) && i & (1usize << q) != 0 ==> {
        &&& (i & !(1usize << q)) & (1usize << q) == 0
        &&& (i & !(1usize << q)) < (1usize << nq)
        &&& ((i & !(1usize << q)) | (1usize << q)) == i
    }) by (bit_vector)
        requires
            q < nq,
            nq < usize::BITS,
    ;
}

/// A single-qubit gate touches every amplitude exactly once: each basis index
/// of the register is the first or the second index of some pair, and no
/// index occurs twice among all the pairs.
pub proof fn law_pairs_partition_amplitudes(pairs: Seq<(usize, usize)>, num_qubits: usize, q: usize)
    requires
        q < num_qubits,
        num_qubits < usize::BITS,
        is_pairing(pairs, (1usize << num_qubits) as nat, 1usize << q),
    ensures
        forall|i: usize| i < (1usize << num_qubits) ==> #[trigger] touched_by_pair(pairs, i),
        forall|k1: int, k2: int|
            0 <= k1 < pairs.len() && 0 <= k2 < pairs.len() ==> (#[trigger] pairs[k1]).0 != (#[trigger] pairs[k2]).1,
        forall|k1: int, k2: int|
            0 <= k1 < k2 < pairs.len() ==> (#[trigger] pairs[k1]).0 != (#[trigger] pairs[k2]).0 && pairs[k1].1
                != pairs[k2].1,
{
    let step = 1usize << q;
    let n = 1usize << num_qubits;
    assert forall|i: usize| i < n implies #[trigger] touched_by_pair(pairs, i) by {
        lemma_bit_partner_facts(i, i, i, q, num_qubits);
        if i & step == 0 {
            let k = choose|k: int| 0 <= k < pairs.len() && (#[trigger] pairs[k]).0 == i;
            assert(pairs[k].0 == i);
        } else {
            let b = i & !step;
            let k = choose|k: int| 0 <= k < pairs.len() && (#[trigger] pairs[k]).0 == b;
            assert(pairs[k].1 == i);
        }
    }
    assert forall|k1: int, k2: int| 0 <= k1 < pairs.len() && 0 <= k2 < pairs.len() implies (#[trigger] pairs[k1]).0
        != (#[trigger] pairs[k2]).1 by {
        lemma_bit_partner_facts(0, pairs[k2].0, 0, q, num_qubits);
    }
    assert forall|k1: int, k2: int| 0 <= k1 < k2 < pairs.len() implies (#[trigger] pairs[k1]).0 != (
    #[trigger] pairs[k2]).0 && pairs[k1].1 != pairs[k2].1 by {
        lemma_bit_partner_facts(0, pairs[k1].0, pairs[k2].0, q, num_qubits);
    }
}

/// The four amplitude indices `(i00, i01, i10, i11)` a two-qubit gate mixes,
/// for base index `b`: bit `c` is the control bit and bit `t` the target bit.
pub open spec fn group_of(b: usize, c: usize, t: usize) -> (usize, usize, usize, usize) {
    (b, b | t, b | c, b | c | t)
}

/// Index `s` (0 ..= 3) of a group of four amplitude indices.
pub open spec fn group_slot(g: (usize, usize, usize, usize), s: int) -> usize {
    if s == 0 {
        g.0
    } else if s == 1 {
        g.1
    } else if s == 2 {
        g.2
    } else {
        g.3
    }
}

/// `groups` lists, in increasing order of base, every basis index `b < n` whose
/// control bit `c` and target bit `t` are both clear, with its group of four.
pub open spec fn is_grouping(groups: Seq<(usize, usize, usize, usize)>, n: nat, c: usize, t: usize) -> bool {
    &&& forall|k: int|
        0 <= k < groups.len() ==> {
            &&& (#[trigger] groups[k]).0 < n
            &&& groups[k].0 & (c | t) == 0
            &&& groups[k] == group_of(groups[k].0, c, t)
        }
    &&& forall|k1: int, k2: int|
        0 <= k1 < k2 < groups.len() ==> (#[trigger] groups[k1]).0 < (#[trigger] groups[k2]).0
    &&& forall|b: usize|
        b < n && b & (c | t) == 0 ==> exists|k: int| 0 <= k < groups.len() && (#[trigger] groups[k]).0 == b
}

/// The group of a base index with both bits clear stays inside the register.
proof fn lemma_group_in_range(b: usize, control: usize, target: usize, nq: usize)
    requires
        control < nq,
        target < nq,
        control != target,
        nq < usize::BITS,
        b < (1usize << nq),
        b & ((1usize << control) | (1usize << target)) == 0,
    ensures
        (b | (1usize << target)) < (1usize << nq),
        (b | (1usize << control)) < (1usize << nq),
        (b | (1usize << control) | (1usize << target)) < (1usize << nq),
{
    assert((b | (1usize << target)) < (1usize << nq) && (b | (1usize << control)) < (1usize << nq) && (b | (
    1usize << control) | (1usize << target)) < (1usize << nq)) by (bit_vector)
        requires
            control < nq,
            target < nq,
            control != target,
            nq < usize::BITS,
            b < (1usize << nq),
            b & ((1usize << control) | (1usize << target)) == 0,
    ;
}

/// The amplitude index groups that a two-qubit gate with the given control and
/// target qubits mixes in a register of `num_qubits` qubits: an error when
/// either qubit is outside the register or both are the same qubit.
pub fn amplitude_groups(num_qubits: usize, control: usize, target: usize) -> (res: Result<
    Vec<(usize, usize, usize, usize)>,
    SimError,
>)
    requires
        num_qubits < usize::BITS,
    ensures
        res is Err <==> (control >= num_qubits || target >= num_qubits || control == target),
        res matches Err(e) ==> e == SimError::QubitOutOfRange,
        res matches Ok(groups) ==> is_grouping(
            groups@,
            (1usize << num_qubits) as nat,
            1usize << control,
            1usize << target,
        ),
{
    if control >= num_qubits || target >= num_qubits || control == target {
        return Err(SimError::QubitOutOfRange);
    }
    let n: usize = 1usize << num_qubits;
    let c: usize = 1usize << control;
    let t: usize = 1usize << target;
    let mut groups: Vec<(usize, usize, usize, usize)> = Vec::new();
    let mut base: usize = 0;
    while base < n
        invariant
            control < num_qubits,
            target < num_qubits,
            control != target,
            num_qubits < usize::BITS,
            n == 1usize << num_qubits,
            c == 1usize << control,
            t == 1usize << target,
            base <= n,
            forall|k: int|
                0 <= k < groups.len() ==> {
                    &&& (#[trigger] groups[k]).0 < base
                    &&& groups[k].0 & (c | t) == 0
                    &&& groups[k] == group_of(groups[k].0, c, t)
                },
            forall|k1: int, k2: int|
                0 <= k1 < k2 < groups.len() ==> (#[trigger] groups[k1]).0 < (#[trigger] groups[k2]).0,
            forall|b: usize|
                b < base && b & (c | t) == 0 ==> exists|k: int|
                    0 <= k < groups.len() && (#[trigger] groups[k]).0 == b,
        decreases n - base,
    {
        let ghost before = groups@;
        if base & (c | t) == 0 {
            proof {
                lemma_group_in_range(base, control, target, num_qubits);
            }
            groups.push((base, base | t, base | c, base | c | t));
            proof {
                assert forall|b: usize| b < base + 1 && b & (c | t) == 0 implies exists|k: int|
                    0 <= k < groups.len() && (#[trigger] groups[k]).0 == b by {
                    if b == base {
                        assert(groups[groups.len() - 1].0 == b);
                    } else {
                        let k = choose|k: int| 0 <= k < before.len() && (#[trigger] before[k]).0 == b;
                        assert(groups[k] == before[k]);
                    }
                }
            }
        }
        base += 1;
    }
    Ok(groups)
}

/// Basis index `i` is one of the four indices of some group.
pub open spec fn touched_by_group(groups: Seq<(usize, usize, usize, usize)>, i: usize) -> bool {
    exists|k: int, s: int| 0 <= k < groups.len() && 0 <= s < 4 && #[trigger] group_slot(groups[k], s) == i
}

/// Bit facts behind the grouping: a base index and the choice of control and
/// target bits are recovered from any index of its group.
proof fn lemma_group_bits(i: usize, a: usize, b: usize, ma: usize, mb: usize, control: usize, target: usize, nq: usize)
    requires
        control < nq,
        target < nq,
        control != target,
        nq < usize::BITS,
    ensures
        ({
            let c = 1usize << control;
            let t = 1usize << target;
            &&& (a & (c | t) == 0 && b & (c | t) == 0 && (ma == 0 || ma == t || ma == c || ma == (c | t)) && (mb
                == 0 || mb == t || mb == c || mb == (c | t)) && (a | ma) == (b | mb)) ==> a == b && ma == mb
            &&& i < (1usize << nq) ==> {
                &&& (i & !(c | t)) & (c | t) == 0
                &&& (i & !(c | t)) < (1usize << nq)
                &&& (i & (c | t)) == 0 || (i & (c | t)) == t || (i & (c | t)) == c || (i & (c | t)) == (c | t)
                &&& ((i & !(c | t)) | (i & (c | t))) == i
            }
            &&& (a | 0usize) == a
            &&& (a | (c | t)) == (a | c | t)
            &&& c != t && c != 0 && t != 0 && (c | t) != c && (c | t) != t && (c | t) != 0
        }),
{
    let c = 1usize << control;
    let t = 1usize << target;
    assert(c != t && c != 0 && t != 0 && c & t == 0 && (c | t) != c && (c | t) != t && (c | t) != 0) by (bit_vector)
        requires
            c == 1usize << control,
            t == 1usize << target,
            control != target,
            control < usize::BITS,
            target < usize::BITS,
    ;
    assert((a & (c | t) == 0 && b & (c | t) == 0 && (ma == 0 || ma == t || ma == c || ma == (c | t)) && (mb == 0
        || mb == t || mb == c || mb == (c | t)) && (a | ma) == (b | mb)) ==> a == b && ma == mb) by (bit_vector)
        requires
            c != t,
            c & t == 0,
            c != 0,
            t != 0,
    ;
    assert(i < (1usize << nq) ==> {
        &&& (i & !(c | t)) & (c | t) == 0
        &&& (i & !(c | t)) < (1usize << nq)
        &&& (i & (c | t)) == 0 || (i & (c | t)) == t || (i & (c | t)) == c || (i & (c | t)) == (c | t)
        &&& ((i & !(c | t)) | (i & (c | t))) == i
    }) by (bit_vector)
        requires
            c == 1usize << control,
            t == 1usize << target,
            control < nq,
            target < nq,
            nq < usize::BITS,
    ;
    assert((a | 0usize) == a && (a | (c | t)) == (a | c | t)) by (bit_vector);
}

/// A two-qubit gate touches every amplitude exactly once: each basis index of
/// the register is one of the four indices of some group, and no index occurs
/// twice among all the groups.
pub proof fn law_groups_partition_amplitudes(
    groups: Seq<(usize, usize, usize, usize)>,
    num_qubits: usize,
    control: usize,
    target: usize,
)
    requires
        control < num_qubits,
        target < num_qubits,
        control != target,
        num_qubits < usize::BITS,
        is_grouping(groups, (1usize << num_qubits) as nat, 1usize << control, 1usize << target),
    ensures
        forall|i: usize| i < (1usize << num_qubits) ==> #[trigger] touched_by_group(groups, i),
        forall|k1: int, s1: int, k2: int, s2: int|
            0 <= k1 < groups.len() && 0 <= k2 < groups.len() && 0 <= s1 < 4 && 0 <= s2 < 4 && (k1 != k2 || s1
                != s2) ==> #[trigger] group_slot(groups[k1], s1) != #[trigger] group_slot(groups[k2], s2),
{
    let c = 1usize << control;
    let t = 1usize << target;
    let n = 1usize << num_qubits;
    assert forall|i: usize| i < n implies #[trigger] touched_by_group(groups, i) by {
        lemma_group_bits(i, 0, 0, 0, 0, control, target, num_qubits);
        let b = i & !(c | t);
        let m = i & (c | t);
        let k = choose|k: int| 0 <= k < groups.len() && (#[trigger] groups[k]).0 == b;
        lemma_group_bits(i, b, 0, 0, 0, control, target, num_qubits);
        if m == 0 {
            assert(group_slot(groups[k], 0) == i);
        } else if m == t {
            assert(group_slot(groups[k], 1) == i);
        } else if m == c {
            assert(group_slot(groups[k], 2) == i);
        } else {
            assert(group_slot(groups[k], 3) == i);
        }
    }
    assert forall|k1: int, s1: int, k2: int, s2: int|
        0 <= k1 < groups.len() && 0 <= k2 < groups.len() && 0 <= s1 < 4 && 0 <= s2 < 4 && (k1 != k2 || s1 != s2)
            implies #[trigger] group_slot(groups[k1], s1) != #[trigger] group_slot(groups[k2], s2) by {
        let a = groups[k1].0;
        let b = groups[k2].0;
        let ma: usize = if s1 == 0 {
            0
        } else if s1 == 1 {
            t
        } else if s1 == 2 {
            c
        } else {
            c | t
        };
        let mb: usize = if s2 == 0 {
            0
        } else if s2 == 1 {
            t
        } else if s2 == 2 {
            c
        } else {
            c | t
        };
        lemma_group_bits(0, a, b, ma, mb, control, target, num_qubits);
        lemma_group_bits(0, b, a, mb, ma, control, target, num_qubits);
        assert(group_slot(groups[k1], s1) == (a | ma));
        assert(group_slot(groups[k2], s2) == (b | mb));
        if a == b {
            if k1 < k2 {
                assert(groups[k1].0 < groups[k2].0);
            } else if k2 < k1 {
                assert(groups[k2].0 < groups[k1].0);
            }
        }
    }
}

/// Seed of the simulator's measurement generator.
pub const SIMULATOR_SEED: u32 = 0x9E37_79B9;

/// One step of the xorshift32 generator (shifts 13, 17, 5).
pub open spec fn xorshift32_step(x: u32) -> u32 {
    let a = x ^ (x << 13u32);
    let b = a ^ (a >> 17u32);
    b ^ (b << 5u32)
}

/// Deterministic xorshift32 generator used for measurement sampling.
#[derive(Clone, Copy, Debug)]
pub struct Xorshift32 {
    state: u32,
}

impl Xorshift32 {
    /// The generator's current state.
    pub closed spec fn state(self) -> u32 {
        self.state
    }

    /// A generator started from `seed`.
    pub fn new(seed: u32) -> (rng: Self)
        ensures
            rng.state() == seed,
    {
        Xorshift32 { state: seed }
    }

    /// Advance the generator and return its new state.
    pub fn next_u32(&mut self) -> (x: u32)
        ensures
            x == xorshift32_step(old(self).state()),
            final(self).state() == x,
    {
        let mut x = self.state;
        x ^= x << 13u32;
        x ^= x >> 17u32;
        x ^= x << 5u32;
        self.state = x;
        x
    }
}

/// A generator that starts from a non-zero state never reaches zero, so it
/// never gets stuck: zero is the only fixed point of the xorshift step.
pub proof fn law_xorshift_never_sticks(x: u32)
    ensures
        x != 0 ==> xorshift32_step(x) != 0,
        x == 0 ==> xorshift32_step(x) == 0,
{
    assert(x != 0 ==> (x ^ (x << 13u32)) != 0) by (bit_vector);
    let a = x ^ (x << 13u32);
    assert(a != 0 ==> (a ^ (a >> 17u32)) != 0) by (bit_vector);
    let b = a ^ (a >> 17u32);
    assert(b != 0 ==> (b ^ (b << 5u32)) != 0) by (bit_vector);
    assert(x == 0 ==> xorshift32_step(x) == 0) by (bit_vector);
}

} // verus!
