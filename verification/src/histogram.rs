//! Histograms of sampled measurement outcomes: how often each basis-state
//! outcome occurred, listed in increasing order of outcome.

use vstd::prelude::*;
use std::collections::BTreeMap;
use vstd::std_specs::iter::IteratorSpec;
use vstd::std_specs::cmp::OrdSpec;

verus! {

broadcast use vstd::std_specs::btree::group_btree_axioms;

/// How many times `x` occurs in `s`.
pub open spec fn occurrences(s: Seq<u64>, x: u64) -> nat
    decreases s.len(),
{
    if s.len() == 0 {
        0
    } else {
        occurrences(s.drop_last(), x) + if s.last() == x {
            1nat
        } else {
            0nat
        }
    }
}

/// Sum of the counts of a histogram.
pub open spec fn total_count(h: Seq<(u64, usize)>) -> int
    decreases h.len(),
{
    if h.len() == 0 {
        0
    } else {
        total_count(h.drop_last()) + h.last().1
    }
}

/// `h` is the histogram of `outcomes`: one entry per distinct outcome, in
/// increasing order of outcome, each with the (positive) number of times the
/// outcome occurs.
pub open spec fn is_tally_of(h: Seq<(u64, usize)>, outcomes: Seq<u64>) -> bool {
    &&& forall|k1: int, k2: int| 0 <= k1 < k2 < h.len() ==> (#[trigger] h[k1]).0 < (#[trigger] h[k2]).0
    &&& forall|k: int|
        0 <= k < h.len() ==> (#[trigger] h[k]).1 == occurrences(outcomes, h[k].0) && h[k].1 > 0
    &&& forall|x: u64|
        #[trigger] occurrences(outcomes, x) > 0 ==> exists|k: int| 0 <= k < h.len() && (#[trigger] h[k]).0 == x
}

proof fn lemma_occurrences_le_len(s: Seq<u64>, x: u64)
    ensures
        occurrences(s, x) <= s.len(),
    decreases s.len(),
{
    if s.len() > 0 {
        lemma_occurrences_le_len(s.drop_last(), x);
    }
}

/// `s` with every occurrence of `x` removed.
pub open spec fn without(s: Seq<u64>, x: u64) -> Seq<u64>
    decreases s.len(),
{
    if s.len() == 0 {
        s
    } else {
        let rest = without(s.drop_last(), x);
        if s.last() == x {
            rest
        } else {
            rest.push(s.last())
        }
    }
}

proof fn lemma_without(s: Seq<u64>, x: u64)
    ensures
        without(s, x).len() + occurrences(s, x) == s.len(),
        occurrences(without(s, x), x) == 0,
        forall|y: u64| y != x ==> #[trigger] occurrences(without(s, x), y) == occurrences(s, y),
    decreases s.len(),
{
    if s.len() > 0 {
        lemma_without(s.drop_last(), x);
        let rest = without(s.drop_last(), x);
        let l = s.last();
        if l != x {
            assert(rest.push(l).drop_last() =~= rest);
            assert(rest.push(l).last() == l);
        }
        assert forall|y: u64| y != x implies #[trigger] occurrences(without(s, x), y) == occurrences(s, y) by {
            assert(occurrences(rest, y) == occurrences(s.drop_last(), y));
        }
    }
}

/// The keys of a map iteration come in increasing order of `u64`.
proof fn lemma_increasing_keys(ks: Seq<u64>)
    requires
        vstd::std_specs::btree::increasing_seq(ks),
    ensures
        forall|i: int, j: int| 0 <= i < j < ks.len() ==> ks[i] < ks[j],
{
    broadcast use vstd::laws_cmp::group_laws_cmp;

    assert(vstd::laws_cmp::obeys_cmp::<u64>());
    assert forall|i: int, j: int| 0 <= i < j < ks.len() implies ks[i] < ks[j] by {
        assert(ks[i].cmp_spec(&ks[j]) is Less);
    }
}

/// The counts of a histogram add up to the number of outcomes it tallies.
pub proof fn law_tally_total(h: Seq<(u64, usize)>, outcomes: Seq<u64>)
    requires
        is_tally_of(h, outcomes),
    ensures
        total_count(h) == outcomes.len(),
    decreases h.len(),
{
    if h.len() == 0 {
        if outcomes.len() > 0 {
            let x = outcomes.last();
            assert(occurrences(outcomes, x) > 0);
        }
    } else {
        let x = h.last().0;
        let hp = h.drop_last();
        let sp = without(outcomes, x);
        lemma_without(outcomes, x);
        assert forall|k1: int, k2: int| 0 <= k1 < k2 < hp.len() implies (#[trigger] hp[k1]).0 < (
        #[trigger] hp[k2]).0 by {
            assert(hp[k1] == h[k1] && hp[k2] == h[k2]);
        }
        assert forall|k: int| 0 <= k < hp.len() implies (#[trigger] hp[k]).1 == occurrences(sp, hp[k].0)
            && hp[k].1 > 0 by {
            assert(hp[k] == h[k]);
            assert(h[k].0 < h[h.len() - 1].0);
            assert(occurrences(sp, hp[k].0) == occurrences(outcomes, hp[k].0));
        }
        assert forall|y: u64| #[trigger] occurrences(sp, y) > 0 implies exists|k: int|
            0 <= k < hp.len() && (#[trigger] hp[k]).0 == y by {
            assert(y != x);
            assert(occurrences(outcomes, y) > 0);
            let k = choose|k: int| 0 <= k < h.len() && (#[trigger] h[k]).0 == y;
            assert(k != h.len() - 1);
            assert(hp[k] == h[k]);
        }
        law_tally_total(hp, sp);
        assert(h.last().1 == occurrences(outcomes, x));
    }
}

/// Count how often each outcome occurs; the histogram lists the distinct
/// outcomes in increasing order and its counts add up to the number of outcomes.
pub fn tally_outcomes(outcomes: &[u64]) -> (h: Vec<(u64, usize)>)
    ensures
        is_tally_of(h@, outcomes@),
        total_count(h@) == outcomes@.len(),
{
    let mut counts: BTreeMap<u64, usize> = BTreeMap::new();
    let mut i: usize = 0;
    while i < outcomes.len()
        invariant
            i <= outcomes.len(),
            forall|x: u64|
                #[trigger] counts@.contains_key(x) <==> occurrences(outcomes@.take(i as int), x) > 0,
            forall|x: u64|
                #[trigger] counts@.contains_key(x) ==> counts@[x] == occurrences(
                    outcomes@.take(i as int),
                    x,
                ),
        decreases outcomes.len() - i,
    {
        let ghost pre = outcomes@.take(i as int);
        let ghost post = outcomes@.take(i + 1);
        let x = outcomes[i];
        proof {
            assert(post.drop_last() =~= pre);
            assert(post.last() == x);
            assert forall|y: u64| #[trigger] occurrences(post, y) == occurrences(pre, y) + if y == x {
                1nat
            } else {
                0nat
            } by {}
            lemma_occurrences_le_len(pre, x);
        }
        let c: usize = match counts.get(&x) {
            Some(c) => *c,
            None => 0,
        };
        counts.insert(x, c + 1);
        i += 1;
    }
    let ghost all = outcomes@;
    assert(outcomes@.take(outcomes.len() as int) =~= all);
    let mut h: Vec<(u64, usize)> = Vec::new();
    let it0 = counts.iter();
    let ghost s = it0.remaining();
    assert(vstd::std_specs::btree::increasing_seq(s.map_values(|kv: (&u64, &usize)| *kv.0)));
    for kv in it: it0
        invariant
            h@.len() == it.index(),
            it.seq() == s,
            forall|j: int| 0 <= j < it.index() ==> h@[j] == (*s[j].0, *s[j].1),
    {
        let (k, v) = kv;
        h.push((*k, *v));
    }
    proof {
        assert(h@.len() == s.len());
        assert forall|y: u64| #[trigger] occurrences(all, y) > 0 implies exists|k: int|
            0 <= k < h.len() && (#[trigger] h@[k]).0 == y by {
            assert(counts@.contains_key(y));
            assert(s.contains((&y, &counts@[y])));
            let k = choose|k: int| 0 <= k < s.len() && s[k] == (&y, &counts@[y]);
            assert(h@[k].0 == y);
        }
        let ks = s.map_values(|kv: (&u64, &usize)| *kv.0);
        lemma_increasing_keys(ks);
        assert forall|k1: int, k2: int| 0 <= k1 < k2 < h.len() implies (#[trigger] h@[k1]).0 < (
        #[trigger] h@[k2]).0 by {
            assert(ks[k1] == h@[k1].0);
            assert(ks[k2] == h@[k2].0);
        }
        assert forall|k: int| 0 <= k < h.len() implies (#[trigger] h@[k]).1 == occurrences(all, h@[k].0)
            && h@[k].1 > 0 by {
            assert(counts@.contains_key(*s[k].0));
        }
        law_tally_total(h@, all);
    }
    h
}

} // verus!
