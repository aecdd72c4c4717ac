//! The agreement `A` of a single layer (van der Eijk, 2001).
//!
//! ```text
//!               S  - 1
//! A = U . (1 - -------)
//!               K - 1
//!
//!      (K - 2) . TU - (K - 1) . TDU
//! U = -----------------------------
//!          (K - 2) . (TU + TDU)
//! ```
//!
//! where `K` is the layer length, `S` the number of non-empty categories, and
//! `TU`, `TDU` the pattern counts of `crate::triples`. This module decides which
//! case of the definition a layer falls under and gathers the integers of the
//! formula; `agreement_ratio` gives its exact value as a fraction.
use crate::triples::{
    count_tu_tdu, lemma_counts_bounded_by_length, lemma_counts_reverse,
    lemma_occurrences_bounded, lemma_occurrences_split, lemma_tu_plus_tdu, lemma_occurrences_push, lemma_other_witness, lemma_triple_witness,
    lemma_two_witnesses, occurrences, pair_count, tdu_count, triple_count, tu_count,
};
use vstd::prelude::*;

verus! {

/// The agreement of one layer, by the case of the definition it falls under.
#[derive(Debug, Clone, Copy, PartialEq, Eq, Structural)]
pub enum Agreement {
    /// Every category is non-empty: the layer is perfectly uniform, `A = 0`.
    Uniform,
    /// A single non-empty category: perfect agreement, `A = 1`.
    Unanimous,
    /// No non-empty category, `A = 0`.
    Empty,
    /// The general formula, with `K = categories`, `S = occupied`, `TU = tu`
    /// and `TDU = tdu`.
    Pattern { categories: usize, occupied: usize, tu: usize, tdu: usize },
}

/// The case of the definition that the layer `s` falls under, with the
/// integers of the formula.
pub open spec fn spec_agreement(s: Seq<bool>) -> Agreement {
    let k = s.len();
    let o = occurrences(s, true);
    if o == k {
        Agreement::Uniform
    } else if o == 1 {
        Agreement::Unanimous
    } else if o == 0 {
        Agreement::Empty
    } else {
        Agreement::Pattern {
            categories: k as usize,
            occupied: o as usize,
            tu: tu_count(s) as usize,
            tdu: tdu_count(s) as usize,
        }
    }
}

/// The exact value of an agreement as a fraction `(numerator, denominator)`.
pub open spec fn agreement_ratio(a: Agreement) -> (int, int) {
    match a {
        Agreement::Uniform => (0, 1),
        Agreement::Unanimous => (1, 1),
        Agreement::Empty => (0, 1),
        Agreement::Pattern { categories, occupied, tu, tdu } => {
            let k = categories as int;
            let s = occupied as int;
            (
                ((k - 2) * tu - (k - 1) * tdu) * (k - s),
                (k - 2) * (tu + tdu) * (k - 1),
            )
        },
    }
}

/// The agreement `A` of the layer `s` as a fraction `(numerator,
/// denominator)`, from its length `K`, its number `S` of non-empty categories
/// and its counts `TU`, `TDU`: 0 when every category or none is non-empty, 1
/// when exactly one is, and otherwise
/// `((K - 2) . TU - (K - 1) . TDU) . (K - S) / ((K - 2) . (TU + TDU) . (K - 1))`.
pub open spec fn layer_value(s: Seq<bool>) -> (int, int) {
    let k = s.len() as int;
    let o = occurrences(s, true) as int;
    let tu = tu_count(s) as int;
    let tdu = tdu_count(s) as int;
    if o == k || o == 0 {
        (0, 1)
    } else if o == 1 {
        (1, 1)
    } else {
        (((k - 2) * tu - (k - 1) * tdu) * (k - o), (k - 2) * (tu + tdu) * (k - 1))
    }
}

/// The triple counts of `s` fit the machine word that holds them.
pub open spec fn counts_fit(s: Seq<bool>) -> bool {
    tu_count(s) <= usize::MAX && tdu_count(s) <= usize::MAX
}

/// A layer with at least two non-empty and at least one empty category holds
/// one of the patterns `110`, `011`, `101`.
pub proof fn lemma_mixed_layer_has_triples(s: Seq<bool>)
    requires
        2 <= occurrences(s, true) < s.len(),
    ensures
        tu_count(s) + tdu_count(s) > 0,
{
    let z = lemma_other_witness(s, true);
    let (i, j) = lemma_two_witnesses(s, true);
    if z < i {
        lemma_triple_witness(s, z, i, j);
    } else if z < j {
        lemma_triple_witness(s, i, z, j);
    } else {
        lemma_triple_witness(s, i, j, z);
    }
}

/// A layer whose length `n` has `n^3 <= 6 . usize::MAX` has counts that fit.
pub proof fn lemma_counts_fit_from_length(s: Seq<bool>)
    requires
        s.len() * s.len() * s.len() <= 6 * usize::MAX,
    ensures
        counts_fit(s),
{
    lemma_counts_bounded_by_length(s);
}

proof fn lemma_ratio_bounds(k: int, s: int, tu: int, tdu: int)
    requires
        3 <= k,
        2 <= s < k,
        0 <= tu,
        0 <= tdu,
        tu + tdu > 0,
    ensures
        (k - 2) * (tu + tdu) * (k - 1) > 0,
        ((k - 2) * tu - (k - 1) * tdu) * (k - s) <= (k - 2) * (tu + tdu) * (k - 1),
        -((k - 2) * (tu + tdu) * (k - 1)) <= ((k - 2) * tu - (k - 1) * tdu) * (k - s),
{
    assert((k - 2) * (tu + tdu) * (k - 1) > 0) by (nonlinear_arith)
        requires
            3 <= k,
            tu + tdu > 0,
    ;
    assert(((k - 2) * tu - (k - 1) * tdu) * (k - s) <= (k - 2) * (tu + tdu) * (k - 1))
        by (nonlinear_arith)
        requires
            3 <= k,
            2 <= s < k,
            0 <= tu,
            0 <= tdu,
    {
        assert((k - 2) * tu * (k - s) <= (k - 2) * tu * (k - 1));
        assert((k - 1) * tdu * (k - s) >= 0);
        assert((k - 2) * tdu * (k - 1) >= 0);
    }
    assert(-((k - 2) * (tu + tdu) * (k - 1)) <= ((k - 2) * tu - (k - 1) * tdu) * (k - s))
        by (nonlinear_arith)
        requires
            3 <= k,
            2 <= s < k,
            0 <= tu,
            0 <= tdu,
    {
        assert((k - 1) * tdu * (2 - s) <= 0);
        assert((k - 2) * tu * (k - s) >= 0);
        assert((k - 2) * tu * (k - 1) >= 0);
    }
}

/// The agreement of a layer lies in `[-1, 1]`: its denominator is positive and
/// the numerator is bounded by it in absolute value.
pub proof fn lemma_agreement_bounded(s: Seq<bool>)
    requires
        s.len() <= usize::MAX,
        counts_fit(s),
    ensures
        agreement_ratio(spec_agreement(s)).1 > 0,
        -agreement_ratio(spec_agreement(s)).1 <= agreement_ratio(spec_agreement(s)).0
            <= agreement_ratio(spec_agreement(s)).1,
{
    let o = occurrences(s, true);
    if o != s.len() && o != 1 && o != 0 {
        lemma_occurrences_bounded(s, true);
        lemma_mixed_layer_has_triples(s);
        lemma_ratio_bounds(s.len() as int, o as int, tu_count(s) as int, tdu_count(s) as int);
    }
}

/// The layer `1 0 ... 0 1` of length `k`: only the two end categories are
/// non-empty.
pub open spec fn two_ends(k: nat) -> Seq<bool> {
    Seq::new(k, |i: int| i == 0 || i == k - 1)
}

/// The counts of the layer `1 0 ... 0` with `m` zeros.
proof fn lemma_one_then_zeros(m: nat)
    ensures
        occurrences(seq![true] + Seq::new(m, |i: int| false), true) == 1,
        pair_count(seq![true] + Seq::new(m, |i: int| false), true, false) == m,
        pair_count(seq![true] + Seq::new(m, |i: int| false), false, true) == 0,
        pair_count(seq![true] + Seq::new(m, |i: int| false), true, true) == 0,
        triple_count(seq![true] + Seq::new(m, |i: int| false), true, true, false) == 0,
        triple_count(seq![true] + Seq::new(m, |i: int| false), false, true, true) == 0,
        triple_count(seq![true] + Seq::new(m, |i: int| false), true, false, true) == 0,
    decreases m,
{
    let s = seq![true] + Seq::new(m, |i: int| false);
    if m == 0 {
        let e = Seq::<bool>::empty();
        assert(s.drop_last() =~= e);
        assert(s.last() == true);
        assert(occurrences(e, true) == 0);
        assert(pair_count(e, true, false) == 0 && pair_count(e, false, true) == 0 && pair_count(
            e,
            true,
            true,
        ) == 0);
        assert(triple_count(e, true, true, false) == 0 && triple_count(e, false, true, true) == 0
            && triple_count(e, true, false, true) == 0);
    } else {
        let t = seq![true] + Seq::new((m - 1) as nat, |i: int| false);
        lemma_one_then_zeros((m - 1) as nat);
        assert(s.drop_last() =~= t);
        assert(s.last() == false);
        assert(occurrences(s, true) == occurrences(t, true));
        assert(pair_count(s, true, false) == pair_count(t, true, false) + occurrences(t, true));
        assert(pair_count(s, false, true) == pair_count(t, false, true));
        assert(pair_count(s, true, true) == pair_count(t, true, true));
        assert(triple_count(s, true, true, false) == triple_count(t, true, true, false)
            + pair_count(t, true, true));
        assert(triple_count(s, false, true, true) == triple_count(t, false, true, true));
        assert(triple_count(s, true, false, true) == triple_count(t, true, false, true));
    }
}

/// The layer `1 0 ... 0 1` is perfect disagreement: `A = -1`.
pub proof fn lemma_two_ends_disagree(k: nat)
    requires
        3 <= k <= usize::MAX,
    ensures
        occurrences(two_ends(k), true) == 2,
        spec_agreement(two_ends(k)) == (Agreement::Pattern {
            categories: k as usize,
            occupied: 2,
            tu: 0,
            tdu: (k - 2) as usize,
        }),
        agreement_ratio(spec_agreement(two_ends(k))).1 > 0,
        agreement_ratio(spec_agreement(two_ends(k))).0 == -agreement_ratio(
            spec_agreement(two_ends(k)),
        ).1,
{
    let m = (k - 2) as nat;
    let t = seq![true] + Seq::new(m, |i: int| false);
    let s = two_ends(k);
    lemma_one_then_zeros(m);
    assert(s.drop_last() =~= t);
    assert(s.last() == true);
    assert(occurrences(s, true) == 2);
    assert(tu_count(s) == 0);
    assert(tdu_count(s) == m);
    let kk = k as int;
    assert(((kk - 2) * 0 - (kk - 1) * m) * (kk - 2) == -((kk - 2) * (0 + m) * (kk - 1)))
        by (nonlinear_arith)
        requires
            m == kk - 2,
    ;
    assert((kk - 2) * (0 + m) * (kk - 1) > 0) by (nonlinear_arith)
        requires
            m == kk - 2,
            kk >= 3,
    ;
}

/// The value of a layer's agreement is given by its length, its number of
/// non-empty categories and its pattern counts (see [`layer_value`]); in the
/// general case the agreement carries exactly these integers.
pub proof fn lemma_agreement_value(s: Seq<bool>)
    requires
        s.len() <= usize::MAX,
        counts_fit(s),
    ensures
        agreement_ratio(spec_agreement(s)) == layer_value(s),
        spec_agreement(s) matches Agreement::Pattern { categories, occupied, tu, tdu } ==> {
            &&& categories == s.len()
            &&& occupied == occurrences(s, true)
            &&& tu == tu_count(s)
            &&& tdu == tdu_count(s)
            &&& 2 <= occupied < categories
        },
{
    lemma_occurrences_bounded(s, true);
}

/// The layer of length `k` whose non-empty categories are the `s` consecutive
/// ones starting at `lo`.
pub open spec fn block(k: nat, lo: int, s: int) -> Seq<bool> {
    Seq::new(k, |i: int| lo <= i < lo + s)
}

proof fn lemma_block_counts(k: nat, lo: int, s: int)
    requires
        0 <= lo,
        0 <= s,
    ensures
        occurrences(block(k, lo, s), true) == (if k <= lo {
            0
        } else if k <= lo + s {
            k - lo
        } else {
            s
        }),
        k <= lo + s ==> pair_count(block(k, lo, s), true, false) == 0,
        triple_count(block(k, lo, s), true, false, true) == 0,
    decreases k,
{
    let b = block(k, lo, s);
    if k > 0 {
        let k1 = (k - 1) as nat;
        lemma_block_counts(k1, lo, s);
        assert(b.drop_last() =~= block(k1, lo, s));
        assert(b.last() == (lo <= k1 && k1 < lo + s));
    } else {
        assert(occurrences(b, true) == 0);
        assert(pair_count(b, true, false) == 0);
        assert(triple_count(b, true, false, true) == 0);
    }
}

/// A layer whose non-empty categories form one contiguous block of `s` out of
/// `k` categories (`2 <= s < k`) holds no `101` pattern, and its agreement is
/// `A = (k - s) / (k - 1)`.
pub proof fn lemma_block_agreement(k: nat, lo: int, s: int)
    requires
        0 <= lo,
        2 <= s < k,
        lo + s <= k,
        k <= usize::MAX,
        counts_fit(block(k, lo, s)),
    ensures
        tdu_count(block(k, lo, s)) == 0,
        2 * tu_count(block(k, lo, s)) == s * (s - 1) * (k - s),
        agreement_ratio(spec_agreement(block(k, lo, s))).1 > 0,
        agreement_ratio(spec_agreement(block(k, lo, s))).0 * (k - 1) == agreement_ratio(
            spec_agreement(block(k, lo, s)),
        ).1 * (k - s),
{
    let b = block(k, lo, s);
    lemma_block_counts(k, lo, s);
    lemma_tu_plus_tdu(b);
    lemma_occurrences_split(b);
    lemma_agreement_value(b);
    let kk = k as int;
    let tu = tu_count(b) as int;
    assert(occurrences(b, true) == s);
    assert(occurrences(b, false) == kk - s);
    assert(2 * tu == s * (s - 1) * (kk - s));
    assert(tu > 0) by (nonlinear_arith)
        requires
            2 * tu == s * (s - 1) * (kk - s),
            2 <= s < kk,
    ;
    let n = ((kk - 2) * tu - (kk - 1) * 0) * (kk - s);
    let d = (kk - 2) * (tu + 0) * (kk - 1);
    assert(layer_value(b) == (n, d));
    assert(d > 0) by (nonlinear_arith)
        requires
            d == (kk - 2) * (tu + 0) * (kk - 1),
            tu > 0,
            kk >= 3,
    ;
    assert(n * (kk - 1) == d * (kk - s)) by (nonlinear_arith)
        requires
            n == ((kk - 2) * tu - (kk - 1) * 0) * (kk - s),
            d == (kk - 2) * (tu + 0) * (kk - 1),
    ;
}

/// Mirroring a layer keeps its agreement.
pub proof fn lemma_agreement_reverse(s: Seq<bool>)
    ensures
        spec_agreement(s.reverse()) == spec_agreement(s),
        occurrences(s.reverse(), true) == occurrences(s, true),
{
    lemma_counts_reverse(s);
}

/// Number of non-empty categories of a layer.
pub fn count_occupied(layer: &[bool]) -> (count: usize)
    ensures
        count == occurrences(layer@, true),
{
    let mut count: usize = 0;
    let mut i: usize = 0;
    while i < layer.len()
        invariant
            i <= layer.len(),
            count == occurrences(layer@.take(i as int), true),
            count <= i,
        decreases layer.len() - i,
    {
        proof {
            assert(layer@.take(i + 1) =~= layer@.take(i as int).push(layer@[i as int]));
            lemma_occurrences_push(layer@.take(i as int), layer@[i as int], true);
        }
        if layer[i] {
            count += 1;
        }
        i += 1;
    }
    proof {
        assert(layer@.take(layer.len() as int) =~= layer@);
    }
    count
}

/// Compute the agreement `A` of a layer: which case of the definition applies,
/// with the integers of the general formula. See [`agreement_ratio`] for its
/// value.
///
/// A layer where every category is non-empty is uniform (`A = 0`); one with a
/// single non-empty category is perfect agreement (`A = 1`), as in the R
/// package `agrmt` (`if (sum(P) == 1) (A <- 1)`); an empty layer has `A = 0`.
pub fn compute_a(layer: &[bool]) -> (a: Agreement)
    requires
        counts_fit(layer@),
    ensures
        a == spec_agreement(layer@),
        (a is Uniform) <==> occurrences(layer@, true) == layer.len(),
        (a is Unanimous) <==> occurrences(layer@, true) == 1 && layer.len() != 1,
        (a is Empty) <==> occurrences(layer@, true) == 0 && layer.len() != 0,
        a matches Agreement::Pattern { categories, occupied, tu, tdu } ==> {
            &&& categories == layer.len()
            &&& occupied == occurrences(layer@, true)
            &&& tu == tu_count(layer@)
            &&& tdu == tdu_count(layer@)
        },
        agreement_ratio(a) == layer_value(layer@),
{
    let k = layer.len();
    proof {
        assert(layer@.len() == k);
        lemma_agreement_value(layer@);
        lemma_occurrences_bounded(layer@, true);
    }
    let s = count_occupied(layer);
    if s == k {
        return Agreement::Uniform;
    }
    if s == 1 {
        return Agreement::Unanimous;
    }
    if s == 0 {
        return Agreement::Empty;
    }
    let (tu, tdu) = count_tu_tdu(layer);
    Agreement::Pattern { categories: k, occupied: s, tu, tdu }
}

} // verus!
