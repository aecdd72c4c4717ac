//! Counting the three-category patterns `110`, `011` and `101` of a layer.
//!
//! A layer is a sequence of booleans: `true` marks a non-empty category. The
//! agreement score of a layer depends on how often the patterns `110` and `011`
//! (`TU`) and `101` (`TDU`) occur in it as subsequences, that is on index
//! triples `i < j < k`, not only on adjacent positions.
use vstd::arithmetic::mul::lemma_mul_is_distributive_add;
use vstd::prelude::*;

verus! {

/// Number of entries of `s` equal to `a`.
pub open spec fn occurrences(s: Seq<bool>, a: bool) -> nat
    decreases s.len(),
{
    if s.len() == 0 {
        0
    } else {
        occurrences(s.drop_last(), a) + (if s.last() == a {
            1nat
        } else {
            0nat
        })
    }
}

/// Number of index pairs `i < j` with `s[i] == a` and `s[j] == b`, counted by
/// the position of the second element.
pub open spec fn pair_count(s: Seq<bool>, a: bool, b: bool) -> nat
    decreases s.len(),
{
    if s.len() == 0 {
        0
    } else {
        pair_count(s.drop_last(), a, b) + (if s.last() == b {
            occurrences(s.drop_last(), a)
        } else {
            0nat
        })
    }
}

/// Number of index triples `i < j < k` with `(s[i], s[j], s[k]) == (a, b, c)`:
/// how often the pattern `abc` occurs in `s` as a subsequence, counted by the
/// position of the third element.
pub open spec fn triple_count(s: Seq<bool>, a: bool, b: bool, c: bool) -> nat
    decreases s.len(),
{
    if s.len() == 0 {
        0
    } else {
        triple_count(s.drop_last(), a, b, c) + (if s.last() == c {
            pair_count(s.drop_last(), a, b)
        } else {
            0nat
        })
    }
}

/// `TU`: the occurrences of `110` and of `011`.
pub open spec fn tu_count(s: Seq<bool>) -> nat {
    triple_count(s, true, true, false) + triple_count(s, false, true, true)
}

/// `TDU`: the occurrences of `101`.
pub open spec fn tdu_count(s: Seq<bool>) -> nat {
    triple_count(s, true, false, true)
}

/// The triples `abc` whose middle element sits at position `j`.
pub open spec fn middle_term(s: Seq<bool>, j: int, a: bool, b: bool, c: bool) -> nat {
    if s[j] == b {
        occurrences(s.take(j), a) * occurrences(s.skip(j + 1), c)
    } else {
        0
    }
}

/// The triples `abc` whose middle element sits at a position `>= lo`.
pub open spec fn middle_sum(s: Seq<bool>, lo: int, a: bool, b: bool, c: bool) -> nat
    decreases s.len() - lo,
{
    if lo < 0 || lo >= s.len() {
        0
    } else {
        middle_term(s, lo, a, b, c) + middle_sum(s, lo + 1, a, b, c)
    }
}

/// The pairs `ab` whose second element sits at a position `>= lo`.
pub open spec fn second_sum(s: Seq<bool>, lo: int, a: bool, b: bool) -> nat
    decreases s.len() - lo,
{
    if lo < 0 || lo >= s.len() {
        0
    } else {
        (if s[lo] == b {
            occurrences(s.take(lo), a)
        } else {
            0nat
        }) + second_sum(s, lo + 1, a, b)
    }
}

pub proof fn lemma_occurrences_push(t: Seq<bool>, x: bool, a: bool)
    ensures
        occurrences(t.push(x), a) == occurrences(t, a) + (if x == a {
            1nat
        } else {
            0nat
        }),
{
    assert(t.push(x).drop_last() =~= t);
}

pub proof fn lemma_occurrences_prepend(x: bool, t: Seq<bool>, a: bool)
    ensures
        occurrences(seq![x] + t, a) == occurrences(t, a) + (if x == a {
            1nat
        } else {
            0nat
        }),
    decreases t.len(),
{
    if t.len() == 0 {
        let u = seq![x] + t;
        assert(u.drop_last() =~= Seq::<bool>::empty());
        assert(u.len() == 1 && u.last() == x);
        assert(occurrences(u.drop_last(), a) == 0);
        assert(occurrences(t, a) == 0);
    } else {
        let u = seq![x] + t;
        assert(u.drop_last() =~= seq![x] + t.drop_last());
        assert(u.last() == t.last());
        lemma_occurrences_prepend(x, t.drop_last(), a);
        assert(occurrences(u, a) == occurrences(u.drop_last(), a) + (if u.last() == a {
            1nat
        } else {
            0nat
        }));
    }
}

/// An entry at position `i` is counted.
pub proof fn lemma_occurrences_witness(s: Seq<bool>, i: int)
    requires
        0 <= i < s.len(),
    ensures
        occurrences(s, s[i]) >= 1,
    decreases s.len(),
{
    if i < s.len() - 1 {
        lemma_occurrences_witness(s.drop_last(), i);
    }
}

pub proof fn lemma_pair_witness(s: Seq<bool>, i: int, j: int)
    requires
        0 <= i < j < s.len(),
    ensures
        pair_count(s, s[i], s[j]) >= 1,
    decreases s.len(),
{
    if j == s.len() - 1 {
        lemma_occurrences_witness(s.drop_last(), i);
    } else {
        lemma_pair_witness(s.drop_last(), i, j);
    }
}

pub proof fn lemma_triple_witness(s: Seq<bool>, i: int, j: int, k: int)
    requires
        0 <= i < j < k < s.len(),
    ensures
        triple_count(s, s[i], s[j], s[k]) >= 1,
    decreases s.len(),
{
    if k == s.len() - 1 {
        lemma_pair_witness(s.drop_last(), i, j);
    } else {
        lemma_triple_witness(s.drop_last(), i, j, k);
    }
}

/// Fewer than `s.len()` entries equal to `a`: some entry differs from `a`.
pub proof fn lemma_other_witness(s: Seq<bool>, a: bool) -> (i: int)
    requires
        occurrences(s, a) < s.len(),
    ensures
        0 <= i < s.len(),
        s[i] != a,
    decreases s.len(),
{
    if s.last() != a {
        s.len() - 1
    } else {
        lemma_other_witness(s.drop_last(), a)
    }
}

/// At least two entries equal to `a`: there are two such positions.
pub proof fn lemma_two_witnesses(s: Seq<bool>, a: bool) -> (ij: (int, int))
    requires
        occurrences(s, a) >= 2,
    ensures
        0 <= ij.0 < ij.1 < s.len(),
        s[ij.0] == a,
        s[ij.1] == a,
    decreases s.len(),
{
    if s.last() == a {
        let i = lemma_some_witness(s.drop_last(), a);
        (i, s.len() - 1)
    } else {
        lemma_two_witnesses(s.drop_last(), a)
    }
}

pub proof fn lemma_some_witness(s: Seq<bool>, a: bool) -> (i: int)
    requires
        occurrences(s, a) >= 1,
    ensures
        0 <= i < s.len(),
        s[i] == a,
    decreases s.len(),
{
    if s.last() == a {
        s.len() - 1
    } else {
        lemma_some_witness(s.drop_last(), a)
    }
}

pub proof fn lemma_occurrences_bounded(s: Seq<bool>, a: bool)
    ensures
        occurrences(s, a) <= s.len(),
    decreases s.len(),
{
    if s.len() > 0 {
        lemma_occurrences_bounded(s.drop_last(), a);
    }
}

/// Every entry is either `true` or `false`.
pub proof fn lemma_occurrences_split(s: Seq<bool>)
    ensures
        occurrences(s, true) + occurrences(s, false) == s.len(),
    decreases s.len(),
{
    if s.len() > 0 {
        lemma_occurrences_split(s.drop_last());
    }
}

/// Every triple with exactly two `true` entries is `110`, `011` or `101`:
/// with `o` ones and `z` zeros, `TU + TDU = o(o-1)/2 . z`.
pub proof fn lemma_tu_plus_tdu(s: Seq<bool>)
    ensures
        2 * (tu_count(s) + tdu_count(s)) == occurrences(s, true) * (occurrences(s, true) - 1)
            * occurrences(s, false),
        2 * pair_count(s, true, true) == occurrences(s, true) * (occurrences(s, true) - 1),
        pair_count(s, false, true) + pair_count(s, true, false) == occurrences(s, true)
            * occurrences(s, false),
    decreases s.len(),
{
    if s.len() == 0 {
        assert(occurrences(s, true) == 0);
        assert(occurrences(s, false) == 0);
    } else {
        let t = s.drop_last();
        lemma_tu_plus_tdu(t);
        let o = occurrences(t, true) as int;
        let z = occurrences(t, false) as int;
        let ptt = pair_count(t, true, true) as int;
        let pft = pair_count(t, false, true) as int;
        let ptf = pair_count(t, true, false) as int;
        let sum = (tu_count(t) + tdu_count(t)) as int;
        if s.last() {
            assert(occurrences(s, true) == o + 1);
            assert(occurrences(s, false) == z);
            assert(pair_count(s, true, true) == ptt + o);
            assert(pair_count(s, false, true) == pft + z);
            assert(pair_count(s, true, false) == ptf);
            assert(tu_count(s) + tdu_count(s) == sum + pft + ptf);
            assert(2 * (sum + pft + ptf) == (o + 1) * o * z) by (nonlinear_arith)
                requires
                    2 * sum == o * (o - 1) * z,
                    pft + ptf == o * z,
            ;
            assert(2 * (ptt + o) == (o + 1) * o) by (nonlinear_arith)
                requires
                    2 * ptt == o * (o - 1),
            ;
            assert(pft + z + ptf == (o + 1) * z) by (nonlinear_arith)
                requires
                    pft + ptf == o * z,
            ;
        } else {
            assert(occurrences(s, true) == o);
            assert(occurrences(s, false) == z + 1);
            assert(pair_count(s, true, true) == ptt);
            assert(pair_count(s, false, true) == pft);
            assert(pair_count(s, true, false) == ptf + o);
            assert(tu_count(s) + tdu_count(s) == sum + ptt);
            assert(2 * (sum + ptt) == o * (o - 1) * (z + 1)) by (nonlinear_arith)
                requires
                    2 * sum == o * (o - 1) * z,
                    2 * ptt == o * (o - 1),
            ;
            assert(pft + ptf + o == o * (z + 1)) by (nonlinear_arith)
                requires
                    pft + ptf == o * z,
            ;
        }
    }
}

/// `TU + TDU` is at most `n^3 / 6` for a layer of length `n`.
pub proof fn lemma_counts_bounded_by_length(s: Seq<bool>)
    ensures
        6 * (tu_count(s) + tdu_count(s)) <= s.len() * s.len() * s.len(),
{
    lemma_tu_plus_tdu(s);
    lemma_occurrences_split(s);
    let o = occurrences(s, true) as int;
    let z = occurrences(s, false) as int;
    let n = s.len() as int;
    assert(3 * (o * (o - 1) * z) <= n * n * n) by (nonlinear_arith)
        requires
            o >= 0,
            z >= 0,
            n == o + z,
    {
        assert(o * (o - 1) * z <= o * o * z);
        assert(n * n * n == o * o * o + 3 * (o * o * z) + 3 * (o * z * z) + z * z * z);
        assert(o * o * o >= 0);
        assert(o * z * z >= 0);
        assert(z * z * z >= 0);
    }
}

proof fn lemma_reverse_push(s: Seq<bool>, x: bool)
    ensures
        s.push(x).reverse() =~= seq![x] + s.reverse(),
        s.reverse().len() == s.len(),
{
    assert(s.push(x).reverse() =~= seq![x] + s.reverse());
}

/// Prepending `x` adds the pairs that start with `x`.
pub proof fn lemma_pair_prepend(x: bool, t: Seq<bool>, a: bool, b: bool)
    ensures
        pair_count(seq![x] + t, a, b) == pair_count(t, a, b) + (if x == a {
            occurrences(t, b)
        } else {
            0nat
        }),
    decreases t.len(),
{
    let u = seq![x] + t;
    if t.len() == 0 {
        assert(u.drop_last() =~= Seq::<bool>::empty());
        assert(occurrences(Seq::<bool>::empty(), a) == 0);
        assert(pair_count(Seq::<bool>::empty(), a, b) == 0);
    } else {
        let t2 = t.drop_last();
        let y = t.last();
        lemma_pair_prepend(x, t2, a, b);
        lemma_occurrences_prepend(x, t2, a);
        assert(u.drop_last() =~= seq![x] + t2);
        assert(u.last() == y);
    }
}

/// Prepending `x` adds the triples that start with `x`.
pub proof fn lemma_triple_prepend(x: bool, t: Seq<bool>, a: bool, b: bool, c: bool)
    ensures
        triple_count(seq![x] + t, a, b, c) == triple_count(t, a, b, c) + (if x == a {
            pair_count(t, b, c)
        } else {
            0nat
        }),
    decreases t.len(),
{
    let u = seq![x] + t;
    if t.len() == 0 {
        assert(u.drop_last() =~= Seq::<bool>::empty());
        assert(pair_count(Seq::<bool>::empty(), a, b) == 0);
        assert(triple_count(Seq::<bool>::empty(), a, b, c) == 0);
    } else {
        let t2 = t.drop_last();
        let y = t.last();
        lemma_triple_prepend(x, t2, a, b, c);
        lemma_pair_prepend(x, t2, a, b);
        assert(u.drop_last() =~= seq![x] + t2);
        assert(u.last() == y);
    }
}

/// Reversing a layer keeps its counts.
pub proof fn lemma_occurrences_reverse(s: Seq<bool>, a: bool)
    ensures
        occurrences(s.reverse(), a) == occurrences(s, a),
    decreases s.len(),
{
    if s.len() > 0 {
        let t = s.drop_last();
        lemma_occurrences_reverse(t, a);
        assert(t.push(s.last()) =~= s);
        lemma_reverse_push(t, s.last());
        lemma_occurrences_prepend(s.last(), t.reverse(), a);
    } else {
        assert(s.reverse() =~= s);
    }
}

/// Reversing a layer turns the pairs `ab` into the pairs `ba`.
pub proof fn lemma_pair_reverse(s: Seq<bool>, a: bool, b: bool)
    ensures
        pair_count(s.reverse(), a, b) == pair_count(s, b, a),
    decreases s.len(),
{
    if s.len() > 0 {
        let t = s.drop_last();
        lemma_pair_reverse(t, a, b);
        assert(t.push(s.last()) =~= s);
        lemma_reverse_push(t, s.last());
        lemma_pair_prepend(s.last(), t.reverse(), a, b);
        lemma_occurrences_reverse(t, b);
    } else {
        assert(s.reverse() =~= s);
    }
}

/// Reversing a layer turns the triples `abc` into the triples `cba`.
pub proof fn lemma_triple_reverse(s: Seq<bool>, a: bool, b: bool, c: bool)
    ensures
        triple_count(s.reverse(), a, b, c) == triple_count(s, c, b, a),
    decreases s.len(),
{
    if s.len() > 0 {
        let t = s.drop_last();
        lemma_triple_reverse(t, a, b, c);
        assert(t.push(s.last()) =~= s);
        lemma_reverse_push(t, s.last());
        lemma_triple_prepend(s.last(), t.reverse(), a, b, c);
        lemma_pair_reverse(t, b, c);
    } else {
        assert(s.reverse() =~= s);
    }
}

/// Mirroring a layer swaps `110` and `011` and keeps `101`: `TU` and `TDU`
/// are unchanged.
pub proof fn lemma_counts_reverse(s: Seq<bool>)
    ensures
        tu_count(s.reverse()) == tu_count(s),
        tdu_count(s.reverse()) == tdu_count(s),
        occurrences(s.reverse(), true) == occurrences(s, true),
        s.reverse().len() == s.len(),
{
    lemma_triple_reverse(s, true, true, false);
    lemma_triple_reverse(s, false, true, true);
    lemma_triple_reverse(s, true, false, true);
    lemma_occurrences_reverse(s, true);
}

/// Appending `x` adds, to each middle position, the triples that end in `x`.
proof fn lemma_middle_push(s: Seq<bool>, x: bool, lo: int, a: bool, b: bool, c: bool)
    requires
        0 <= lo <= s.len(),
    ensures
        middle_sum(s.push(x), lo, a, b, c) == middle_sum(s, lo, a, b, c) + (if x == c {
            second_sum(s, lo, a, b)
        } else {
            0nat
        }),
    decreases s.len() - lo,
{
    let t = s.push(x);
    if lo == s.len() {
        assert(t.skip(lo + 1) =~= Seq::<bool>::empty());
        assert(occurrences(t.skip(lo + 1), c) == 0);
        let p = occurrences(t.take(lo), a);
        assert(p * 0 == 0) by (nonlinear_arith);
        assert(middle_term(t, lo, a, b, c) == 0);
        assert(middle_sum(t, lo + 1, a, b, c) == 0);
    } else {
        lemma_middle_push(s, x, lo + 1, a, b, c);
        assert(t.take(lo) =~= s.take(lo));
        assert(t.skip(lo + 1) =~= s.skip(lo + 1).push(x));
        lemma_occurrences_push(s.skip(lo + 1), x, c);
        let p = occurrences(s.take(lo), a);
        let q = occurrences(s.skip(lo + 1), c);
        let d: nat = if x == c {
            1nat
        } else {
            0nat
        };
        lemma_mul_is_distributive_add(p as int, q as int, d as int);
        assert(p * d == (if x == c {
            p
        } else {
            0nat
        })) by (nonlinear_arith)
            requires
                d == (if x == c {
                    1nat
                } else {
                    0nat
                }),
        ;
    }
}

/// Appending `x` adds the pairs whose second element is `x`.
proof fn lemma_second_push(s: Seq<bool>, x: bool, lo: int, a: bool, b: bool)
    requires
        0 <= lo <= s.len(),
    ensures
        second_sum(s.push(x), lo, a, b) == second_sum(s, lo, a, b) + (if x == b {
            occurrences(s, a)
        } else {
            0nat
        }),
    decreases s.len() - lo,
{
    let t = s.push(x);
    if lo == s.len() {
        assert(t.take(lo) =~= s);
        assert(second_sum(t, lo + 1, a, b) == 0);
    } else {
        lemma_second_push(s, x, lo + 1, a, b);
        assert(t.take(lo) =~= s.take(lo));
    }
}

/// Counting by the middle element gives the subsequence counts.
pub proof fn lemma_middle_sum_is_triple_count(s: Seq<bool>, a: bool, b: bool, c: bool)
    ensures
        second_sum(s, 0, a, b) == pair_count(s, a, b),
        middle_sum(s, 0, a, b, c) == triple_count(s, a, b, c),
    decreases s.len(),
{
    if s.len() > 0 {
        let t = s.drop_last();
        let x = s.last();
        lemma_middle_sum_is_triple_count(t, a, b, c);
        assert(t.push(x) =~= s);
        lemma_middle_push(t, x, 0, a, b, c);
        lemma_second_push(t, x, 0, a, b);
    }
}

/// A suffix of the middle sum never exceeds the whole sum.
proof fn lemma_middle_sum_suffix_le(s: Seq<bool>, lo: int, a: bool, b: bool, c: bool)
    requires
        0 <= lo,
    ensures
        middle_sum(s, lo, a, b, c) <= middle_sum(s, 0, a, b, c),
    decreases lo,
{
    if lo > 0 {
        lemma_middle_sum_suffix_le(s, lo - 1, a, b, c);
    }
}

/// Count `TU` (`110` and `011`) and `TDU` (`101`) subsequence triples in a
/// pattern in `O(n)` time using prefix counts.
///
/// For every position `j`:
///
/// - if `j` is a zero it can be the middle of a `101` triple, contributing
///   `ones_before[j] * ones_after[j]` to `TDU`,
/// - if `j` is a one it can be the middle of a `110` triple, contributing
///   `ones_before[j] * zeros_after[j]`, or of a `011` triple, contributing
///   `zeros_before[j] * ones_after[j]`, to `TU`.
pub fn count_tu_tdu(layer: &[bool]) -> (counts: (usize, usize))
    requires
        tu_count(layer@) <= usize::MAX,
        tdu_count(layer@) <= usize::MAX,
    ensures
        counts.0 == tu_count(layer@),
        counts.1 == tdu_count(layer@),
{
    let ghost s = layer@;
    let n = layer.len();
    let mut ones_before: Vec<usize> = Vec::new();
    let mut zeros_before: Vec<usize> = Vec::new();
    let mut ones: usize = 0;
    let mut zeros: usize = 0;
    let mut i: usize = 0;
    while i < n
        invariant
            s == layer@,
            n == s.len(),
            i <= n,
            ones_before.len() == i,
            zeros_before.len() == i,
            ones + zeros == i,
            ones == occurrences(s.take(i as int), true),
            zeros == occurrences(s.take(i as int), false),
            forall|j: int|
                0 <= j < i ==> ones_before[j] == occurrences(#[trigger] s.take(j), true)
                    && zeros_before[j] == occurrences(s.take(j), false),
        decreases n - i,
    {
        ones_before.push(ones);
        zeros_before.push(zeros);
        proof {
            assert(s.take(i + 1) =~= s.take(i as int).push(s[i as int]));
            lemma_occurrences_push(s.take(i as int), s[i as int], true);
            lemma_occurrences_push(s.take(i as int), s[i as int], false);
        }
        if layer[i] {
            ones += 1;
        } else {
            zeros += 1;
        }
        i += 1;
    }

    proof {
        lemma_middle_sum_is_triple_count(s, true, true, false);
        lemma_middle_sum_is_triple_count(s, false, true, true);
        lemma_middle_sum_is_triple_count(s, true, false, true);
        assert(s.skip(n as int) =~= Seq::<bool>::empty());
    }

    let mut ones_after: usize = 0;
    let mut zeros_after: usize = 0;
    let mut tu: usize = 0;
    let mut tdu: usize = 0;
    let mut i: usize = n;
    while i > 0
        invariant
            s == layer@,
            n == s.len(),
            i <= n,
            ones_before.len() == n,
            zeros_before.len() == n,
            forall|j: int|
                0 <= j < n ==> ones_before[j] == occurrences(#[trigger] s.take(j), true)
                    && zeros_before[j] == occurrences(s.take(j), false),
            ones_after + zeros_after == n - i,
            ones_after == occurrences(s.skip(i as int), true),
            zeros_after == occurrences(s.skip(i as int), false),
            tu == middle_sum(s, i as int, true, true, false) + middle_sum(
                s,
                i as int,
                false,
                true,
                true,
            ),
            tdu == middle_sum(s, i as int, true, false, true),
            middle_sum(s, 0, true, true, false) + middle_sum(s, 0, false, true, true)
                <= usize::MAX,
            middle_sum(s, 0, true, false, true) <= usize::MAX,
        decreases i,
    {
        i -= 1;
        proof {
            let k = i as int;
            assert(s.skip(k) =~= seq![s[k]] + s.skip(k + 1));
            lemma_occurrences_prepend(s[k], s.skip(k + 1), true);
            lemma_occurrences_prepend(s[k], s.skip(k + 1), false);
            lemma_middle_sum_suffix_le(s, k, true, true, false);
            lemma_middle_sum_suffix_le(s, k, false, true, true);
            lemma_middle_sum_suffix_le(s, k, true, false, true);
            assert(ones_before[k] == occurrences(s.take(k), true));
            assert(zeros_before[k] == occurrences(s.take(k), false));
        }
        if layer[i] {
            tu += ones_before[i] * zeros_after + zeros_before[i] * ones_after;
            ones_after += 1;
        } else {
            tdu += ones_before[i] * ones_after;
            zeros_after += 1;
        }
    }

    (tu, tdu)
}

} // verus!
