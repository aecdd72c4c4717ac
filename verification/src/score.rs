//! The van der Eijk A-score of a histogram.
//!
//! The histogram is first lowered so that its smallest bin is 0. It is then
//! cut into layers: each layer has the height of the smallest non-zero residual
//! count and covers every category whose residual is still non-zero. The
//! A-score is the sum over the layers of `weight . A`, where `A` is the layer's
//! agreement and `weight = height . occupied / total`.
use crate::agreement::{
    agreement_ratio, compute_a, counts_fit, lemma_agreement_bounded, lemma_agreement_reverse,
    lemma_agreement_value, layer_value, lemma_counts_fit_from_length, lemma_two_ends_disagree, spec_agreement, two_ends, Agreement,
};
use crate::histogram::{
    bin_sum, bin_total, is_nonzero_min, is_valid_histogram, lemma_min_bin, lemma_nonzero_min,
    lemma_nonzero_min_unique, min_bin, min_value, non_zero_min, nonzero_min,
};
use crate::triples::{
    lemma_counts_reverse, lemma_occurrences_bounded, lemma_occurrences_push,
    lemma_occurrences_witness, occurrences,
};
use vstd::arithmetic::mul::{lemma_mul_inequality, lemma_mul_is_distributive_add};
use vstd::prelude::*;

verus! {

/// Which categories a residual histogram still covers.
pub open spec fn cover(v: Seq<u32>) -> Seq<bool> {
    Seq::new(v.len(), |i: int| v[i] > 0)
}

/// The residual after taking a layer of height `m` off every non-empty
/// category.
pub open spec fn peel(v: Seq<u32>, m: u32) -> Seq<u32> {
    Seq::new(
        v.len(),
        |i: int|
            if v[i] > 0 {
                (v[i] - m) as u32
            } else {
                0u32
            },
    )
}

/// The histogram lowered by `c` in every bin.
pub open spec fn lowered(h: Seq<u32>, c: u32) -> Seq<u32> {
    Seq::new(h.len(), |i: int| (h[i] - c) as u32)
}

/// The histogram lowered so that its smallest bin is 0.
pub open spec fn shifted(h: Seq<u32>) -> Seq<u32> {
    lowered(h, min_bin(h))
}

proof fn lemma_peel_sum(v: Seq<u32>, m: u32)
    requires
        forall|i: int| 0 <= i < v.len() && v[i] > 0 ==> m <= v[i],
    ensures
        bin_sum(peel(v, m)) + m * occurrences(cover(v), true) == bin_sum(v),
    decreases v.len(),
{
    if v.len() > 0 {
        let t = v.drop_last();
        assert forall|i: int| 0 <= i < t.len() && t[i] > 0 implies m <= t[i] by {
            assert(t[i] == v[i]);
        }
        lemma_peel_sum(t, m);
        assert(peel(v, m).drop_last() =~= peel(t, m));
        assert(cover(v).drop_last() =~= cover(t));
        let o = occurrences(cover(t), true);
        assert(peel(v, m).last() == peel(v, m)[v.len() - 1]);
        assert(bin_sum(peel(v, m)) == bin_sum(peel(t, m)) + peel(v, m)[v.len() - 1]);
        if v.last() > 0 {
            assert(occurrences(cover(v), true) == o + 1);
            lemma_mul_is_distributive_add(m as int, o as int, 1);
        } else {
            assert(occurrences(cover(v), true) == o);
        }
    } else {
        assert(bin_sum(peel(v, m)) == 0);
        assert(occurrences(cover(v), true) == 0);
        assert(m * 0 == 0);
    }
}

/// Peeling a layer lowers the total count.
pub proof fn lemma_peel_decreases(v: Seq<u32>)
    requires
        nonzero_min(v) is Some,
    ensures
        bin_sum(peel(v, nonzero_min(v)->0)) < bin_sum(v),
        bin_sum(peel(v, nonzero_min(v)->0)) + nonzero_min(v)->0 * occurrences(cover(v), true)
            == bin_sum(v),
{
    let m = nonzero_min(v)->0;
    lemma_nonzero_min(v);
    let j = choose|j: int| 0 <= j < v.len() && v[j] == m;
    assert(cover(v)[j]);
    lemma_occurrences_witness(cover(v), j);
    lemma_peel_sum(v, m);
    assert(m * occurrences(cover(v), true) >= 1) by (nonlinear_arith)
        requires
            m >= 1,
            occurrences(cover(v), true) >= 1,
    ;
}

/// The layers of a residual histogram, from the bottom up: each is the
/// height of the smallest non-zero residual and the categories it covers.
/// The decomposition ends when every residual is 0.
pub open spec fn decompose(v: Seq<u32>) -> Seq<(u32, Seq<bool>)>
    decreases bin_sum(v),
{
    match nonzero_min(v) {
        None => Seq::empty(),
        Some(m) => {
            proof {
                lemma_peel_decreases(v);
            }
            seq![(m, cover(v))] + decompose(peel(v, m))
        },
    }
}

/// The layers of a histogram.
pub open spec fn histogram_layers(h: Seq<u32>) -> Seq<(u32, Seq<bool>)> {
    decompose(shifted(h))
}

/// Every layer of the histogram has triple counts that fit a machine word.
pub open spec fn layers_fit(h: Seq<u32>) -> bool {
    forall|l: int|
        0 <= l < histogram_layers(h).len() ==> counts_fit(#[trigger] histogram_layers(h)[l].1)
}

/// One layer of the decomposition of a histogram.
#[derive(Debug, Clone, Copy, PartialEq, Eq, Structural)]
pub struct Layer {
    /// The height of the layer: the smallest non-zero residual count.
    pub weight: u32,
    /// The number of categories that the layer covers.
    pub occupied: usize,
    /// The agreement of the layer's pattern.
    pub agreement: Agreement,
}

/// What the library reports of a layer given by its height and pattern.
pub open spec fn layer_of(l: (u32, Seq<bool>)) -> Layer {
    Layer {
        weight: l.0,
        occupied: occurrences(l.1, true) as usize,
        agreement: spec_agreement(l.1),
    }
}

/// The layers that the A-score of `h` is made of.
pub open spec fn score_layers(h: Seq<u32>) -> Seq<Layer> {
    histogram_layers(h).map_values(|l: (u32, Seq<bool>)| layer_of(l))
}

/// The A-score of a histogram, held exactly: the total count and the layers.
/// Its value is `sum(layer.weight * layer.occupied / total * A(layer))`.
#[derive(Debug)]
pub struct AScore {
    /// The total count of the histogram.
    pub total: u64,
    /// The layers, from the bottom up.
    pub layers: Vec<Layer>,
}

/// `sum(weight . occupied)` over the layers.
pub open spec fn layer_mass(ls: Seq<Layer>) -> int
    decreases ls.len(),
{
    if ls.len() == 0 {
        0
    } else {
        layer_mass(ls.drop_last()) + ls.last().weight * ls.last().occupied
    }
}

/// The exact value of `sum(weight . occupied / total . A)` as a fraction
/// `(numerator, denominator)`.
pub open spec fn score_ratio(total: int, ls: Seq<Layer>) -> (int, int)
    decreases ls.len(),
{
    if ls.len() == 0 {
        (0, 1)
    } else {
        let (n, d) = score_ratio(total, ls.drop_last());
        let l = ls.last();
        let (an, ad) = agreement_ratio(l.agreement);
        let tn = l.weight * l.occupied * an;
        let td = total * ad;
        (n * td + tn * d, d * td)
    }
}

impl AScore {
    /// The exact value of the score as a fraction `(numerator, denominator)`.
    pub open spec fn ratio(&self) -> (int, int) {
        score_ratio(self.total as int, self.layers@)
    }
}

/// Compute the A-score of a histogram: see [`AScore`] and [`score_ratio`] for
/// its value, ref
/// <https://www.researchgate.net/publication/225958476_Measuring_Agreement_in_Ordered_Rating_Scales>
///
/// The A-score lies in `[-1, 1]` (see [`lemma_score_bounded`]): `1` is perfect
/// unimodality, `0` is perfect uniformity and `-1` is perfect bimodality.
///
/// Returns `None` when the input is not a valid histogram: it must have at
/// least three bins and a positive total count.
///
/// # Limitations
///
/// 1. The first half of the histogram should not be way too heavy (>2x) or
///    way too light (<0.5x) of the second half of the histogram.
pub fn van_der_eijk(histogram: &[u32]) -> (score: Option<AScore>)
    requires
        histogram.len() >= 3 ==> bin_sum(histogram@) <= u64::MAX,
        is_valid_histogram(histogram@) ==> layers_fit(histogram@),
    ensures
        score is None <==> !is_valid_histogram(histogram@),
        score matches Some(a) ==> {
            &&& a.total == bin_sum(histogram@)
            &&& a.layers@ == score_layers(histogram@)
            &&& a.layers.len() == histogram_layers(histogram@).len()
            &&& forall|l: int|
                0 <= l < a.layers.len() ==> {
                    let (height, pattern) = #[trigger] histogram_layers(histogram@)[l];
                    &&& a.layers@[l].weight == height
                    &&& a.layers@[l].occupied == occurrences(pattern, true)
                    &&& agreement_ratio(a.layers@[l].agreement) == layer_value(pattern)
                }
        },
{
    if histogram.len() < 3 {
        return None;
    }
    let total = bin_total(histogram);
    if total == 0 {
        return None;
    }
    // Ensure that the minimum value is 0.
    let min_value = min_value(histogram);
    let mut layer: Vec<u32> = Vec::new();
    let mut i: usize = 0;
    while i < histogram.len()
        invariant
            i <= histogram.len(),
            min_value == min_bin(histogram@),
            forall|j: int| 0 <= j < histogram.len() ==> min_value <= histogram[j],
            layer@ =~= shifted(histogram@).take(i as int),
        decreases histogram.len() - i,
    {
        layer.push(histogram[i] - min_value);
        i += 1;
    }
    assert(layer@ =~= shifted(histogram@));

    let ghost all = histogram_layers(histogram@);
    let ghost done: Seq<(u32, Seq<bool>)> = Seq::empty();
    let mut layers: Vec<Layer> = Vec::new();
    loop
        invariant
            all == histogram_layers(histogram@),
            forall|l: int| 0 <= l < all.len() ==> counts_fit(#[trigger] all[l].1),
            layer.len() == histogram.len(),
            all == done + decompose(layer@),
            layers@ == done.map_values(|l: (u32, Seq<bool>)| layer_of(l)),
        ensures
            layers@ == all.map_values(|l: (u32, Seq<bool>)| layer_of(l)),
        decreases bin_sum(layer@),
    {
        let next = non_zero_min(&layer);
        match next {
            None => {
                proof {
                    assert(decompose(layer@) =~= Seq::<(u32, Seq<bool>)>::empty());
                    assert(all =~= done);
                }
                break ;
            },
            Some(n_min) => {
                let ghost v = layer@;
                let mut layer_bin: Vec<bool> = Vec::new();
                let mut occupied: usize = 0;
                let mut j: usize = 0;
                while j < layer.len()
                    invariant
                        j <= layer.len(),
                        layer.len() == v.len(),
                        nonzero_min(v) == Some(n_min),
                        forall|k: int| 0 <= k < v.len() && v[k] != 0 ==> n_min <= v[k],
                        forall|k: int| 0 <= k < j ==> layer[k] == peel(v, n_min)[k],
                        forall|k: int| j <= k < v.len() ==> layer[k] == v[k],
                        layer_bin@ =~= cover(v).take(j as int),
                        occupied == occurrences(cover(v).take(j as int), true),
                        occupied <= j,
                    decreases layer.len() - j,
                {
                    proof {
                        assert(cover(v).take(j + 1) =~= cover(v).take(j as int).push(
                            cover(v)[j as int],
                        ));
                        lemma_occurrences_push(cover(v).take(j as int), cover(v)[j as int], true);
                    }
                    if layer[j] > 0 {
                        layer_bin.push(true);
                        occupied += 1;
                        let e = layer[j] - n_min;
                        layer.set(j, e);
                    } else {
                        layer_bin.push(false);
                    }
                    j += 1;
                }
                proof {
                    assert(layer@ =~= peel(v, n_min));
                    assert(layer_bin@ =~= cover(v));
                    assert(cover(v).take(v.len() as int) =~= cover(v));
                    lemma_peel_decreases(v);
                    assert(decompose(v) =~= seq![(n_min, cover(v))] + decompose(peel(v, n_min)));
                    assert(all =~= done.push((n_min, cover(v))) + decompose(peel(v, n_min)));
                    assert(all[done.len() as int] == (n_min, cover(v)));
                    assert(counts_fit(all[done.len() as int].1));
                }
                let a = compute_a(&layer_bin);
                layers.push(Layer { weight: n_min, occupied, agreement: a });
                proof {
                    done = done.push((n_min, cover(v)));
                    assert(layers@ =~= done.map_values(|l: (u32, Seq<bool>)| layer_of(l)));
                }
            },
        }
    }
    proof {
        lemma_score_layer_values(histogram@);
    }
    Some(AScore { total, layers })
}

/// Every layer of `v` has a pattern as long as `v`.
pub proof fn lemma_decompose_lengths(v: Seq<u32>)
    ensures
        forall|l: int|
            0 <= l < decompose(v).len() ==> (#[trigger] decompose(v)[l]).1.len() == v.len(),
    decreases bin_sum(v),
{
    if nonzero_min(v) is Some {
        let m = nonzero_min(v)->0;
        lemma_peel_decreases(v);
        lemma_decompose_lengths(peel(v, m));
        let rest = decompose(peel(v, m));
        assert(decompose(v) =~= seq![(m, cover(v))] + rest);
        assert forall|l: int| 0 <= l < decompose(v).len() implies (#[trigger] decompose(
            v,
        )[l]).1.len() == v.len() by {
            if l > 0 {
                assert(decompose(v)[l] == rest[l - 1]);
            }
        }
    }
}

/// The total height of the first `l` layers of `ls`.
pub open spec fn level(ls: Seq<(u32, Seq<bool>)>, l: int) -> int
    decreases l,
{
    if l <= 0 || ls.len() == 0 {
        0
    } else {
        ls[0].0 + level(ls.skip(1), l - 1)
    }
}

proof fn lemma_level_nonneg(ls: Seq<(u32, Seq<bool>)>, l: int)
    ensures
        level(ls, l) >= 0,
        l >= 1 && ls.len() > 0 ==> level(ls, l) >= ls[0].0,
    decreases l,
{
    if l > 0 && ls.len() > 0 {
        lemma_level_nonneg(ls.skip(1), l - 1);
    }
}

/// The layers of `v` are its levels: every layer has a positive height; layer
/// `l` covers exactly the categories whose count exceeds the total height of
/// the layers below it; the top of every layer is the count of some category;
/// and the layers reach up to every count.
proof fn lemma_decompose_levels(v: Seq<u32>)
    ensures
        forall|l: int| 0 <= l < decompose(v).len() ==> (#[trigger] decompose(v)[l]).0 > 0,
        forall|l: int, i: int|
            #![trigger decompose(v)[l].1[i]]
            0 <= l < decompose(v).len() && 0 <= i < v.len() ==> (decompose(v)[l].1[i] <==> v[i]
                > level(decompose(v), l)),
        forall|l: int|
            0 <= l < decompose(v).len() ==> exists|i: int|
                0 <= i < v.len() && v[i] == #[trigger] level(decompose(v), l + 1),
        forall|i: int| 0 <= i < v.len() ==> v[i] <= level(decompose(v), decompose(v).len() as int),
    decreases bin_sum(v),
{
    lemma_nonzero_min(v);
    lemma_decompose_lengths(v);
    let ls = decompose(v);
    if nonzero_min(v) is None {
        assert(ls =~= Seq::<(u32, Seq<bool>)>::empty());
        assert forall|i: int| 0 <= i < v.len() implies v[i] <= level(ls, ls.len() as int) by {
        }
    } else {
        let m = nonzero_min(v)->0;
        lemma_peel_decreases(v);
        let p = peel(v, m);
        lemma_decompose_levels(p);
        lemma_decompose_lengths(p);
        let r = decompose(p);
        assert(ls =~= seq![(m, cover(v))] + r);
        assert(ls.skip(1) =~= r);
        assert(ls[0] == (m, cover(v)));
        assert forall|l: int| 1 <= l <= ls.len() implies #[trigger] level(ls, l) == m + level(
            r,
            l - 1,
        ) by {
        }
        assert forall|l: int| 1 <= l < ls.len() implies #[trigger] ls[l] == r[l - 1] by {}
        // heights
        assert forall|l: int| 0 <= l < ls.len() implies (#[trigger] ls[l]).0 > 0 by {
            if l >= 1 {
                assert(ls[l] == r[l - 1]);
            }
        }
        // patterns
        assert forall|l: int, i: int|
            #![trigger ls[l].1[i]]
            0 <= l < ls.len() && 0 <= i < v.len() implies (ls[l].1[i] <==> v[i] > level(ls, l)) by {
            if l == 0 {
                assert(level(ls, 0) == 0);
            } else {
                assert(ls[l] == r[l - 1]);
                assert(level(ls, l) == m + level(r, l - 1));
                assert(r[l - 1].1[i] <==> p[i] > level(r, l - 1));
                lemma_level_nonneg(r, l - 1);
            }
        }
        // tops
        assert forall|l: int| 0 <= l < ls.len() implies exists|i: int|
            0 <= i < v.len() && v[i] == #[trigger] level(ls, l + 1) by {
            assert(level(ls, l + 1) == m + level(r, l));
            if l == 0 {
                let j = choose|j: int| 0 <= j < v.len() && v[j] == m;
                assert(level(r, 0) == 0);
                assert(v[j] == level(ls, l + 1));
            } else {
                let i = choose|i: int| 0 <= i < p.len() && p[i] == #[trigger] level(r, (l - 1) + 1);
                lemma_level_nonneg(r, l);
                assert(r[0].0 > 0);
                assert(p[i] > 0);
                assert(v[i] > 0);
                assert(v[i] == level(ls, l + 1));
            }
        }
        // reach
        assert forall|i: int| 0 <= i < v.len() implies v[i] <= level(ls, ls.len() as int) by {
            assert(level(ls, ls.len() as int) == m + level(r, r.len() as int));
            assert(p[i] <= level(r, r.len() as int));
            lemma_level_nonneg(r, r.len() as int);
        }
    }
}

/// The layers of a histogram are its levels above its smallest bin: every
/// layer has a positive height; layer `l` covers exactly the categories whose
/// count exceeds the smallest count by more than the total height of the
/// layers below it; the top of every layer is reached by some category; and
/// the layers reach up to every count.
pub proof fn lemma_layers_are_levels(h: Seq<u32>)
    ensures
        forall|l: int|
            0 <= l < histogram_layers(h).len() ==> (#[trigger] histogram_layers(h)[l]).0 > 0,
        forall|l: int, i: int|
            #![trigger histogram_layers(h)[l].1[i]]
            0 <= l < histogram_layers(h).len() && 0 <= i < h.len() ==> (histogram_layers(h)[l].1[i]
                <==> h[i] - min_bin(h) > level(histogram_layers(h), l)),
        forall|l: int|
            0 <= l < histogram_layers(h).len() ==> exists|i: int|
                0 <= i < h.len() && h[i] - min_bin(h) == #[trigger] level(
                    histogram_layers(h),
                    l + 1,
                ),
        forall|i: int|
            0 <= i < h.len() ==> h[i] - min_bin(h) <= level(
                histogram_layers(h),
                histogram_layers(h).len() as int,
            ),
{
    let v = shifted(h);
    lemma_decompose_levels(v);
    if h.len() > 0 {
        lemma_min_bin(h);
    }
    assert forall|i: int| 0 <= i < h.len() implies v[i] == h[i] - min_bin(h) by {
        lemma_min_bin(h);
    }
    let ls = histogram_layers(h);
    assert forall|l: int| 0 <= l < ls.len() implies exists|i: int|
        0 <= i < h.len() && h[i] - min_bin(h) == #[trigger] level(ls, l + 1) by {
        let i = choose|i: int| 0 <= i < v.len() && v[i] == #[trigger] level(ls, l + 1);
        assert(v[i] == h[i] - min_bin(h));
    }
    assert forall|i: int| 0 <= i < h.len() implies h[i] - min_bin(h) <= level(
        ls,
        ls.len() as int,
    ) by {
        assert(v[i] == h[i] - min_bin(h));
        assert(v[i] <= level(ls, ls.len() as int));
    }
}

/// Each layer of the A-score carries the height of its pattern, the number of
/// categories the pattern covers, and the agreement value of the pattern
/// (see [`layer_value`]).
pub proof fn lemma_score_layer_values(h: Seq<u32>)
    requires
        h.len() <= usize::MAX,
        layers_fit(h),
    ensures
        score_layers(h).len() == histogram_layers(h).len(),
        forall|l: int|
            0 <= l < score_layers(h).len() ==> {
                let (height, pattern) = #[trigger] histogram_layers(h)[l];
                &&& pattern.len() == h.len()
                &&& score_layers(h)[l].weight == height
                &&& score_layers(h)[l].occupied == occurrences(pattern, true)
                &&& agreement_ratio(score_layers(h)[l].agreement) == layer_value(pattern)
            },
{
    lemma_decompose_lengths(shifted(h));
    let a = histogram_layers(h);
    assert forall|l: int| 0 <= l < score_layers(h).len() implies {
        let (height, pattern) = #[trigger] histogram_layers(h)[l];
        &&& pattern.len() == h.len()
        &&& score_layers(h)[l].weight == height
        &&& score_layers(h)[l].occupied == occurrences(pattern, true)
        &&& agreement_ratio(score_layers(h)[l].agreement) == layer_value(pattern)
    } by {
        assert(counts_fit(a[l].1));
        assert(a[l].1.len() == h.len());
        lemma_occurrences_bounded(a[l].1, true);
        lemma_agreement_value(a[l].1);
    }
}

/// A histogram whose length `n` has `n^3 <= 6 . usize::MAX` has layers whose
/// counts fit: `van_der_eijk` can be called on it.
pub proof fn lemma_layers_fit_from_length(h: Seq<u32>)
    requires
        h.len() * h.len() * h.len() <= 6 * usize::MAX,
    ensures
        layers_fit(h),
{
    lemma_decompose_lengths(shifted(h));
    assert forall|l: int|
        0 <= l < histogram_layers(h).len() implies counts_fit(
        #[trigger] histogram_layers(h)[l].1,
    ) by {
        assert(histogram_layers(h)[l].1.len() == h.len());
        lemma_counts_fit_from_length(histogram_layers(h)[l].1);
    }
}

proof fn lemma_mass_prepend(x: Layer, r: Seq<Layer>)
    ensures
        layer_mass(seq![x] + r) == x.weight * x.occupied + layer_mass(r),
    decreases r.len(),
{
    if r.len() > 0 {
        assert((seq![x] + r).drop_last() =~= seq![x] + r.drop_last());
        assert((seq![x] + r).last() == r.last());
        lemma_mass_prepend(x, r.drop_last());
    } else {
        assert((seq![x] + r).drop_last() =~= Seq::<Layer>::empty());
        assert((seq![x] + r).last() == x);
        assert(layer_mass(Seq::<Layer>::empty()) == 0);
        assert(layer_mass(r) == 0);
    }
}

/// The layers of `v` carry no more mass than `v` holds.
proof fn lemma_decompose_mass(v: Seq<u32>)
    requires
        v.len() <= usize::MAX,
    ensures
        layer_mass(decompose(v).map_values(|l: (u32, Seq<bool>)| layer_of(l))) <= bin_sum(v),
    decreases bin_sum(v),
{
    let f = |l: (u32, Seq<bool>)| layer_of(l);
    if nonzero_min(v) is None {
        assert(decompose(v).map_values(f) =~= Seq::<Layer>::empty());
    } else {
        let m = nonzero_min(v)->0;
        lemma_peel_decreases(v);
        lemma_decompose_mass(peel(v, m));
        let rest = decompose(peel(v, m));
        assert(decompose(v).map_values(f) =~= seq![layer_of((m, cover(v)))] + rest.map_values(f));
        lemma_mass_prepend(layer_of((m, cover(v))), rest.map_values(f));
        lemma_occurrences_bounded(cover(v), true);
    }
}

proof fn lemma_lowered_sum(h: Seq<u32>, c: u32)
    requires
        forall|i: int| 0 <= i < h.len() ==> c <= h[i],
    ensures
        bin_sum(lowered(h, c)) <= bin_sum(h),
    decreases h.len(),
{
    if h.len() > 0 {
        let t = h.drop_last();
        assert forall|i: int| 0 <= i < t.len() implies c <= t[i] by {
            assert(t[i] == h[i]);
        }
        lemma_lowered_sum(t, c);
        assert(lowered(h, c).drop_last() =~= lowered(t, c));
        assert(lowered(h, c).last() == lowered(h, c)[h.len() - 1]);
    }
}

proof fn lemma_step_bound(n: int, d: int, big_m: int, w: int, an: int, ad: int, total: int)
    requires
        total > 0,
        d > 0,
        ad > 0,
        w >= 0,
        -ad <= an <= ad,
        -(big_m * d) <= n * total <= big_m * d,
    ensures
        d * (total * ad) > 0,
        (n * (total * ad) + w * an * d) * total <= (big_m + w) * (d * (total * ad)),
        -((big_m + w) * (d * (total * ad))) <= (n * (total * ad) + w * an * d) * total,
{
    let td = total * ad;
    assert(td > 0) by (nonlinear_arith)
        requires
            total > 0,
            ad > 0,
            td == total * ad,
    ;
    assert(d * td > 0) by (nonlinear_arith)
        requires
            td > 0,
            d > 0,
    ;
    let x = n * total;
    // the part carried over from the earlier layers
    assert((n * td) * total == x * td) by (nonlinear_arith)
        requires
            x == n * total,
    ;
    assert(x * td <= (big_m * d) * td) by (nonlinear_arith)
        requires
            x <= big_m * d,
            td > 0,
    ;
    assert(-((big_m * d) * td) <= x * td) by (nonlinear_arith)
        requires
            -(big_m * d) <= x,
            td > 0,
    ;
    // the part of the new layer
    let y = w * d * total;
    assert(y >= 0) by (nonlinear_arith)
        requires
            w >= 0,
            d > 0,
            total > 0,
            y == w * d * total,
    ;
    assert((w * an * d) * total == y * an) by (nonlinear_arith)
        requires
            y == w * d * total,
    ;
    assert(y * an <= y * ad) by (nonlinear_arith)
        requires
            y >= 0,
            an <= ad,
    ;
    assert(-(y * ad) <= y * an) by (nonlinear_arith)
        requires
            y >= 0,
            -ad <= an,
    ;
    assert(y * ad == w * (d * td)) by (nonlinear_arith)
        requires
            y == w * d * total,
            td == total * ad,
    ;
    assert((big_m * d) * td == big_m * (d * td)) by (nonlinear_arith);
    assert((big_m + w) * (d * td) == big_m * (d * td) + w * (d * td)) by (nonlinear_arith);
    assert((n * td + w * an * d) * total == (n * td) * total + (w * an * d) * total)
        by (nonlinear_arith);
}

/// Each layer contributes at most its share `weight . occupied / total` of
/// the score in absolute value.
proof fn lemma_ratio_bound(total: int, ls: Seq<Layer>)
    requires
        total > 0,
        forall|l: int|
            0 <= l < ls.len() ==> {
                let (an, ad) = agreement_ratio(#[trigger] ls[l].agreement);
                ad > 0 && -ad <= an <= ad
            },
    ensures
        score_ratio(total, ls).1 > 0,
        -(layer_mass(ls) * score_ratio(total, ls).1) <= score_ratio(total, ls).0 * total
            <= layer_mass(ls) * score_ratio(total, ls).1,
    decreases ls.len(),
{
    if ls.len() > 0 {
        let t = ls.drop_last();
        assert forall|l: int|
            0 <= l < t.len() implies {
            let (an, ad) = agreement_ratio(#[trigger] t[l].agreement);
            ad > 0 && -ad <= an <= ad
        } by {
            assert(t[l] == ls[l]);
        }
        lemma_ratio_bound(total, t);
        let (n, d) = score_ratio(total, t);
        let l = ls.last();
        assert(l == ls[ls.len() - 1]);
        let (an, ad) = agreement_ratio(l.agreement);
        let w = l.weight * l.occupied;
        assert(w >= 0) by (nonlinear_arith)
            requires
                w == l.weight * l.occupied,
        ;
        lemma_step_bound(n, d, layer_mass(t), w, an, ad, total);
    } else {
        assert(score_ratio(total, ls) == (0int, 1int));
        assert(layer_mass(ls) == 0);
    }
}

/// The A-score lies in `[-1, 1]`: the fraction's denominator is positive and
/// its numerator is no larger than the denominator in absolute value.
pub proof fn lemma_score_bounded(h: Seq<u32>)
    requires
        is_valid_histogram(h),
        h.len() <= usize::MAX,
        layers_fit(h),
    ensures
        score_ratio(bin_sum(h) as int, score_layers(h)).1 > 0,
        -score_ratio(bin_sum(h) as int, score_layers(h)).1 <= score_ratio(
            bin_sum(h) as int,
            score_layers(h),
        ).0 <= score_ratio(bin_sum(h) as int, score_layers(h)).1,
{
    let total = bin_sum(h) as int;
    let all = histogram_layers(h);
    let ls = score_layers(h);
    lemma_decompose_lengths(shifted(h));
    assert forall|l: int|
        0 <= l < ls.len() implies {
        let (an, ad) = agreement_ratio(#[trigger] ls[l].agreement);
        ad > 0 && -ad <= an <= ad
    } by {
        assert(counts_fit(all[l].1));
        assert(all[l].1.len() == h.len());
        lemma_agreement_bounded(all[l].1);
    }
    lemma_ratio_bound(total, ls);
    lemma_decompose_mass(shifted(h));
    lemma_min_bin(h);
    lemma_lowered_sum(h, min_bin(h));
    let (n, d) = score_ratio(total, ls);
    let big_m = layer_mass(ls);
    assert(big_m * d <= total * d) by (nonlinear_arith)
        requires
            big_m <= total,
            d > 0,
    ;
    assert(-d <= n <= d) by (nonlinear_arith)
        requires
            total > 0,
            d > 0,
            -(big_m * d) <= n * total <= big_m * d,
            big_m * d <= total * d,
    ;
}

/// How much the layers `ls` cover category `i`.
pub open spec fn coverage(ls: Seq<(u32, Seq<bool>)>, i: int) -> int
    decreases ls.len(),
{
    if ls.len() == 0 {
        0
    } else {
        (if ls[0].1[i] {
            ls[0].0 as int
        } else {
            0
        }) + coverage(ls.skip(1), i)
    }
}

proof fn lemma_decompose_reconstructs(v: Seq<u32>, i: int)
    requires
        0 <= i < v.len(),
    ensures
        coverage(decompose(v), i) == v[i],
    decreases bin_sum(v),
{
    lemma_nonzero_min(v);
    if nonzero_min(v) is None {
        assert(decompose(v) =~= Seq::<(u32, Seq<bool>)>::empty());
    } else {
        let m = nonzero_min(v)->0;
        lemma_peel_decreases(v);
        let p = peel(v, m);
        lemma_decompose_reconstructs(p, i);
        let ls = decompose(v);
        assert(ls =~= seq![(m, cover(v))] + decompose(p));
        assert(ls.skip(1) =~= decompose(p));
        assert(ls[0] == (m, cover(v)));
    }
}

/// The layers add back up to the histogram lowered to a minimum of 0: for each
/// category, the heights of the layers that cover it sum to its count minus
/// the smallest count.
pub proof fn lemma_layers_reconstruct(h: Seq<u32>, i: int)
    requires
        0 <= i < h.len(),
    ensures
        coverage(histogram_layers(h), i) == h[i] - min_bin(h),
{
    lemma_min_bin(h);
    lemma_decompose_reconstructs(shifted(h), i);
}

/// The total weight of the layers, `sum(weight . occupied) / total`, is at
/// most 1.
pub proof fn lemma_layer_mass_bounded(h: Seq<u32>)
    requires
        h.len() <= usize::MAX,
    ensures
        layer_mass(score_layers(h)) <= bin_sum(h),
{
    lemma_decompose_mass(shifted(h));
    if h.len() > 0 {
        lemma_min_bin(h);
        lemma_lowered_sum(h, min_bin(h));
    } else {
        assert(shifted(h) =~= h);
    }
}

pub proof fn lemma_all_zero(v: Seq<u32>)
    requires
        forall|j: int| 0 <= j < v.len() ==> v[j] == 0,
    ensures
        bin_sum(v) == 0,
        nonzero_min(v) is None,
        decompose(v) =~= Seq::<(u32, Seq<bool>)>::empty(),
    decreases v.len(),
{
    lemma_nonzero_min(v);
    if v.len() > 0 {
        let t = v.drop_last();
        assert forall|j: int| 0 <= j < t.len() implies t[j] == 0 by {
            assert(t[j] == v[j]);
        }
        lemma_all_zero(t);
    }
}

/// A perfectly uniform histogram (every bin equal) has no layers: its
/// A-score is 0.
pub proof fn lemma_uniform_scores_zero(h: Seq<u32>)
    requires
        h.len() > 0,
        forall|i: int, j: int| 0 <= i < h.len() && 0 <= j < h.len() ==> h[i] == h[j],
    ensures
        histogram_layers(h).len() == 0,
        score_ratio(bin_sum(h) as int, score_layers(h)).0 == 0,
{
    lemma_min_bin(h);
    let k = choose|k: int| 0 <= k < h.len() && h[k] == min_bin(h);
    assert forall|j: int| 0 <= j < shifted(h).len() implies shifted(h)[j] == 0 by {
        assert(h[j] == h[k]);
    }
    lemma_all_zero(shifted(h));
    assert(score_layers(h) =~= Seq::<Layer>::empty());
}

pub proof fn lemma_single_bin_sum(h: Seq<u32>, j: int)
    requires
        0 <= j < h.len(),
        forall|i: int| 0 <= i < h.len() && i != j ==> h[i] == 0,
    ensures
        bin_sum(h) == h[j],
    decreases h.len(),
{
    let t = h.drop_last();
    if j == h.len() - 1 {
        assert forall|i: int| 0 <= i < t.len() implies t[i] == 0 by {
            assert(t[i] == h[i]);
        }
        lemma_all_zero(t);
    } else {
        assert forall|i: int| 0 <= i < t.len() && i != j implies t[i] == 0 by {
            assert(t[i] == h[i]);
        }
        lemma_single_bin_sum(t, j);
    }
}

/// A histogram with a single non-empty bin is perfectly unimodal: its
/// A-score is 1.
pub proof fn lemma_single_peak_scores_one(h: Seq<u32>, j: int)
    requires
        h.len() >= 3,
        0 <= j < h.len(),
        0 < h[j],
        forall|i: int| 0 <= i < h.len() && i != j ==> h[i] == 0,
    ensures
        score_ratio(bin_sum(h) as int, score_layers(h)).1 > 0,
        score_ratio(bin_sum(h) as int, score_layers(h)).0 == score_ratio(
            bin_sum(h) as int,
            score_layers(h),
        ).1,
{
    lemma_single_bin_sum(h, j);
    lemma_min_bin(h);
    let other: int = if j == 0 {
        1
    } else {
        0
    };
    assert(min_bin(h) <= h[other]);
    assert(shifted(h) =~= h);
    lemma_nonzero_min(h);
    let m = nonzero_min(h)->0;
    assert(m == h[j]) by {
        let k = choose|k: int| 0 <= k < h.len() && h[k] == m;
        assert(k == j);
    }
    lemma_peel_decreases(h);
    let p = peel(h, m);
    assert forall|i: int| 0 <= i < p.len() implies p[i] == 0 by {
        if i == j {
            assert(p[i] == h[j] - m);
        }
    }
    lemma_all_zero(p);
    let o = occurrences(cover(h), true);
    assert(o == 1) by (nonlinear_arith)
        requires
            m * o == m,
            m > 0,
    ;
    assert(histogram_layers(h) =~= seq![(m, cover(h))]);
    let ls = score_layers(h);
    assert(ls =~= seq![layer_of((m, cover(h)))]);
    assert(ls.drop_last() =~= Seq::<Layer>::empty());
    assert(spec_agreement(cover(h)) == Agreement::Unanimous);
    assert(ls.last() == layer_of((m, cover(h))));
    assert(ls.last().occupied == 1);
    assert(ls.last().weight == m);
    assert(agreement_ratio(ls.last().agreement) == (1int, 1int));
    let total = bin_sum(h) as int;
    assert(score_ratio(total, ls.drop_last()) == (0int, 1int));
    assert(total == m);
    let tn = ls.last().weight * ls.last().occupied * 1int;
    assert(tn == m);
    assert(score_ratio(total, ls) == (0 * (total * 1) + tn * 1, 1 * (total * 1)));
    assert(score_ratio(total, ls) == (m as int, m as int));
}

/// A histogram with two equal peaks at its ends and nothing between them is
/// perfectly bimodal: its A-score is -1.
pub proof fn lemma_two_end_peaks_score_minus_one(h: Seq<u32>)
    requires
        3 <= h.len() <= usize::MAX,
        0 < h[0],
        h[h.len() - 1] == h[0],
        forall|i: int| 0 < i < h.len() - 1 ==> h[i] == 0,
    ensures
        score_ratio(bin_sum(h) as int, score_layers(h)).1 > 0,
        score_ratio(bin_sum(h) as int, score_layers(h)).0 == -score_ratio(
            bin_sum(h) as int,
            score_layers(h),
        ).1,
{
    let k = h.len();
    let x = h[0];
    lemma_min_bin(h);
    assert(min_bin(h) <= h[1]);
    assert(shifted(h) =~= h);
    lemma_nonzero_min(h);
    let m = nonzero_min(h)->0;
    assert(m == x) by {
        let j = choose|j: int| 0 <= j < h.len() && h[j] == m;
        assert(j == 0 || j == k - 1);
    }
    assert(cover(h) =~= two_ends(k));
    lemma_two_ends_disagree(k);
    lemma_peel_decreases(h);
    let p = peel(h, m);
    assert forall|i: int| 0 <= i < p.len() implies p[i] == 0 by {
        if i == 0 || i == k - 1 {
            assert(p[i] == h[i] - m);
        }
    }
    lemma_all_zero(p);
    let total = bin_sum(h) as int;
    assert(total == x * 2);
    assert(histogram_layers(h) =~= seq![(m, cover(h))]);
    let ls = score_layers(h);
    assert(ls =~= seq![layer_of((m, cover(h)))]);
    assert(ls.drop_last() =~= Seq::<Layer>::empty());
    assert(ls.last() == layer_of((m, cover(h))));
    assert(ls.last().occupied == 2);
    assert(ls.last().weight == x);
    let (an, ad) = agreement_ratio(ls.last().agreement);
    assert(an == -ad && ad > 0);
    assert(score_ratio(total, ls.drop_last()) == (0int, 1int));
    let tn = ls.last().weight * ls.last().occupied * an;
    let td = total * ad;
    assert(score_ratio(total, ls) == (0 * td + tn * 1, 1 * td));
    assert(tn == -td && td > 0) by (nonlinear_arith)
        requires
            tn == x * 2 * an,
            td == total * ad,
            total == x * 2,
            an == -ad,
            ad > 0,
            x > 0,
    ;
}

proof fn lemma_bin_sum_prepend(x: u32, t: Seq<u32>)
    ensures
        bin_sum(seq![x] + t) == x + bin_sum(t),
    decreases t.len(),
{
    let u = seq![x] + t;
    if t.len() == 0 {
        assert(u.drop_last() =~= Seq::<u32>::empty());
        assert(bin_sum(Seq::<u32>::empty()) == 0);
    } else {
        lemma_bin_sum_prepend(x, t.drop_last());
        assert(u.drop_last() =~= seq![x] + t.drop_last());
        assert(u.last() == t.last());
    }
}

proof fn lemma_bin_sum_reverse(h: Seq<u32>)
    ensures
        bin_sum(h.reverse()) == bin_sum(h),
    decreases h.len(),
{
    if h.len() > 0 {
        let t = h.drop_last();
        lemma_bin_sum_reverse(t);
        assert(h.reverse() =~= seq![h.last()] + t.reverse());
        lemma_bin_sum_prepend(h.last(), t.reverse());
    } else {
        assert(h.reverse() =~= h);
    }
}

proof fn lemma_min_bin_reverse(h: Seq<u32>)
    ensures
        min_bin(h.reverse()) == min_bin(h),
{
    let r = h.reverse();
    if h.len() == 0 {
        assert(r =~= h);
    } else {
        lemma_min_bin(h);
        lemma_min_bin(r);
        let i = choose|i: int| 0 <= i < h.len() && h[i] == min_bin(h);
        let j = choose|j: int| 0 <= j < r.len() && r[j] == min_bin(r);
        assert(r[h.len() - 1 - i] == h[i]);
        assert(h[h.len() - 1 - j] == r[j]);
    }
}

proof fn lemma_nonzero_min_reverse(v: Seq<u32>)
    ensures
        nonzero_min(v.reverse()) == nonzero_min(v),
{
    let r = v.reverse();
    let n = v.len();
    lemma_nonzero_min(v);
    lemma_nonzero_min(r);
    if nonzero_min(v) is Some {
        let m = nonzero_min(v)->0;
        let i = choose|i: int| 0 <= i < n && v[i] == m;
        assert(r[n - 1 - i] == v[i]);
        assert forall|j: int| 0 <= j < n && r[j] != 0 implies m <= r[j] by {
            assert(r[j] == v[n - 1 - j]);
        }
        assert(is_nonzero_min(r, m));
        lemma_nonzero_min_unique(r, m, nonzero_min(r)->0);
    } else {
        assert forall|j: int| 0 <= j < n implies r[j] == 0 by {
            assert(r[j] == v[n - 1 - j]);
        }
    }
}

/// The layers of a mirrored residual are the mirrored layers.
proof fn lemma_decompose_reverse(v: Seq<u32>)
    ensures
        decompose(v.reverse()) =~= decompose(v).map_values(
            |l: (u32, Seq<bool>)| (l.0, l.1.reverse()),
        ),
    decreases bin_sum(v),
{
    let r = v.reverse();
    let f = |l: (u32, Seq<bool>)| (l.0, l.1.reverse());
    lemma_nonzero_min_reverse(v);
    if nonzero_min(v) is Some {
        let m = nonzero_min(v)->0;
        lemma_peel_decreases(v);
        lemma_decompose_reverse(peel(v, m));
        assert(peel(r, m) =~= peel(v, m).reverse());
        assert(cover(r) =~= cover(v).reverse());
        assert(decompose(r) =~= seq![(m, cover(r))] + decompose(peel(r, m)));
        assert(decompose(v) =~= seq![(m, cover(v))] + decompose(peel(v, m)));
        assert(decompose(v).map_values(f) =~= seq![f((m, cover(v)))] + decompose(
            peel(v, m),
        ).map_values(f));
    } else {
        assert(decompose(v) =~= Seq::<(u32, Seq<bool>)>::empty());
        assert(decompose(r) =~= Seq::<(u32, Seq<bool>)>::empty());
    }
}

/// Mirroring a histogram changes nothing of its A-score: the mirrored
/// histogram has the same total, is valid exactly when the original is, and
/// has the same layers (each layer's pattern is mirrored, which keeps its
/// agreement). So `van_der_eijk` returns the same value on both.
pub proof fn lemma_mirror_keeps_score(h: Seq<u32>)
    ensures
        bin_sum(h.reverse()) == bin_sum(h),
        is_valid_histogram(h.reverse()) == is_valid_histogram(h),
        layers_fit(h.reverse()) == layers_fit(h),
        score_layers(h.reverse()) == score_layers(h),
{
    let r = h.reverse();
    let f = |l: (u32, Seq<bool>)| (l.0, l.1.reverse());
    lemma_bin_sum_reverse(h);
    lemma_min_bin_reverse(h);
    assert(shifted(r) =~= shifted(h).reverse());
    lemma_decompose_reverse(shifted(h));
    let a = histogram_layers(h);
    let b = histogram_layers(r);
    assert(b =~= a.map_values(f));
    assert forall|l: int| 0 <= l < a.len() implies layer_of(#[trigger] b[l]) == layer_of(a[l]) && (
    counts_fit(b[l].1) == counts_fit(a[l].1)) by {
        assert(b[l] == (a[l].0, a[l].1.reverse()));
        lemma_agreement_reverse(a[l].1);
        lemma_counts_reverse(a[l].1);
    }
    assert(score_layers(r) =~= score_layers(h)) by {
        assert forall|l: int| 0 <= l < a.len() implies score_layers(r)[l] == score_layers(h)[l] by {
            assert(layer_of(b[l]) == layer_of(a[l]));
        }
    }
    assert(layers_fit(r) == layers_fit(h)) by {
        if layers_fit(h) {
            assert forall|l: int| 0 <= l < b.len() implies counts_fit(#[trigger] b[l].1) by {
                assert(counts_fit(a[l].1));
                assert(layer_of(b[l]) == layer_of(a[l]));
            }
        }
        if layers_fit(r) {
            assert forall|l: int| 0 <= l < a.len() implies counts_fit(#[trigger] a[l].1) by {
                assert(counts_fit(b[l].1));
                assert(layer_of(b[l]) == layer_of(a[l]));
            }
        }
    }
}

/// The histogram with every bin multiplied by `c`.
pub open spec fn scaled(h: Seq<u32>, c: u32) -> Seq<u32> {
    Seq::new(h.len(), |i: int| (h[i] * c) as u32)
}

/// Every bin times `c` fits a `u32`.
pub open spec fn scalable(h: Seq<u32>, c: u32) -> bool {
    forall|i: int| 0 <= i < h.len() ==> h[i] * c <= u32::MAX
}

proof fn lemma_mul_le(a: int, b: int, c: int)
    requires
        a <= b,
        c >= 0,
    ensures
        a * c <= b * c,
{
    lemma_mul_inequality(a, b, c);
}

proof fn lemma_bin_sum_scaled(h: Seq<u32>, c: u32)
    requires
        scalable(h, c),
    ensures
        bin_sum(scaled(h, c)) == bin_sum(h) * c,
    decreases h.len(),
{
    if h.len() > 0 {
        let t = h.drop_last();
        assert forall|i: int| 0 <= i < t.len() implies t[i] * c <= u32::MAX by {
            assert(t[i] == h[i]);
        }
        assert(scaled(h, c).drop_last() =~= scaled(t, c));
        assert(scaled(h, c).last() == h.last() * c);
        lemma_bin_sum_scaled(t, c);
        assert(bin_sum(h) * c == bin_sum(t) * c + h.last() * c) by (nonlinear_arith)
            requires
                bin_sum(h) == bin_sum(t) + h.last(),
        ;
    } else {
        assert(bin_sum(scaled(h, c)) == 0);
        assert(bin_sum(h) == 0);
        assert(0 * c == 0);
    }
}

proof fn lemma_min_bin_scaled(h: Seq<u32>, c: u32)
    requires
        h.len() > 0,
        c >= 1,
        scalable(h, c),
    ensures
        min_bin(scaled(h, c)) == min_bin(h) * c,
{
    let g = scaled(h, c);
    lemma_min_bin(h);
    lemma_min_bin(g);
    let i = choose|i: int| 0 <= i < h.len() && h[i] == min_bin(h);
    let j = choose|j: int| 0 <= j < g.len() && g[j] == min_bin(g);
    assert(min_bin(g) <= g[i]);
    lemma_mul_le(min_bin(h) as int, h[j] as int, c as int);
}

proof fn lemma_nonzero_min_scaled(v: Seq<u32>, c: u32)
    requires
        c >= 1,
        scalable(v, c),
    ensures
        nonzero_min(scaled(v, c)) == (match nonzero_min(v) {
            Some(m) => Some((m * c) as u32),
            None => None,
        }),
{
    let g = scaled(v, c);
    lemma_nonzero_min(v);
    lemma_nonzero_min(g);
    assert forall|i: int| 0 <= i < v.len() implies (g[i] == 0 <==> v[i] == 0) by {
        if v[i] != 0 {
            lemma_mul_le(1, v[i] as int, c as int);
        }
    }
    if nonzero_min(v) is Some {
        let m = nonzero_min(v)->0;
        let i = choose|i: int| 0 <= i < v.len() && v[i] == m;
        assert(g[i] == m * c);
        assert forall|j: int| 0 <= j < g.len() && g[j] != 0 implies m * c <= g[j] by {
            lemma_mul_le(m as int, v[j] as int, c as int);
        }
        assert(g[i] != 0);
        assert(is_nonzero_min(g, g[i]));
        lemma_nonzero_min_unique(g, g[i], nonzero_min(g)->0);
    }
}

/// Scaling every bin by `c` scales the height of every layer by `c` and keeps
/// the patterns.
proof fn lemma_decompose_scaled(v: Seq<u32>, c: u32)
    requires
        c >= 1,
        scalable(v, c),
    ensures
        decompose(scaled(v, c)) =~= decompose(v).map_values(
            |l: (u32, Seq<bool>)| ((l.0 * c) as u32, l.1),
        ),
    decreases bin_sum(v),
{
    let g = scaled(v, c);
    let f = |l: (u32, Seq<bool>)| ((l.0 * c) as u32, l.1);
    lemma_nonzero_min_scaled(v, c);
    lemma_nonzero_min(v);
    if nonzero_min(v) is Some {
        let m = nonzero_min(v)->0;
        let mc = (m * c) as u32;
        lemma_peel_decreases(v);
        let p = peel(v, m);
        assert forall|i: int| 0 <= i < p.len() implies p[i] * c <= u32::MAX by {
            if v[i] > 0 {
                lemma_mul_le(p[i] as int, v[i] as int, c as int);
            } else {
                assert(p[i] == 0);
            }
        }
        lemma_decompose_scaled(p, c);
        assert forall|i: int| 0 <= i < v.len() implies (g[i] > 0 <==> v[i] > 0) by {
            if v[i] != 0 {
                lemma_mul_le(1, v[i] as int, c as int);
            }
        }
        assert(cover(g) =~= cover(v));
        assert forall|i: int| 0 <= i < v.len() implies peel(g, mc)[i] == scaled(p, c)[i] by {
            if v[i] > 0 {
                assert(m <= v[i]);
                assert((v[i] - m) * c == v[i] * c - m * c) by (nonlinear_arith);
            }
        }
        assert(peel(g, mc) =~= scaled(p, c));
        assert(decompose(g) =~= seq![(mc, cover(g))] + decompose(peel(g, mc)));
        assert(decompose(v) =~= seq![(m, cover(v))] + decompose(p));
        assert(decompose(v).map_values(f) =~= seq![f((m, cover(v)))] + decompose(
            p,
        ).map_values(f));
    } else {
        assert(decompose(v) =~= Seq::<(u32, Seq<bool>)>::empty());
        assert(decompose(g) =~= Seq::<(u32, Seq<bool>)>::empty());
    }
}

/// Scaling a histogram by `c >= 1` scales its total and the height of every
/// layer by `c` and changes nothing else: every weight
/// `height . occupied / total` and every agreement stays the same, so the
/// A-score is unchanged.
pub proof fn lemma_scaling_keeps_score(h: Seq<u32>, c: u32)
    requires
        c >= 1,
        scalable(h, c),
    ensures
        bin_sum(scaled(h, c)) == bin_sum(h) * c,
        score_layers(scaled(h, c)) == score_layers(h).map_values(
            |l: Layer| Layer { weight: (l.weight * c) as u32, ..l },
        ),
{
    let g = scaled(h, c);
    lemma_bin_sum_scaled(h, c);
    if h.len() > 0 {
        lemma_min_bin_scaled(h, c);
        lemma_min_bin(h);
        let m = min_bin(h);
        assert forall|i: int| 0 <= i < h.len() implies shifted(g)[i] == scaled(shifted(h), c)[i] by {
            assert(m <= h[i]);
            assert((h[i] - m) * c == h[i] * c - m * c) by (nonlinear_arith);
            lemma_mul_le((h[i] - m) as int, h[i] as int, c as int);
        }
        assert(shifted(g) =~= scaled(shifted(h), c));
        assert forall|i: int| 0 <= i < shifted(h).len() implies shifted(h)[i] * c <= u32::MAX by {
            lemma_mul_le(shifted(h)[i] as int, h[i] as int, c as int);
        }
        lemma_decompose_scaled(shifted(h), c);
    } else {
        assert(shifted(g) =~= Seq::<u32>::empty());
        assert(shifted(h) =~= Seq::<u32>::empty());
        assert(decompose(Seq::<u32>::empty()) =~= Seq::<(u32, Seq<bool>)>::empty()) by {
            lemma_nonzero_min(Seq::<u32>::empty());
        }
    }
    let a = histogram_layers(h);
    let b = histogram_layers(g);
    assert(score_layers(g) =~= score_layers(h).map_values(
        |l: Layer| Layer { weight: (l.weight * c) as u32, ..l },
    )) by {
        assert forall|l: int| 0 <= l < a.len() implies score_layers(g)[l] == Layer {
            weight: (score_layers(h)[l].weight * c) as u32,
            ..score_layers(h)[l]
        } by {
            assert(b[l] == ((a[l].0 * c) as u32, a[l].1));
        }
    }
}

} // verus!
