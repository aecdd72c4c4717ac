//! The (Sarle/SAS) bimodality coefficient of a histogram.
//!
//! ```text
//!         skewness^2 + 1
//! BC = -------------------
//!          kurtosis
//! ```
//!
//! where `kurtosis` is the (non-excess) fourth standardized moment and the bin
//! index is the value on the ordered scale. This module validates the
//! histogram, decides whether its variance is zero, gathers the exact integer
//! sums that the moments are computed from, and states the coefficient exactly
//! as a fraction of the central power sums, with Pearson's bound
//! `coefficient <= 1`.
use crate::histogram::{
    bin_sum, bin_total, is_valid_histogram, lemma_bin_sum_prefix, lemma_bin_sum_push,
};
use crate::score::{cover, lemma_all_zero, lemma_single_bin_sum};
use crate::triples::{
    lemma_occurrences_push, lemma_occurrences_witness, lemma_some_witness, lemma_two_witnesses,
    occurrences,
};
use vstd::prelude::*;

verus! {

/// `sum(i . h[i])`: the bin counts weighted by their index.
pub open spec fn index_moment(h: Seq<u32>) -> nat
    decreases h.len(),
{
    if h.len() == 0 {
        0
    } else {
        index_moment(h.drop_last()) + (h.len() - 1) as nat * h.last() as nat
    }
}

/// `sum(h[i] . (n . i - s)^2)`: with `n` the total and `s` the index moment,
/// this is `n^3` times the variance of the histogram.
pub open spec fn central_sum(h: Seq<u32>, n: int, s: int) -> int
    decreases h.len(),
{
    if h.len() == 0 {
        0
    } else {
        let i = h.len() - 1;
        central_sum(h.drop_last(), n, s) + h.last() * ((n * i - s) * (n * i - s))
    }
}

/// The number of non-empty bins.
pub open spec fn nonzero_bins(h: Seq<u32>) -> nat {
    occurrences(cover(h), true)
}

/// How the mass of a valid histogram is spread over its bins.
#[derive(Debug, Clone, Copy, PartialEq, Eq, Structural)]
pub enum Dispersion {
    /// All the mass sits on a single bin: the variance is zero and the
    /// histogram is perfectly unimodal (`BC = 0`).
    SingleBin,
    /// The mass is spread over several bins; `total` is the total count and
    /// `index_sum` is `sum(i . h[i])`, so that the mean is
    /// `index_sum / total`.
    Spread { total: u64, index_sum: u128 },
}

proof fn lemma_index_moment_bound(h: Seq<u32>)
    ensures
        index_moment(h) <= h.len() * bin_sum(h),
    decreases h.len(),
{
    if h.len() > 0 {
        let t = h.drop_last();
        lemma_index_moment_bound(t);
        let k = t.len();
        let x = h.last() as nat;
        assert(bin_sum(h) == bin_sum(t) + x);
        assert(index_moment(h) <= (k + 1) * bin_sum(h)) by (nonlinear_arith)
            requires
                index_moment(h) == index_moment(t) + k * x,
                index_moment(t) <= k * bin_sum(t),
                bin_sum(h) == bin_sum(t) + x,
        ;
    }
}

pub proof fn lemma_index_moment_push(h: Seq<u32>, x: u32)
    ensures
        index_moment(h.push(x)) == index_moment(h) + h.len() * x,
{
    assert(h.push(x).drop_last() =~= h);
}

/// `sum(i . h[i])` of a histogram.
fn index_sum(histogram: &[u32]) -> (sum: u128)
    requires
        bin_sum(histogram@) <= u64::MAX,
    ensures
        sum == index_moment(histogram@),
{
    let mut sum: u128 = 0;
    let mut i: usize = 0;
    while i < histogram.len()
        invariant
            i <= histogram.len(),
            bin_sum(histogram@) <= u64::MAX,
            sum == index_moment(histogram@.take(i as int)),
        decreases histogram.len() - i,
    {
        let ghost t = histogram@.take(i as int);
        proof {
            assert(histogram@.take(i + 1) =~= t.push(histogram@[i as int]));
            lemma_index_moment_push(t, histogram@[i as int]);
            lemma_bin_sum_push(t, histogram@[i as int]);
            lemma_index_moment_bound(histogram@.take(i + 1));
            lemma_bin_sum_prefix(histogram@, i + 1);
            let b = bin_sum(histogram@.take(i + 1));
            assert((i + 1) * b <= 0xffff_ffff_ffff_ffff * 0xffff_ffff_ffff_ffffnat)
                by (nonlinear_arith)
                requires
                    i + 1 <= 0xffff_ffff_ffff_ffff,
                    b <= 0xffff_ffff_ffff_ffff,
            ;
            assert(i * histogram@[i as int] <= 0xffff_ffff_ffff_ffff * 0xffff_ffffnat)
                by (nonlinear_arith)
                requires
                    i <= 0xffff_ffff_ffff_ffff,
                    histogram@[i as int] <= 0xffff_ffff,
            ;
        }
        sum = sum + (i as u128) * (histogram[i] as u128);
        i += 1;
    }
    proof {
        assert(histogram@.take(histogram.len() as int) =~= histogram@);
    }
    sum
}

/// The number of non-empty bins of a histogram.
fn count_nonzero(histogram: &[u32]) -> (count: usize)
    ensures
        count == nonzero_bins(histogram@),
{
    let ghost c = cover(histogram@);
    let mut count: usize = 0;
    let mut i: usize = 0;
    while i < histogram.len()
        invariant
            i <= histogram.len(),
            c == cover(histogram@),
            count == occurrences(c.take(i as int), true),
            count <= i,
        decreases histogram.len() - i,
    {
        proof {
            assert(c.take(i + 1) =~= c.take(i as int).push(c[i as int]));
            lemma_occurrences_push(c.take(i as int), c[i as int], true);
        }
        if histogram[i] != 0 {
            count += 1;
        }
        i += 1;
    }
    proof {
        assert(c.take(histogram.len() as int) =~= c);
    }
    count
}

/// Return how the mass of the histogram is spread, from which the (Sarle/SAS)
/// bimodality coefficient follows: `0` for a histogram whose mass sits on a
/// single bin (zero variance, see [`lemma_zero_variance_iff_single_bin`]),
/// otherwise the coefficient of the moments taken about the mean
/// `index_sum / total`, whose exact value is [`coefficient_ratio`] and lies in
/// `(0, 1]` (Pearson's inequality). Values above `5/9 ≈ 0.555` suggest a bimodal
/// distribution; values below suggest a unimodal one.
///
/// Returns `None` when the input is not a valid histogram: it must have at
/// least three bins and a positive total count.
pub fn bimodality_coefficient(histogram: &[u32]) -> (res: Option<Dispersion>)
    requires
        histogram.len() >= 3 ==> bin_sum(histogram@) <= u64::MAX,
    ensures
        res is None <==> !is_valid_histogram(histogram@),
        res matches Some(d) ==> (d is SingleBin <==> nonzero_bins(histogram@) == 1),
        res matches Some(Dispersion::Spread { total, index_sum }) ==> {
            &&& total == bin_sum(histogram@)
            &&& index_sum == index_moment(histogram@)
            &&& 0 < coefficient_ratio(histogram@).0 <= coefficient_ratio(histogram@).1
        },
{
    if histogram.len() < 3 {
        return None;
    }
    let total = bin_total(histogram);
    if total == 0 {
        return None;
    }
    if count_nonzero(histogram) == 1 {
        // All the mass sits on a single bin: perfectly unimodal.
        return Some(Dispersion::SingleBin);
    }
    let index_sum = index_sum(histogram);
    proof {
        lemma_coefficient_at_most_one(histogram@);
    }
    Some(Dispersion::Spread { total, index_sum })
}

proof fn lemma_central_sum_nonneg(h: Seq<u32>, n: int, s: int)
    ensures
        central_sum(h, n, s) >= 0,
        central_sum(h, n, s) == 0 ==> forall|i: int|
            0 <= i < h.len() ==> h[i] * ((n * i - s) * (n * i - s)) == 0,
    decreases h.len(),
{
    if h.len() > 0 {
        let t = h.drop_last();
        let k = h.len() - 1;
        lemma_central_sum_nonneg(t, n, s);
        let q = n * k - s;
        assert(h.last() * (q * q) >= 0) by (nonlinear_arith);
        assert forall|i: int| 0 <= i < h.len() && central_sum(h, n, s) == 0 implies h[i] * ((n
            * i - s) * (n * i - s)) == 0 by {
            if i < k {
                assert(t[i] == h[i]);
            }
        }
    }
}

proof fn lemma_central_sum_zero(h: Seq<u32>, n: int, s: int)
    requires
        forall|i: int| 0 <= i < h.len() ==> h[i] * ((n * i - s) * (n * i - s)) == 0,
    ensures
        central_sum(h, n, s) == 0,
    decreases h.len(),
{
    if h.len() > 0 {
        let t = h.drop_last();
        assert forall|i: int| 0 <= i < t.len() implies t[i] * ((n * i - s) * (n * i - s)) == 0 by {
            assert(t[i] == h[i]);
        }
        lemma_central_sum_zero(t, n, s);
        assert(h.last() == h[h.len() - 1]);
    }
}

proof fn lemma_single_bin_moment(h: Seq<u32>, j: int)
    requires
        0 <= j < h.len(),
        forall|i: int| 0 <= i < h.len() && i != j ==> h[i] == 0,
    ensures
        index_moment(h) == j * h[j],
    decreases h.len(),
{
    let t = h.drop_last();
    if j == h.len() - 1 {
        assert forall|i: int| 0 <= i < t.len() implies t[i] == 0 by {
            assert(t[i] == h[i]);
        }
        lemma_zero_moment(t);
    } else {
        assert forall|i: int| 0 <= i < t.len() && i != j implies t[i] == 0 by {
            assert(t[i] == h[i]);
        }
        lemma_single_bin_moment(t, j);
        assert(h.last() == h[h.len() - 1]);
        assert((h.len() - 1) as nat * 0nat == 0);
    }
}

proof fn lemma_zero_moment(h: Seq<u32>)
    requires
        forall|i: int| 0 <= i < h.len() ==> h[i] == 0,
    ensures
        index_moment(h) == 0,
    decreases h.len(),
{
    if h.len() > 0 {
        let t = h.drop_last();
        assert forall|i: int| 0 <= i < t.len() implies t[i] == 0 by {
            assert(t[i] == h[i]);
        }
        lemma_zero_moment(t);
        assert(h.last() == h[h.len() - 1]);
        assert((h.len() - 1) as nat * 0nat == 0);
    }
}

/// A histogram with a positive total has zero variance exactly when its mass
/// sits on a single bin.
pub proof fn lemma_zero_variance_iff_single_bin(h: Seq<u32>)
    requires
        bin_sum(h) > 0,
    ensures
        (central_sum(h, bin_sum(h) as int, index_moment(h) as int) == 0) <==> (nonzero_bins(h)
            == 1),
{
    let n = bin_sum(h) as int;
    let s = index_moment(h) as int;
    let c = cover(h);
    // some bin is non-empty
    if forall|i: int| 0 <= i < h.len() ==> h[i] == 0 {
        lemma_all_zero(h);
    }
    let j0 = choose|i: int| 0 <= i < h.len() && h[i] != 0;
    assert(c[j0]);
    lemma_occurrences_witness(c, j0);
    lemma_central_sum_nonneg(h, n, s);
    if nonzero_bins(h) == 1 {
        let j = lemma_some_witness(c, true);
        assert forall|i: int| 0 <= i < h.len() && i != j implies h[i] == 0 by {
            if h[i] != 0 {
                lemma_two_positions(c, i, j);
            }
        }
        lemma_single_bin_sum(h, j);
        lemma_single_bin_moment(h, j);
        assert forall|i: int| 0 <= i < h.len() implies h[i] * ((n * i - s) * (n * i - s))
            == 0 by {
            if i == j {
                assert(n * j - s == 0) by (nonlinear_arith)
                    requires
                        n == h[j] as int,
                        s == j * h[j],
                ;
                assert((n * i - s) * (n * i - s) == 0) by (nonlinear_arith)
                    requires
                        n * i - s == 0,
                ;
                assert(h[i] * 0int == 0);
            } else {
                assert(0int * ((n * i - s) * (n * i - s)) == 0);
            }
        }
        lemma_central_sum_zero(h, n, s);
    } else if central_sum(h, n, s) == 0 {
        assert(nonzero_bins(h) >= 2);
        let (i, j) = lemma_two_witnesses(c, true);
        assert(h[i] * ((n * i - s) * (n * i - s)) == 0);
        assert(h[j] * ((n * j - s) * (n * j - s)) == 0);
        assert(n * i - s == 0) by (nonlinear_arith)
            requires
                h[i] > 0,
                h[i] * ((n * i - s) * (n * i - s)) == 0,
        ;
        assert(n * j - s == 0) by (nonlinear_arith)
            requires
                h[j] > 0,
                h[j] * ((n * j - s) * (n * j - s)) == 0,
        ;
        assert(false) by (nonlinear_arith)
            requires
                n > 0,
                i < j,
                n * i - s == 0,
                n * j - s == 0,
        ;
    }
}

/// Two distinct `true` positions make at least two occurrences.
proof fn lemma_two_positions(s: Seq<bool>, i: int, j: int)
    requires
        0 <= i < s.len(),
        0 <= j < s.len(),
        i != j,
        s[i],
        s[j],
    ensures
        occurrences(s, true) >= 2,
    decreases s.len(),
{
    let t = s.drop_last();
    let k = s.len() - 1;
    if i == k {
        lemma_occurrences_witness(t, j);
    } else if j == k {
        lemma_occurrences_witness(t, i);
    } else {
        lemma_two_positions(t, i, j);
    }
}

/// `sum(h[i] . f(i))`.
pub open spec fn weighted_sum(h: Seq<u32>, f: spec_fn(int) -> int) -> int
    decreases h.len(),
{
    if h.len() == 0 {
        0
    } else {
        weighted_sum(h.drop_last(), f) + h.last() * f(h.len() - 1)
    }
}

/// `C_k = sum(h[i] . (n . i - s)^k)`: with `n` the total and `s` the index
/// moment, this is `n^(k+1)` times the `k`-th central moment.
pub open spec fn central_power_sum(h: Seq<u32>, k: nat) -> int {
    let n = bin_sum(h) as int;
    let s = index_moment(h) as int;
    weighted_sum(h, |i: int| power(n * i - s, k))
}

/// `y^k`.
pub open spec fn power(y: int, k: nat) -> int
    decreases k,
{
    if k == 0 {
        1
    } else {
        y * power(y, (k - 1) as nat)
    }
}

/// The exact bimodality coefficient `(skewness^2 + 1) / kurtosis` of a
/// histogram whose mass is spread over several bins, as a fraction
/// `(n . C3^2 + C2^3, n . C2 . C4)` of its central power sums.
pub open spec fn coefficient_ratio(h: Seq<u32>) -> (int, int) {
    let n = bin_sum(h) as int;
    let c2 = central_power_sum(h, 2);
    let c3 = central_power_sum(h, 3);
    let c4 = central_power_sum(h, 4);
    (n * (c3 * c3) + c2 * (c2 * c2), n * c2 * c4)
}

proof fn lemma_weighted_sum_nonneg(h: Seq<u32>, f: spec_fn(int) -> int)
    requires
        forall|i: int| 0 <= i < h.len() ==> #[trigger] f(i) >= 0,
    ensures
        weighted_sum(h, f) >= 0,
    decreases h.len(),
{
    if h.len() > 0 {
        lemma_weighted_sum_nonneg(h.drop_last(), f);
        let x = h.last() as int;
        let y = f(h.len() - 1);
        assert(x * y >= 0) by (nonlinear_arith)
            requires
                x >= 0,
                y >= 0,
        ;
    }
}

proof fn lemma_weighted_sum_congruent(h: Seq<u32>, f: spec_fn(int) -> int, g: spec_fn(int) -> int)
    requires
        forall|i: int| 0 <= i < h.len() ==> #[trigger] f(i) == g(i),
    ensures
        weighted_sum(h, f) == weighted_sum(h, g),
    decreases h.len(),
{
    if h.len() > 0 {
        lemma_weighted_sum_congruent(h.drop_last(), f, g);
        assert(f(h.len() - 1) == g(h.len() - 1));
    }
}

/// `sum(h[i] . (a . i + b)) = a . index_moment + b . total`.
proof fn lemma_weighted_sum_affine(h: Seq<u32>, a: int, b: int)
    ensures
        weighted_sum(h, |i: int| a * i + b) == a * index_moment(h) + b * bin_sum(h),
    decreases h.len(),
{
    if h.len() > 0 {
        let t = h.drop_last();
        lemma_weighted_sum_affine(t, a, b);
        let x = h.last() as int;
        let k = h.len() - 1;
        assert(index_moment(h) == index_moment(t) + k * x);
        assert(bin_sum(h) == bin_sum(t) + x);
        assert(x * (a * k + b) == a * (k * x) + b * x) by (nonlinear_arith);
        assert(a * (index_moment(t) + k * x) == a * index_moment(t) + a * (k * x))
            by (nonlinear_arith);
        assert(b * (bin_sum(t) + x) == b * bin_sum(t) + b * x) by (nonlinear_arith);
    } else {
        assert(index_moment(h) == 0 && bin_sum(h) == 0);
        assert(a * 0 + b * 0 == 0);
    }
}

/// The weighted sum is additive in the weights' function.
proof fn lemma_weighted_sum_add(h: Seq<u32>, f: spec_fn(int) -> int, g: spec_fn(int) -> int)
    ensures
        weighted_sum(h, |i: int| f(i) + g(i)) == weighted_sum(h, f) + weighted_sum(h, g),
    decreases h.len(),
{
    if h.len() > 0 {
        lemma_weighted_sum_add(h.drop_last(), f, g);
        let k = h.len() - 1;
        let x = h.last() as int;
        assert(x * (f(k) + g(k)) == x * f(k) + x * g(k)) by (nonlinear_arith);
    }
}

/// The weighted sum is homogeneous in the weights' function.
proof fn lemma_weighted_sum_scale(h: Seq<u32>, c: int, f: spec_fn(int) -> int)
    ensures
        weighted_sum(h, |i: int| c * f(i)) == c * weighted_sum(h, f),
    decreases h.len(),
{
    if h.len() > 0 {
        let t = h.drop_last();
        lemma_weighted_sum_scale(t, c, f);
        let k = h.len() - 1;
        let x = h.last() as int;
        assert(x * (c * f(k)) == c * (x * f(k))) by (nonlinear_arith);
        assert(c * (weighted_sum(t, f) + x * f(k)) == c * weighted_sum(t, f) + c * (x * f(k)))
            by (nonlinear_arith);
    }
}

proof fn lemma_power_small(y: int)
    ensures
        power(y, 0) == 1,
        power(y, 1) == y,
        power(y, 2) == y * y,
        power(y, 3) == y * (y * y),
        power(y, 4) == y * (y * (y * y)),
{
    reveal_with_fuel(power, 5);
}

proof fn lemma_central_sum_is_power_sum(h: Seq<u32>, n: int, s: int)
    ensures
        central_sum(h, n, s) == weighted_sum(h, |i: int| power(n * i - s, 2)),
    decreases h.len(),
{
    if h.len() > 0 {
        lemma_central_sum_is_power_sum(h.drop_last(), n, s);
        lemma_power_small(n * (h.len() - 1) - s);
    }
}

/// Pearson's inequality, `kurtosis >= skewness^2 + 1`: the bimodality
/// coefficient of a histogram whose mass is spread over several bins lies in
/// `(0, 1]`.
pub proof fn lemma_coefficient_at_most_one(h: Seq<u32>)
    requires
        bin_sum(h) > 0,
        nonzero_bins(h) != 1,
    ensures
        0 < coefficient_ratio(h).0 <= coefficient_ratio(h).1,
{
    let n = bin_sum(h) as int;
    let s = index_moment(h) as int;
    let c0 = central_power_sum(h, 0);
    let c1 = central_power_sum(h, 1);
    let c2 = central_power_sum(h, 2);
    let c3 = central_power_sum(h, 3);
    let c4 = central_power_sum(h, 4);
    // C0 = n and C1 = 0
    let f0 = |i: int| power(n * i - s, 0);
    let g0 = |i: int| 0 * i + 1;
    assert forall|i: int| 0 <= i < h.len() implies #[trigger] f0(i) == g0(i) by {
        lemma_power_small(n * i - s);
    }
    lemma_weighted_sum_congruent(h, f0, g0);
    lemma_weighted_sum_affine(h, 0, 1);
    assert(c0 == n);
    let f1 = |i: int| power(n * i - s, 1);
    let g1 = |i: int| n * i + -s;
    assert forall|i: int| 0 <= i < h.len() implies #[trigger] f1(i) == g1(i) by {
        lemma_power_small(n * i - s);
    }
    lemma_weighted_sum_congruent(h, f1, g1);
    lemma_weighted_sum_affine(h, n, -s);
    assert(c1 == n * s + (-s) * n);
    assert(c1 == 0) by (nonlinear_arith)
        requires
            c1 == n * s + (-s) * n,
    ;
    // C2 > 0
    lemma_central_sum_is_power_sum(h, n, s);
    lemma_central_sum_nonneg(h, n, s);
    lemma_zero_variance_iff_single_bin(h);
    assert(c2 > 0);
    // sum(h[i] . (A y^2 + B y + C)^2) >= 0 with A = n C2, B = -n C3, C = -C2^2
    let a = n * c2;
    let b = -(n * c3);
    let c = -(c2 * c2);
    let q4 = a * a;
    let q3 = 2 * a * b;
    let q2 = b * b + 2 * a * c;
    let q1 = 2 * b * c;
    let q0 = c * c;
    let p4 = |i: int| power(n * i - s, 4);
    let p3 = |i: int| power(n * i - s, 3);
    let p2 = |i: int| power(n * i - s, 2);
    let p1 = |i: int| power(n * i - s, 1);
    let p0 = |i: int| power(n * i - s, 0);
    let t4 = |i: int| q4 * p4(i);
    let t3 = |i: int| q3 * p3(i);
    let t2 = |i: int| q2 * p2(i);
    let t1 = |i: int| q1 * p1(i);
    let t0 = |i: int| q0 * p0(i);
    let r1 = |i: int| t1(i) + t0(i);
    let r2 = |i: int| t2(i) + r1(i);
    let r3 = |i: int| t3(i) + r2(i);
    let r4 = |i: int| t4(i) + r3(i);
    assert forall|i: int| 0 <= i < h.len() implies #[trigger] r4(i) >= 0 by {
        let y = n * i - s;
        lemma_power_small(y);
        let y2 = y * y;
        let aa = a * y2;
        let bb = b * y;
        let z = aa + bb + c;
        assert(z * z == aa * aa + bb * bb + c * c + 2 * (aa * bb) + 2 * (aa * c) + 2 * (bb * c))
            by (nonlinear_arith)
            requires
                z == aa + bb + c,
        ;
        assert(aa * aa == q4 * (y * (y * y2))) by (nonlinear_arith)
            requires
                aa == a * y2,
                q4 == a * a,
                y2 == y * y,
        ;
        assert(2 * (aa * bb) == q3 * (y * y2)) by (nonlinear_arith)
            requires
                aa == a * y2,
                bb == b * y,
                q3 == 2 * a * b,
        ;
        assert(bb * bb + 2 * (aa * c) == q2 * y2) by (nonlinear_arith)
            requires
                aa == a * y2,
                bb == b * y,
                q2 == b * b + 2 * a * c,
                y2 == y * y,
        ;
        assert(2 * (bb * c) == q1 * y) by (nonlinear_arith)
            requires
                bb == b * y,
                q1 == 2 * b * c,
        ;
        assert(q0 * 1 == c * c);
        assert(z * z >= 0) by (nonlinear_arith);
        assert(r4(i) == z * z);
    }
    lemma_weighted_sum_nonneg(h, r4);
    lemma_weighted_sum_add(h, t4, r3);
    lemma_weighted_sum_add(h, t3, r2);
    lemma_weighted_sum_add(h, t2, r1);
    lemma_weighted_sum_add(h, t1, t0);
    lemma_weighted_sum_scale(h, q4, p4);
    lemma_weighted_sum_scale(h, q3, p3);
    lemma_weighted_sum_scale(h, q2, p2);
    lemma_weighted_sum_scale(h, q1, p1);
    lemma_weighted_sum_scale(h, q0, p0);
    assert(weighted_sum(h, p4) == c4);
    assert(weighted_sum(h, p3) == c3);
    assert(weighted_sum(h, p2) == c2);
    assert(weighted_sum(h, p1) == c1);
    assert(weighted_sum(h, p0) == c0);
    let total = q4 * c4 + q3 * c3 + q2 * c2 + q1 * c1 + q0 * c0;
    assert(weighted_sum(h, r4) == total);
    assert(total >= 0);
    // total = n C2 (n C2 C4 - (n C3^2 + C2^3))
    let e = n * c2 * c4 - (n * (c3 * c3) + c2 * (c2 * c2));
    assert(q4 * c4 == a * (n * c2 * c4)) by (nonlinear_arith)
        requires
            q4 == a * a,
            a == n * c2,
    ;
    assert(q3 * c3 == -2 * (a * (n * (c3 * c3)))) by (nonlinear_arith)
        requires
            q3 == 2 * a * b,
            b == -(n * c3),
    ;
    assert(q2 * c2 == n * (n * (c3 * c3)) * c2 - 2 * (a * (c2 * (c2 * c2)))) by (nonlinear_arith)
        requires
            q2 == b * b + 2 * a * c,
            b == -(n * c3),
            c == -(c2 * c2),
    ;
    assert(n * (n * (c3 * c3)) * c2 == a * (n * (c3 * c3))) by (nonlinear_arith)
        requires
            a == n * c2,
    ;
    assert(q0 * c0 == a * (c2 * (c2 * c2))) by (nonlinear_arith)
        requires
            q0 == c * c,
            c == -(c2 * c2),
            c0 == n,
            a == n * c2,
    ;
    assert(q1 * c1 == 0) by (nonlinear_arith)
        requires
            c1 == 0,
    ;
    assert(total == a * e) by (nonlinear_arith)
        requires
            total == a * (n * c2 * c4) + -2 * (a * (n * (c3 * c3))) + (a * (n * (c3 * c3)) - 2 * (
            a * (c2 * (c2 * c2)))) + 0 + a * (c2 * (c2 * c2)),
            e == n * c2 * c4 - (n * (c3 * c3) + c2 * (c2 * c2)),
    ;
    assert(a > 0) by (nonlinear_arith)
        requires
            n > 0,
            c2 > 0,
            a == n * c2,
    ;
    assert(e >= 0) by (nonlinear_arith)
        requires
            a > 0,
            a * e >= 0,
    ;
    assert(n * (c3 * c3) >= 0) by (nonlinear_arith)
        requires
            n > 0,
    ;
    assert(c2 * (c2 * c2) > 0) by (nonlinear_arith)
        requires
            c2 > 0,
    ;

}

proof fn lemma_two_bin_weighted_sum(h: Seq<u32>, i: int, j: int, f: spec_fn(int) -> int)
    requires
        0 <= i < j < h.len(),
        forall|k: int| 0 <= k < h.len() && k != i && k != j ==> h[k] == 0,
    ensures
        weighted_sum(h, f) == h[i] * f(i) + h[j] * f(j),
    decreases h.len(),
{
    let t = h.drop_last();
    let last = h.len() - 1;
    if j == last {
        assert forall|k: int| 0 <= k < t.len() && k != i implies t[k] == 0 by {
            assert(t[k] == h[k]);
        }
        lemma_one_bin_weighted_sum(t, i, f);
    } else {
        assert forall|k: int| 0 <= k < t.len() && k != i && k != j implies t[k] == 0 by {
            assert(t[k] == h[k]);
        }
        lemma_two_bin_weighted_sum(t, i, j, f);
        assert(h[last] == 0);
        assert(h.last() * f(last) == 0) by (nonlinear_arith)
            requires
                h.last() == 0,
        ;
    }
}

proof fn lemma_one_bin_weighted_sum(h: Seq<u32>, i: int, f: spec_fn(int) -> int)
    requires
        0 <= i < h.len(),
        forall|k: int| 0 <= k < h.len() && k != i ==> h[k] == 0,
    ensures
        weighted_sum(h, f) == h[i] * f(i),
    decreases h.len(),
{
    let t = h.drop_last();
    let last = h.len() - 1;
    if i == last {
        assert forall|k: int| 0 <= k < t.len() implies t[k] == 0 by {
            assert(t[k] == h[k]);
        }
        lemma_zero_weighted_sum(t, f);
    } else {
        assert forall|k: int| 0 <= k < t.len() && k != i implies t[k] == 0 by {
            assert(t[k] == h[k]);
        }
        lemma_one_bin_weighted_sum(t, i, f);
        assert(h[last] == 0);
        assert(h.last() * f(last) == 0) by (nonlinear_arith)
            requires
                h.last() == 0,
        ;
    }
}

proof fn lemma_zero_weighted_sum(h: Seq<u32>, f: spec_fn(int) -> int)
    requires
        forall|k: int| 0 <= k < h.len() ==> h[k] == 0,
    ensures
        weighted_sum(h, f) == 0,
    decreases h.len(),
{
    if h.len() > 0 {
        let t = h.drop_last();
        assert forall|k: int| 0 <= k < t.len() implies t[k] == 0 by {
            assert(t[k] == h[k]);
        }
        lemma_zero_weighted_sum(t, f);
        assert(h[h.len() - 1] == 0);
        assert(h.last() * f(h.len() - 1) == 0) by (nonlinear_arith)
            requires
                h.last() == 0,
        ;
    }
}

/// A histogram with exactly two non-empty bins reaches Pearson's bound: its
/// bimodality coefficient is exactly 1.
pub proof fn lemma_two_bins_coefficient_one(h: Seq<u32>, i: int, j: int)
    requires
        0 <= i < j < h.len(),
        h[i] > 0,
        h[j] > 0,
        forall|k: int| 0 <= k < h.len() && k != i && k != j ==> h[k] == 0,
    ensures
        coefficient_ratio(h).1 > 0,
        coefficient_ratio(h).0 == coefficient_ratio(h).1,
{
    let u = h[i] as int;
    let v = h[j] as int;
    let d = j - i;
    // the total and the index moment
    lemma_weighted_sum_affine(h, 0, 1);
    lemma_two_bin_weighted_sum(h, i, j, |k: int| 0 * k + 1);
    lemma_weighted_sum_affine(h, 1, 0);
    lemma_two_bin_weighted_sum(h, i, j, |k: int| 1 * k + 0);
    let n = bin_sum(h) as int;
    let s = index_moment(h) as int;
    assert(n == u + v) by (nonlinear_arith)
        requires
            0 * s + 1 * n == u * (0 * i + 1) + v * (0 * j + 1),
    ;
    assert(s == u * i + v * j) by (nonlinear_arith)
        requires
            s == 1 * s + 0 * n,
            1 * s + 0 * n == u * (1 * i + 0) + v * (1 * j + 0),
    ;
    let y1 = n * i - s;
    let y2 = n * j - s;
    assert(y1 == -(v * d)) by (nonlinear_arith)
        requires
            n == u + v,
            s == u * i + v * j,
            y1 == n * i - s,
            d == j - i,
    ;
    assert(y2 == u * d) by (nonlinear_arith)
        requires
            n == u + v,
            s == u * i + v * j,
            y2 == n * j - s,
            d == j - i,
    ;
    lemma_power_small(y1);
    lemma_power_small(y2);
    lemma_two_bin_weighted_sum(h, i, j, |k: int| power(n * k - s, 2));
    lemma_two_bin_weighted_sum(h, i, j, |k: int| power(n * k - s, 3));
    lemma_two_bin_weighted_sum(h, i, j, |k: int| power(n * k - s, 4));
    let c2 = central_power_sum(h, 2);
    let c3 = central_power_sum(h, 3);
    let c4 = central_power_sum(h, 4);
    assert(c2 == u * (y1 * y1) + v * (y2 * y2));
    assert(c3 == u * (y1 * (y1 * y1)) + v * (y2 * (y2 * y2)));
    assert(c4 == u * (y1 * (y1 * (y1 * y1))) + v * (y2 * (y2 * (y2 * y2))));
    let p = u * v * (d * d);
    assert(p == u * v * (d * d));
    let q = u * u - u * v + v * v;
    let dd = d * d;
    let a1 = v * d;
    let a2 = u * d;
    let x3 = d * dd;
    let x4 = dd * dd;
    let m = u * v;
    assert(y1 * y1 == a1 * a1 && y1 * (y1 * y1) == -(a1 * (a1 * a1)) && y1 * (y1 * (y1 * y1))
        == a1 * (a1 * (a1 * a1))) by (nonlinear_arith)
        requires
            y1 == -a1,
    ;
    assert(a1 * a1 == v * v * dd && a1 * (a1 * a1) == v * v * v * x3 && a1 * (a1 * (a1 * a1))
        == v * v * v * v * x4) by (nonlinear_arith)
        requires
            a1 == v * d,
            dd == d * d,
            x3 == d * dd,
            x4 == dd * dd,
    ;
    assert(a2 * a2 == u * u * dd && a2 * (a2 * a2) == u * u * u * x3 && a2 * (a2 * (a2 * a2))
        == u * u * u * u * x4) by (nonlinear_arith)
        requires
            a2 == u * d,
            dd == d * d,
            x3 == d * dd,
            x4 == dd * dd,
    ;
    assert(u * (y1 * (y1 * y1)) == -(u * (v * v * v * x3))) by (nonlinear_arith)
        requires
            y1 * (y1 * y1) == -(v * v * v * x3),
    ;
    assert(c2 == u * (v * v * dd) + v * (u * u * dd));
    assert(c3 == -(u * (v * v * v * x3)) + v * (u * u * u * x3));
    assert(c4 == u * (v * v * v * v * x4) + v * (u * u * u * u * x4));
    assert(c2 == p * n) by (nonlinear_arith)
        requires
            c2 == u * (v * v * dd) + v * (u * u * dd),
            p == u * v * (d * d),
            dd == d * d,
            n == u + v,
    ;
    assert(u * (v * v * v * x3) == m * x3 * (v * v)) by (nonlinear_arith)
        requires
            m == u * v,
    ;
    assert(v * (u * u * u * x3) == m * x3 * (u * u)) by (nonlinear_arith)
        requires
            m == u * v,
    ;
    assert(u * (v * v * v * v * x4) == m * x4 * (v * v * v)) by (nonlinear_arith)
        requires
            m == u * v,
    ;
    assert(v * (u * u * u * u * x4) == m * x4 * (u * u * u)) by (nonlinear_arith)
        requires
            m == u * v,
    ;
    assert(m * x3 * (u * u) - m * x3 * (v * v) == m * x3 * ((u - v) * (u + v)))
        by (nonlinear_arith);
    assert(m * x3 == p * d) by (nonlinear_arith)
        requires
            m == u * v,
            x3 == d * dd,
            dd == d * d,
            p == u * v * (d * d),
    ;
    assert(c3 == p * d * (u - v) * n) by (nonlinear_arith)
        requires
            c3 == m * x3 * ((u - v) * (u + v)),
            m * x3 == p * d,
            n == u + v,
    ;
    assert(m * x4 * (v * v * v) + m * x4 * (u * u * u) == m * x4 * (n * q)) by (nonlinear_arith)
        requires
            n == u + v,
            q == u * u - u * v + v * v,
    ;
    assert(m * x4 == p * (d * d)) by (nonlinear_arith)
        requires
            m == u * v,
            x4 == dd * dd,
            dd == d * d,
            p == u * v * (d * d),
    ;
    assert(c4 == p * (d * d) * (n * q));
    let w = p * p * (d * d) * (n * (n * n));
    assert(n * c2 * c4 == w * q) by (nonlinear_arith)
        requires
            c2 == p * n,
            c4 == p * (d * d) * (n * q),
            w == p * p * (d * d) * (n * (n * n)),
    ;
    assert(n * (c3 * c3) == w * ((u - v) * (u - v))) by (nonlinear_arith)
        requires
            c3 == p * d * (u - v) * n,
            w == p * p * (d * d) * (n * (n * n)),
    ;
    assert(c2 * (c2 * c2) == w * (u * v)) by (nonlinear_arith)
        requires
            c2 == p * n,
            p == u * v * (d * d),
            w == p * p * (d * d) * (n * (n * n)),
    ;
    assert(w * ((u - v) * (u - v)) + w * (u * v) == w * q) by (nonlinear_arith)
        requires
            q == u * u - u * v + v * v,
    ;
    assert(p > 0) by (nonlinear_arith)
        requires
            u > 0,
            v > 0,
            d > 0,
            p == u * v * (d * d),
    ;
    assert(q > 0) by (nonlinear_arith)
        requires
            u > 0,
            v > 0,
            q == u * u - u * v + v * v,
    ;
    assert(n * c2 * c4 > 0) by (nonlinear_arith)
        requires
            n > 0,
            p > 0,
            q > 0,
            d > 0,
            c2 == p * n,
            c4 == p * (d * d) * (n * q),
    ;
}

} // verus!
