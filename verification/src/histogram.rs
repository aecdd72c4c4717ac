//! Histograms: sequences of bin counts, their total, their smallest bin and
//! their smallest non-zero bin.
use vstd::prelude::*;

verus! {

/// The sum of the bins.
pub open spec fn bin_sum(h: Seq<u32>) -> nat
    decreases h.len(),
{
    if h.len() == 0 {
        0
    } else {
        bin_sum(h.drop_last()) + h.last() as nat
    }
}

/// The smallest bin; `u32::MAX` for an empty histogram.
pub open spec fn min_bin(h: Seq<u32>) -> u32
    decreases h.len(),
{
    if h.len() == 0 {
        u32::MAX
    } else {
        let m = min_bin(h.drop_last());
        if h.last() < m {
            h.last()
        } else {
            m
        }
    }
}

/// `m` is the smallest non-zero entry of `v`: it is non-zero, it occurs in
/// `v`, and no non-zero entry is smaller.
pub open spec fn is_nonzero_min(v: Seq<u32>, m: u32) -> bool {
    &&& m != 0
    &&& exists|i: int| 0 <= i < v.len() && v[i] == m
    &&& forall|i: int| 0 <= i < v.len() && v[i] != 0 ==> m <= v[i]
}

/// The smallest non-zero entry of `v`, if `v` has a non-zero entry.
pub open spec fn nonzero_min(v: Seq<u32>) -> Option<u32> {
    if exists|i: int| 0 <= i < v.len() && v[i] != 0 {
        Some(choose|m: u32| is_nonzero_min(v, m))
    } else {
        None
    }
}

/// A histogram is accepted when it has at least three bins and a positive
/// total count.
pub open spec fn is_valid_histogram(h: Seq<u32>) -> bool {
    h.len() >= 3 && bin_sum(h) > 0
}

pub proof fn lemma_bin_sum_push(h: Seq<u32>, x: u32)
    ensures
        bin_sum(h.push(x)) == bin_sum(h) + x,
{
    assert(h.push(x).drop_last() =~= h);
}

/// A prefix sums to no more than the whole.
pub proof fn lemma_bin_sum_prefix(h: Seq<u32>, i: int)
    requires
        0 <= i <= h.len(),
    ensures
        bin_sum(h.take(i)) <= bin_sum(h),
    decreases h.len() - i,
{
    if i < h.len() {
        lemma_bin_sum_prefix(h, i + 1);
        assert(h.take(i + 1).drop_last() =~= h.take(i));
    } else {
        assert(h.take(i) =~= h);
    }
}

/// The smallest bin is a bin and no bin is below it.
pub proof fn lemma_min_bin(h: Seq<u32>)
    requires
        h.len() > 0,
    ensures
        exists|i: int| 0 <= i < h.len() && h[i] == min_bin(h),
        forall|i: int| 0 <= i < h.len() ==> min_bin(h) <= h[i],
    decreases h.len(),
{
    let t = h.drop_last();
    if t.len() > 0 {
        lemma_min_bin(t);
        assert forall|i: int| 0 <= i < h.len() implies min_bin(h) <= h[i] by {
            if i < t.len() {
                assert(t[i] == h[i]);
            }
        }
        if h.last() >= min_bin(t) {
            let j = choose|j: int| 0 <= j < t.len() && t[j] == min_bin(t);
            assert(h[j] == min_bin(h));
        } else {
            assert(h[h.len() - 1] == min_bin(h));
        }
    } else {
        assert(min_bin(t) == u32::MAX);
        assert(h[0] == min_bin(h));
    }
}

/// There is at most one smallest non-zero entry.
pub proof fn lemma_nonzero_min_unique(v: Seq<u32>, a: u32, b: u32)
    requires
        is_nonzero_min(v, a),
        is_nonzero_min(v, b),
    ensures
        a == b,
{
    let i = choose|i: int| 0 <= i < v.len() && v[i] == a;
    let j = choose|j: int| 0 <= j < v.len() && v[j] == b;
    assert(b <= v[i]);
    assert(a <= v[j]);
}

/// A sequence with a non-zero entry has a smallest one.
proof fn lemma_nonzero_min_exists(v: Seq<u32>) -> (m: u32)
    requires
        exists|i: int| 0 <= i < v.len() && v[i] != 0,
    ensures
        is_nonzero_min(v, m),
    decreases v.len(),
{
    let t = v.drop_last();
    let k = v.len() - 1;
    if exists|i: int| 0 <= i < t.len() && t[i] != 0 {
        let i0 = choose|i: int| 0 <= i < t.len() && t[i] != 0;
        assert(v[i0] != 0);
        let mt = lemma_nonzero_min_exists(t);
        if v[k] != 0 && v[k] < mt {
            assert forall|i: int| 0 <= i < v.len() && v[i] != 0 implies v[k] <= v[i] by {
                if i < k {
                    assert(t[i] == v[i]);
                }
            }
            v[k]
        } else {
            let j = choose|j: int| 0 <= j < t.len() && t[j] == mt;
            assert(v[j] == mt);
            assert forall|i: int| 0 <= i < v.len() && v[i] != 0 implies mt <= v[i] by {
                if i < k {
                    assert(t[i] == v[i]);
                }
            }
            mt
        }
    } else {
        let i0 = choose|i: int| 0 <= i < v.len() && v[i] != 0;
        assert(i0 == k) by {
            if i0 < k {
                assert(t[i0] == v[i0]);
            }
        }
        assert forall|i: int| 0 <= i < v.len() && v[i] != 0 implies v[k] <= v[i] by {
            if i < k {
                assert(t[i] == v[i]);
            }
        }
        v[k]
    }
}

/// What the smallest non-zero entry is.
pub proof fn lemma_nonzero_min(v: Seq<u32>)
    ensures
        nonzero_min(v) is None <==> forall|i: int| 0 <= i < v.len() ==> v[i] == 0,
        nonzero_min(v) matches Some(m) ==> is_nonzero_min(v, m),
{
    if exists|i: int| 0 <= i < v.len() && v[i] != 0 {
        lemma_nonzero_min_exists(v);
    }
}

/// The total count of a histogram.
pub fn bin_total(histogram: &[u32]) -> (total: u64)
    requires
        bin_sum(histogram@) <= u64::MAX,
    ensures
        total == bin_sum(histogram@),
{
    let mut total: u64 = 0;
    let mut i: usize = 0;
    while i < histogram.len()
        invariant
            i <= histogram.len(),
            bin_sum(histogram@) <= u64::MAX,
            total == bin_sum(histogram@.take(i as int)),
        decreases histogram.len() - i,
    {
        proof {
            assert(histogram@.take(i + 1) =~= histogram@.take(i as int).push(histogram@[i as int]));
            lemma_bin_sum_push(histogram@.take(i as int), histogram@[i as int]);
            lemma_bin_sum_prefix(histogram@, i + 1);
        }
        total = total + histogram[i] as u64;
        i += 1;
    }
    proof {
        assert(histogram@.take(histogram.len() as int) =~= histogram@);
    }
    total
}

/// The smallest bin of a non-empty histogram.
pub fn min_value(histogram: &[u32]) -> (m: u32)
    requires
        histogram.len() > 0,
    ensures
        m == min_bin(histogram@),
        exists|i: int| 0 <= i < histogram.len() && histogram[i] == m,
        forall|i: int| 0 <= i < histogram.len() ==> m <= histogram[i],
{
    let mut m: u32 = u32::MAX;
    let mut i: usize = 0;
    while i < histogram.len()
        invariant
            i <= histogram.len(),
            m == min_bin(histogram@.take(i as int)),
        decreases histogram.len() - i,
    {
        proof {
            assert(histogram@.take(i + 1).drop_last() =~= histogram@.take(i as int));
        }
        if histogram[i] < m {
            m = histogram[i];
        }
        i += 1;
    }
    proof {
        assert(histogram@.take(histogram.len() as int) =~= histogram@);
        lemma_min_bin(histogram@);
    }
    m
}

/// Find the non-zero minimum element. Returns `Some(min)` if there is at least
/// one non-zero value, `None` otherwise.
pub fn non_zero_min(elements: &[u32]) -> (res: Option<u32>)
    ensures
        res == nonzero_min(elements@),
        res is None <==> forall|i: int| 0 <= i < elements.len() ==> elements[i] == 0,
        res matches Some(m) ==> is_nonzero_min(elements@, m),
{
    let mut min: u32 = 0;
    let mut found = false;
    let mut i: usize = 0;
    while i < elements.len()
        invariant
            i <= elements.len(),
            found <==> exists|j: int| 0 <= j < i && elements[j] != 0,
            found ==> is_nonzero_min(elements@.take(i as int), min),
        decreases elements.len() - i,
    {
        let ghost t = elements@.take(i as int);
        let ghost u = elements@.take(i + 1);
        let e = elements[i];
        if e != 0 && (!found || e < min) {
            proof {
                assert(u[i as int] == e);
                assert forall|j: int| 0 <= j < u.len() && u[j] != 0 implies e <= u[j] by {
                    if j < i {
                        assert(u[j] == t[j]);
                    }
                }
            }
            min = e;
            found = true;
        } else if found {
            proof {
                let j0 = choose|j: int| 0 <= j < t.len() && t[j] == min;
                assert(u[j0] == min);
                assert forall|j: int| 0 <= j < u.len() && u[j] != 0 implies min <= u[j] by {
                    if j < i {
                        assert(u[j] == t[j]);
                    }
                }
            }
        }
        i += 1;
    }
    proof {
        assert(elements@.take(elements.len() as int) =~= elements@);
        lemma_nonzero_min(elements@);
        if found {
            lemma_nonzero_min_unique(elements@, min, nonzero_min(elements@)->0);
        }
    }
    if found {
        Some(min)
    } else {
        None
    }
}

} // verus!
