use is_bimodal::agreement::{compute_a, Agreement};
use is_bimodal::dispersion::{bimodality_coefficient, Dispersion};
use is_bimodal::score::{van_der_eijk, AScore, Layer};
use is_bimodal::triples::count_tu_tdu;

/// The agreement of a layer as a float, by the formula of the original paper.
fn agreement_value(a: Agreement) -> f64 {
    match a {
        Agreement::Uniform | Agreement::Empty => 0.0,
        Agreement::Unanimous => 1.0,
        Agreement::Pattern {
            categories,
            occupied,
            tu,
            tdu,
        } => {
            let k = categories as f64;
            let (tu, tdu) = (tu as f64, tdu as f64);
            let num = (k - 2.0) * tu - (k - 1.0) * tdu;
            let den = (k - 2.0) * (tu + tdu);
            if den == 0.0 {
                return 0.0;
            }
            let u = num / den;
            u * (1.0 - (occupied as f64 - 1.0) / (k - 1.0))
        }
    }
}

fn score_value(score: &AScore) -> f64 {
    let total = score.total as f64;
    let mut a_score = 0.0;
    for layer in &score.layers {
        let mut weight = 0.0;
        for _ in 0..layer.occupied {
            weight += (layer.weight as f64) / total;
        }
        a_score += weight * agreement_value(layer.agreement);
    }
    a_score
}

fn a_score(histogram: &[u32]) -> Option<f64> {
    van_der_eijk(histogram).map(|s| score_value(&s))
}

fn is_histogram_bimodal(histogram: &[u32]) -> Option<bool> {
    a_score(histogram).map(|a| a <= 0.0)
}

fn coefficient(histogram: &[u32]) -> Option<f64> {
    match bimodality_coefficient(histogram)? {
        Dispersion::SingleBin => Some(0.0),
        Dispersion::Spread { total, index_sum } => {
            let n = total as f64;
            let mean = index_sum as f64 / n;
            let central = |power: i32| {
                histogram
                    .iter()
                    .enumerate()
                    .map(|(i, &f)| f as f64 * (i as f64 - mean).powi(power))
                    .sum::<f64>()
                    / n
            };
            let m2 = central(2);
            let m3 = central(3);
            let m4 = central(4);
            let skewness = m3 / m2.powf(1.5);
            let kurtosis = m4 / m2.powi(2);
            Some((skewness * skewness + 1.0) / kurtosis)
        }
    }
}

fn layer_of(layer: &str) -> Vec<bool> {
    layer.chars().map(|x| x == '1').collect::<Vec<_>>()
}

fn compute_a_str(layer: &str) -> f64 {
    agreement_value(compute_a(&layer_of(layer)))
}

/// Brute-force reference for `count_tu_tdu`.
fn count_triple(layer: &[bool], triple: [bool; 3]) -> usize {
    let mut count = 0usize;
    for i in 0..layer.len() {
        if layer[i] != triple[0] {
            continue;
        }
        for j in i + 1..layer.len() {
            if layer[j] != triple[1] {
                continue;
            }
            for &c in layer.iter().skip(j + 1) {
                if c == triple[2] {
                    count += 1;
                }
            }
        }
    }
    count
}

fn count_triple_str(layer: &str, pattern: [bool; 3]) -> usize {
    count_triple(&layer_of(layer), pattern)
}

fn count_tu_tdu_str(layer: &str) -> (f64, f64) {
    let (tu, tdu) = count_tu_tdu(&layer_of(layer));
    (tu as f64, tdu as f64)
}

#[test]
fn test_van_der_eijk() {
    // unimodal and detected as unimodal.
    assert!(a_score(&[30, 40, 210, 130, 530, 50, 10]).unwrap() > 0.0);
    assert!(a_score(&[30, 40, 210, 10, 530, 50, 10]).unwrap() > 0.0);
    assert!(a_score(&[30, 40, 10, 10, 30, 50, 100]).unwrap() > 0.0);
    assert!(a_score(&[3, 4, 1, 1, 3, 5, 10]).unwrap() > 0.0);
    assert!(a_score(&[3, 4, 1, 1, 3, 5, 1]).unwrap() > 0.0);
    // perfectly uniform -> A == 0.
    assert!((0.0 - a_score(&[1, 1, 1, 1, 1, 1, 1]).unwrap()).abs() <= 0.001);
    assert!(a_score(&[1, 1, 1, 1, 1, 1, 1000]).unwrap() > 0.0);

    // A single dominant peak at one end is unimodal, not bimodal.
    assert!(a_score(&[10000, 1, 1, 1, 1, 1, 10]).unwrap() > 0.0);

    // bimodal and detected as bimodal.
    assert!(a_score(&[10, 10, 0, 0, 0, 10, 10]).unwrap() < 0.0);
    assert!(a_score(&[10, 10, 0, 0, 0, 0, 10]).unwrap() < 0.0);
    assert!(a_score(&[1, 1, 1, 0, 0, 1, 1]).unwrap() < 0.0);
    assert!(a_score(&[1, 1, 1, 0, 1, 1, 1]).unwrap() < 0.0);

    // Test cases that bring the limitations of the algorithm.
    // This should be bi-modal. Algo fails because weights are not balanced here.
    // One side of the see-saw is 2x heavier.
    assert!(a_score(&[10, 11, 0, 0, 0, 0, 3, 3]).unwrap() > 0.0);
    assert!(a_score(&[10, 11, 0, 0, 0, 0, 30, 31]).unwrap() > 0.0);

    // fixed versions of above tests.
    assert!(a_score(&[10, 11, 0, 0, 0, 0, 10, 2]).unwrap() < 0.0);
    assert!(a_score(&[10, 11, 0, 0, 0, 0, 20, 11]).unwrap() < 0.0);
}

/// The worked example from van der Eijk (2001, p. 331). The R package
/// `agrmt` reports an A-score of 0.6113333 for it.
#[test]
fn test_reference_example() {
    assert!((0.6113333 - a_score(&[30, 40, 210, 130, 530, 50, 10]).unwrap()).abs() <= 1e-6);
}

/// A perfectly uniform histogram has A == 0.
#[test]
fn test_uniform_histogram_has_zero_score() {
    assert!((0.0 - a_score(&[5, 5, 5, 5, 5]).unwrap()).abs() <= 1e-9);
    assert!((0.0 - a_score(&[1, 1, 1]).unwrap()).abs() <= 1e-9);
}

/// A layer with a single non-empty category has perfect agreement (A == 1),
/// while a layer where every category is non-empty is uniform (A == 0).
#[test]
fn test_layer_edge_cases() {
    assert!((1.0 - compute_a_str("1000000")).abs() <= 1e-9);
    assert!((1.0 - compute_a_str("0001000")).abs() <= 1e-9);
    assert!((0.0 - compute_a_str("1111111")).abs() <= 1e-9);
}

/// Peaks in the middle of the histogram are detected.
#[test]
fn test_middle_peaks_are_bimodal() {
    assert!(is_histogram_bimodal(&[4, 1, 1, 4, 1]).unwrap());
    assert!(is_histogram_bimodal(&[1, 4, 1, 1, 4, 1]).unwrap());
    assert!(is_histogram_bimodal(&[4, 1, 2, 4, 1]).unwrap());
    assert!(is_histogram_bimodal(&[4, 4, 1, 1, 4]).unwrap());
    assert!(is_histogram_bimodal(&[1, 4, 2, 1, 1, 4, 1]).unwrap());
    assert!(is_histogram_bimodal(&[1, 4, 1, 1, 1, 4]).unwrap());
}

/// The A-score is always within [-1, 1].
#[test]
fn test_a_score_is_bounded() {
    let histograms: Vec<Vec<u32>> = vec![
        vec![1, 1, 1, 1, 1],
        vec![0, 0, 10, 0, 0],
        vec![10, 0, 0, 0, 10],
        vec![1, 2, 3, 4, 5, 6, 7],
        vec![7, 6, 5, 4, 3, 2, 1],
        vec![100, 1, 1, 1, 100],
    ];
    for h in histograms {
        let a = a_score(&h).unwrap();
        assert!(
            (-1.0..=1.0).contains(&a),
            "A-score {a} out of range for {h:?}"
        );
    }
}

/// Invalid input is rejected rather than panicking or returning NaN.
#[test]
fn test_invalid_input_returns_none() {
    assert!(van_der_eijk(&[]).is_none());
    assert!(van_der_eijk(&[1, 2]).is_none());
    assert!(van_der_eijk(&[0, 0, 0]).is_none());
    assert!(is_histogram_bimodal(&[]).is_none());
    assert!(bimodality_coefficient(&[1, 2]).is_none());
    assert!(bimodality_coefficient(&[0, 0, 0, 0]).is_none());
}

/// A uniform histogram has the theoretical bimodality coefficient 5/9.
#[test]
fn test_bimodality_coefficient_uniform() {
    // For a discrete uniform histogram the coefficient is close to, but not
    // exactly, 5/9; it converges to 5/9 as the number of bins grows.
    assert!((0.5882352941176471 - coefficient(&[1, 1, 1, 1, 1]).unwrap()).abs() <= 1e-12);
    assert!((5.0 / 9.0 - coefficient(&[1; 1000]).unwrap()).abs() <= 1e-4);
    // A single spike is perfectly unimodal.
    assert!((0.0 - coefficient(&[0, 0, 10, 0, 0]).unwrap()).abs() <= 1e-9);
}

/// A two-spike histogram has a bimodality coefficient above 5/9.
#[test]
fn test_bimodality_coefficient_two_spikes() {
    assert!(coefficient(&[10, 0, 0, 0, 10]).unwrap() > 5.0 / 9.0);
    assert!(coefficient(&[10, 0, 0, 0, 10]).unwrap() > 0.9);
}

#[test]
fn test_count_triples() {
    assert_eq!(count_triple_str("1001000", [true, false, true]), 2);
    assert_eq!(count_triple_str("1001000", [true, true, false]), 3);
    assert_eq!(count_triple_str("1001000", [false, true, true]), 0);
    // 011 patterns.
    assert_eq!(count_triple_str("0011000", [false, true, true]), 2);
    assert_eq!(count_triple_str("0110000", [false, true, true]), 1);
    // 101 patterns.
    assert_eq!(count_triple_str("1010100", [true, false, true]), 4);
}

/// The O(n) counter must agree with the brute-force triple counter on every
/// pattern up to length 10.
#[test]
fn test_count_tu_tdu_matches_brute_force() {
    for len in 3..=10 {
        for mask in 0u32..(1 << len) {
            let layer: Vec<bool> = (0..len).map(|i| (mask >> i) & 1 == 1).collect();
            let (tu, tdu) = count_tu_tdu(&layer);
            let expected_tu = (count_triple(&layer, [true, true, false])
                + count_triple(&layer, [false, true, true])) as f64;
            let expected_tdu = count_triple(&layer, [true, false, true]) as f64;
            assert_eq!(
                (tu as f64, tdu as f64),
                (expected_tu, expected_tdu),
                "layer={layer:?}"
            );
        }
    }
}

#[test]
fn test_count_tu_tdu_str() {
    // 110 = 3, 011 = 0, 101 = 2.
    assert_eq!(count_tu_tdu_str("1001000"), (3.0, 2.0));
    // 110 = 3, 011 = 2, 101 = 0.
    assert_eq!(count_tu_tdu_str("0011000"), (5.0, 0.0));
}

#[test]
fn test_compute_a() {
    assert!((0.000 - compute_a_str("1111111")).abs() <= 0.001);
    assert!((0.833 - compute_a_str("1100000")).abs() <= 0.001);
    assert!((0.467 - compute_a_str("1010000")).abs() <= 0.001);
    assert!((0.100 - compute_a_str("1001000")).abs() <= 0.001);
    assert!((-0.267 - compute_a_str("1000100")).abs() <= 0.001);
    assert!((-0.633 - compute_a_str("1000010")).abs() <= 0.001);
    assert!((-1.000 - compute_a_str("1000001")).abs() <= 0.001);
}

/// The layers of the reference example, from the bottom up.
#[test]
fn test_reference_example_layers() {
    let score = van_der_eijk(&[30, 40, 210, 130, 530, 50, 10]).unwrap();
    assert_eq!(score.total, 1000);
    let weights: Vec<u32> = score.layers.iter().map(|l| l.weight).collect();
    let occupied: Vec<usize> = score.layers.iter().map(|l| l.occupied).collect();
    assert_eq!(weights, vec![20, 10, 10, 80, 80, 320]);
    assert_eq!(occupied, vec![6, 5, 4, 3, 2, 1]);
    assert_eq!(score.layers[5].agreement, Agreement::Unanimous);
    assert_eq!(
        score.layers[0].agreement,
        Agreement::Pattern {
            categories: 7,
            occupied: 6,
            tu: 15,
            tdu: 0
        }
    );
}

/// The layers carry exactly the mass of the histogram lowered to a minimum of
/// 0: `sum(weight . occupied) == sum(h[i] - min(h))`.
#[test]
fn test_layers_reconstruct_lowered_mass() {
    let histograms: Vec<Vec<u32>> = vec![
        vec![30, 40, 210, 130, 530, 50, 10],
        vec![3, 4, 1, 1, 3, 5, 10],
        vec![10, 11, 0, 0, 0, 0, 20, 11],
        vec![7, 7, 9, 7],
    ];
    for h in histograms {
        let score = van_der_eijk(&h).unwrap();
        let min = *h.iter().min().unwrap();
        let lowered: u64 = h.iter().map(|&x| (x - min) as u64).sum();
        let mass: u64 = score
            .layers
            .iter()
            .map(|l| l.weight as u64 * l.occupied as u64)
            .sum();
        assert_eq!(mass, lowered, "h={h:?}");
        assert!(mass <= score.total);
    }
}

fn gcd(a: i128, b: i128) -> i128 {
    let (mut a, mut b) = (a.abs(), b.abs());
    while b != 0 {
        let t = a % b;
        a = b;
        b = t;
    }
    a
}

/// The exact value of an A-score as a reduced fraction.
fn exact_score(score: &AScore) -> (i128, i128) {
    let (mut n, mut d): (i128, i128) = (0, 1);
    for l in &score.layers {
        let (an, ad): (i128, i128) = match l.agreement {
            Agreement::Uniform | Agreement::Empty => (0, 1),
            Agreement::Unanimous => (1, 1),
            Agreement::Pattern {
                categories,
                occupied,
                tu,
                tdu,
            } => {
                let (k, s, tu, tdu) = (
                    categories as i128,
                    occupied as i128,
                    tu as i128,
                    tdu as i128,
                );
                (
                    ((k - 2) * tu - (k - 1) * tdu) * (k - s),
                    (k - 2) * (tu + tdu) * (k - 1),
                )
            }
        };
        let tn = l.weight as i128 * l.occupied as i128 * an;
        let td = score.total as i128 * ad;
        let (nn, dd) = (n * td + tn * d, d * td);
        let g = gcd(nn, dd).max(1);
        n = nn / g;
        d = dd / g;
    }
    (n, d)
}

#[test]
fn test_exact_score_is_bounded() {
    let histograms: Vec<Vec<u32>> = vec![
        vec![30, 40, 210, 130, 530, 50, 10],
        vec![10, 10, 0, 0, 0, 10, 10],
        vec![1, 4, 2, 1, 1, 4, 1],
        vec![100, 1, 1, 1, 100],
        vec![0, 3, 0, 3, 0, 3, 0],
    ];
    for h in histograms {
        let (n, d) = exact_score(&van_der_eijk(&h).unwrap());
        assert!(d > 0 && -d <= n && n <= d, "h={h:?}");
    }
}

#[test]
fn test_uniform_histogram_has_no_layers() {
    let score = van_der_eijk(&[4, 4, 4, 4]).unwrap();
    assert!(score.layers.is_empty());
    assert_eq!(exact_score(&score).0, 0);
}

#[test]
fn test_single_peak_scores_one() {
    let score = van_der_eijk(&[0, 0, 9, 0]).unwrap();
    assert_eq!(
        score.layers,
        vec![Layer {
            weight: 9,
            occupied: 1,
            agreement: Agreement::Unanimous
        }]
    );
    assert_eq!(exact_score(&score), (1, 1));
    assert_eq!(score_value(&score), 1.0);
}

#[test]
fn test_two_end_peaks_score_minus_one() {
    let score = van_der_eijk(&[5, 0, 0, 0, 5]).unwrap();
    assert_eq!(
        score.layers,
        vec![Layer {
            weight: 5,
            occupied: 2,
            agreement: Agreement::Pattern {
                categories: 5,
                occupied: 2,
                tu: 0,
                tdu: 3
            }
        }]
    );
    assert_eq!(exact_score(&score), (-1, 1));
}

#[test]
fn test_compute_a_cases() {
    assert_eq!(compute_a(&layer_of("1111111")), Agreement::Uniform);
    assert_eq!(compute_a(&layer_of("1")), Agreement::Uniform);
    assert_eq!(compute_a(&layer_of("")), Agreement::Uniform);
    assert_eq!(compute_a(&layer_of("0001000")), Agreement::Unanimous);
    assert_eq!(compute_a(&layer_of("10")), Agreement::Unanimous);
    assert_eq!(compute_a(&layer_of("0000000")), Agreement::Empty);
    assert_eq!(
        compute_a(&layer_of("1000001")),
        Agreement::Pattern {
            categories: 7,
            occupied: 2,
            tu: 0,
            tdu: 5
        }
    );
    assert_eq!(
        compute_a(&layer_of("1001000")),
        Agreement::Pattern {
            categories: 7,
            occupied: 2,
            tu: 3,
            tdu: 2
        }
    );
}

/// Bins holding `u32::MAX` are peeled like any other.
#[test]
fn test_bins_at_u32_max_are_peeled() {
    let score = van_der_eijk(&[0, u32::MAX, u32::MAX]).unwrap();
    assert_eq!(score.total, 2 * u32::MAX as u64);
    assert_eq!(
        score.layers,
        vec![Layer {
            weight: u32::MAX,
            occupied: 2,
            agreement: Agreement::Pattern {
                categories: 3,
                occupied: 2,
                tu: 1,
                tdu: 0
            }
        }]
    );
    let single = van_der_eijk(&[0, 0, u32::MAX]).unwrap();
    assert_eq!(exact_score(&single), (1, 1));
    assert_eq!(score_value(&single), 1.0);
}

#[test]
fn test_dispersion() {
    assert_eq!(
        bimodality_coefficient(&[0, 0, 10, 0, 0]),
        Some(Dispersion::SingleBin)
    );
    assert_eq!(
        bimodality_coefficient(&[10, 0, 0, 0, 10]),
        Some(Dispersion::Spread {
            total: 20,
            index_sum: 40
        })
    );
    assert_eq!(
        bimodality_coefficient(&[1, 1, 1, 1, 1]),
        Some(Dispersion::Spread {
            total: 5,
            index_sum: 10
        })
    );
    assert_eq!(bimodality_coefficient(&[]), None);
    assert_eq!(bimodality_coefficient(&[0, 0, 0]), None);
}

/// Mirroring a histogram gives the same total and the same layers.
#[test]
fn test_mirrored_histogram_has_same_score() {
    let histograms: Vec<Vec<u32>> = vec![
        vec![30, 40, 210, 130, 530, 50, 10],
        vec![10, 11, 0, 0, 0, 0, 20, 11],
        vec![1, 4, 2, 1, 1, 4, 1],
    ];
    for h in histograms {
        let mut r = h.clone();
        r.reverse();
        let a = van_der_eijk(&h).unwrap();
        let b = van_der_eijk(&r).unwrap();
        assert_eq!(a.total, b.total);
        assert_eq!(a.layers, b.layers, "h={h:?}");
        assert_eq!(score_value(&a), score_value(&b));
    }
}

/// Scaling every bin by `c` scales the total and the layer heights by `c`.
#[test]
fn test_scaled_histogram_has_same_score() {
    let h: Vec<u32> = vec![30, 40, 210, 130, 530, 50, 10];
    let c = 7u32;
    let g: Vec<u32> = h.iter().map(|&x| x * c).collect();
    let a = van_der_eijk(&h).unwrap();
    let b = van_der_eijk(&g).unwrap();
    assert_eq!(b.total, a.total * c as u64);
    let scaled: Vec<Layer> = a
        .layers
        .iter()
        .map(|l| Layer {
            weight: l.weight * c,
            ..*l
        })
        .collect();
    assert_eq!(b.layers, scaled);
    assert_eq!(exact_score(&a), exact_score(&b));
}

/// `TU + TDU = s(s-1)/2 . (n-s)`, at most `n^3 / 6`, and mirroring a layer
/// keeps both counts.
#[test]
fn test_count_identities() {
    for len in 0..=10usize {
        for mask in 0u32..(1 << len) {
            let layer: Vec<bool> = (0..len).map(|i| (mask >> i) & 1 == 1).collect();
            let (tu, tdu) = count_tu_tdu(&layer);
            let s = layer.iter().filter(|b| **b).count();
            assert_eq!(2 * (tu + tdu), s * s.saturating_sub(1) * (len - s));
            assert!(6 * (tu + tdu) <= len * len * len);
            let mut rev = layer.clone();
            rev.reverse();
            assert_eq!(count_tu_tdu(&rev), (tu, tdu));
            assert_eq!(compute_a(&rev), compute_a(&layer));
        }
    }
}

/// The central power sums `C_k = sum(h[i] . (n . i - s)^k)`.
fn central_power_sums(h: &[u32]) -> (i128, i128, i128, i128) {
    let n: i128 = h.iter().map(|&x| x as i128).sum();
    let s: i128 = h.iter().enumerate().map(|(i, &x)| i as i128 * x as i128).sum();
    let mut c = [0i128; 5];
    for (i, &x) in h.iter().enumerate() {
        let y = n * i as i128 - s;
        for (k, ck) in c.iter_mut().enumerate() {
            *ck += x as i128 * y.pow(k as u32);
        }
    }
    (n, c[2], c[3], c[4])
}

/// Pearson's bound: `n . C3^2 + C2^3 <= n . C2 . C4`, with equality for two
/// non-empty bins; the float coefficient is the same fraction.
#[test]
fn test_coefficient_fraction_is_at_most_one() {
    let histograms: Vec<Vec<u32>> = vec![
        vec![1, 1, 1, 1, 1],
        vec![10, 0, 0, 0, 10],
        vec![3, 0, 7, 0, 0],
        vec![1, 2, 3, 4, 5, 6, 7],
        vec![100, 1, 1, 1, 100],
    ];
    for h in histograms {
        let (n, c2, c3, c4) = central_power_sums(&h);
        let num = n * c3 * c3 + c2 * c2 * c2;
        let den = n * c2 * c4;
        assert!(0 < num && num <= den, "h={h:?}");
        let bc = coefficient(&h).unwrap();
        assert!((bc - num as f64 / den as f64).abs() <= 1e-12, "h={h:?}");
        let two_bins = h.iter().filter(|&&x| x != 0).count() == 2;
        assert_eq!(num == den, two_bins, "h={h:?}");
    }
}
