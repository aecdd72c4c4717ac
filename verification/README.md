# is_bimodal

Bimodality of a histogram: the van der Eijk agreement score `A` and the
(Sarle/SAS) bimodality coefficient.

- `src/` is the verified library (Verus). It works with exact integers only:
  it validates histograms, cuts them into layers, counts the `110`/`011`/`101`
  patterns of each layer, decides which case of the agreement formula applies,
  and gathers the sums that the moments of the bimodality coefficient are taken
  from. Its contracts state these results exactly; its proof functions state
  the laws (the A-score lies in `[-1, 1]`, the layers add back up to the
  histogram, uniform histograms score 0, a single peak scores 1, two end peaks
  score -1, mirroring or scaling a histogram keeps its score,
  `TU + TDU = s(s-1)/2 . (n-s)`, zero variance means a single non-empty bin,
  the bimodality coefficient is at most 1 and equals 1 for two non-empty
  bins).
- `app/` turns those results into `f64` values (`van_der_eijk`,
  `is_histogram_bimodal`, `bimodality_coefficient`) and exposes them to Python
  through PyO3.
- `tests/` runs the library on concrete histograms.
