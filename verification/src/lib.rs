//! Check bimodality of a histogram using the van der Eijk A-score and the
//! (Sarle/SAS) bimodality coefficient.
//!
//! Everything here is exact integer arithmetic: the A-score is returned as its
//! decomposition into layers, each with the integers of its agreement formula,
//! and the bimodality coefficient as the integer sums its moments are taken
//! from. Turning these into floating-point numbers is left to the caller.
//!
//! - [`histogram`]: totals, smallest bins, smallest non-zero bins.
//! - [`triples`]: the pattern counts `TU` and `TDU` of a layer.
//! - [`agreement`]: the agreement `A` of a single layer.
//! - [`score`]: the layer decomposition and the A-score of a histogram.
//! - [`dispersion`]: the data of the bimodality coefficient.
pub mod agreement;
pub mod dispersion;
pub mod histogram;
pub mod score;
pub mod triples;

pub use agreement::{compute_a, Agreement};
pub use dispersion::{bimodality_coefficient, Dispersion};
pub use score::{van_der_eijk, AScore, Layer};
pub use triples::count_tu_tdu;
