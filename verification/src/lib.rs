//! Exact marginal probabilities of the n-bit output words of a line of
//! correlated binary cells observed through independent per-cell noise.
//! The table is produced by a Gray-code walk with O(1) weight updates per
//! step, using exact rational arithmetic throughout; distribution
//! statistics (total mass, paired normalization, histogram and
//! multiplicities) are derived from the finished table; the floating
//! entropy evaluation is left to the reporting layer.

pub mod engine;
pub mod exact;
pub mod frac;
pub mod params;
pub mod stats;
