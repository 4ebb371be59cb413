//! A mergeable streaming quantile summary (t-digest) over integer observations.
//!
//! Observations are `i64` values; centroid weights are whole observation
//! counts, so merging clusters is exact. Quantile positions are fixed-point
//! fractions scaled by [`quantile::QUANTILE_SCALE`].

pub mod centroid;
mod compress;
pub mod digest;
pub mod state;
pub mod quantile;
pub mod codec;
pub mod aggregate;
