//! A 2D particle simulation core built on Verlet integration with distance
//! constraints, circular boundary confinement, and pairwise collision
//! resolution.
//!
//! All geometry is carried in fixed-point integers (`UNIT` sub-units per
//! world unit), so every stage of the pipeline has an exact, machine-checked
//! contract: truncating division and a floor integer square root replace the
//! rounding behaviour that floating point would leave unspecified.

pub mod math;
pub mod model;
pub mod system;
pub mod laws;
