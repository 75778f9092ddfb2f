//! Variable-time scalar multiplication on a prime-order elliptic-curve
//! group: `k·P`, and the two-term combination `g·G + p·P`, for public
//! scalars.
//!
//! The multiplication recodes the scalar into a windowed non-adjacent form,
//! builds a table of the odd multiples of the point, and folds the digits
//! into an accumulator by doubling and adding. The field and point
//! arithmetic comes from a backend that implements `curve::CurveOps`; what
//! is proved here holds for every backend that meets that trait's contract.

pub mod elem;
pub mod group;
pub mod curve;
pub mod wnaf;
pub mod vartime;
pub mod laws;
pub mod model;
