//! Decision core of a polygon fit calculator.
//!
//! The calculator asks whether a convex inner polygon can be rotated and
//! translated so that it lies inside a triangular outer polygon. Its
//! arithmetic is done in IEEE-754 single precision by the caller; this crate
//! holds everything that is decided about those numbers: which inner vertex
//! is assigned to which outer edge, which sampled margin binds at each angle,
//! which angle is best, and whether the best margin counts as a fit.
//!
//! A sample is passed as its binary32 encoding, a `u32`. The module
//! [`sample`] gives those encodings their order.

pub mod sample;
pub mod choices;
pub mod envelope;
pub mod fit;
