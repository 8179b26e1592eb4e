//! A verified single-dimensional particle swarm optimizer.
//!
//! A swarm of scalar candidate solutions is refined step by step toward a
//! minimum or maximum of a user-supplied objective function.  All scalars are
//! exact fixed-point numbers: an `i64` counts units of `1 / scalar::SCALE`,
//! so every position, velocity, coefficient and random draw is an integer and
//! the whole update rule is proved rather than approximated.

pub mod driver;
pub mod engine;
pub mod objective;
pub mod options;
pub mod random;
pub mod scalar;
pub mod swarm;
