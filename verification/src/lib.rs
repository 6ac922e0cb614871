//! A radix-spline learned index over sorted `u32` keys, in exact integer
//! arithmetic.
//!
//! A [`Builder`] takes keys in non-decreasing order and fits a monotone
//! piecewise-linear approximation of their ranks, never further than a chosen
//! error from the rank of a key. The finished [`RadixSpline`] answers a lookup
//! with a narrow range of positions in which the key has to be searched.
//!
//! Ranks and the error are whole numbers, so every comparison of slopes and
//! every interpolation is exact.
use vstd::prelude::*;

pub mod geometry;
pub mod radix;
pub mod fit;
pub mod envelope;
pub mod builder;
pub mod spline;
pub mod laws;

pub use builder::{Builder, Coordinate};
pub use geometry::{orient, Orientation};
pub use radix::shift_bits;
pub use spline::{Estimate, RadixSpline};
