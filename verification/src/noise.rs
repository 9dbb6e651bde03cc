//! The interface to a seeded coherent-noise field.
//!
//! A noise field is any function from a `NoiseQuery` to a fixed-point sample.
//! The library never looks inside it: it fixes which queries are made and
//! proves what is built from the answers.

use vstd::prelude::*;

verus! {

/// The fixed-point representation of the noise value 1.
pub const NOISE_UNIT: i64 = 65536;

/// A request for one noise sample: the field is sampled at the point
/// `(x / x_wavelength, y / y_wavelength)` with the given seed.
#[derive(Clone, Copy, Debug, PartialEq, Eq, Structural)]
pub struct NoiseQuery {
    pub x: i64,
    pub x_wavelength: i64,
    pub y: i64,
    pub y_wavelength: i64,
    pub seed: u64,
}

/// The field answers every query.
pub open spec fn is_total<F: Fn(NoiseQuery) -> i32>(noise: &F) -> bool {
    forall|q: NoiseQuery| noise.requires((q,))
}

/// The field gives one answer per query.
pub open spec fn is_deterministic<F: Fn(NoiseQuery) -> i32>(noise: &F) -> bool {
    forall|q: NoiseQuery, a: i32, b: i32|
        noise.ensures((q,), a) && noise.ensures((q,), b) ==> a == b
}

} // verus!
