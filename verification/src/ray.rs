//! A ray: an origin point and a direction vector.

use vstd::prelude::*;
use crate::vector::Vector;

verus! {

/// A directed line through space: an origin point plus a direction
/// vector, both stored exactly as supplied (no normalization, no
/// validation). The intersection routine solves the full quadratic, so
/// the direction need not be unit-length; it must only be nonzero.
#[derive(Clone, Copy, PartialEq, Eq, Structural, Debug)]
pub struct Ray {
    pub origin: Vector,
    pub direction: Vector,
}

impl Ray {
    /// Builds the ray with the given origin and direction, stored verbatim.
    pub fn new(origin: Vector, direction: Vector) -> (r: Ray)
        ensures
            r.origin == origin,
            r.direction == direction,
    {
        Ray { origin, direction }
    }
}

} // verus!
