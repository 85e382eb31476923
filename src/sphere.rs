//! Spheres, the geometry of receivers.
use vstd::prelude::*;

use crate::fixed::MAX_COORD;
use crate::vec3::Vec3;

verus! {

/// A sphere given by its center and radius (raw fixed-point units).
#[derive(Clone, Copy, Debug, PartialEq, Eq, Structural)]
pub struct Sphere {
    pub origin: Vec3,
    pub radius: i64,
}

impl Sphere {
    /// The center lies within the kernel's coordinate range and the radius is
    /// non-negative and no larger than that range.
    pub open spec fn well_formed(self) -> bool {
        self.origin.within(MAX_COORD as int) && 0 <= self.radius <= MAX_COORD
    }

    pub fn new(origin: Vec3, radius: i64) -> (r: Sphere)
        ensures
            r == (Sphere { origin, radius }),
    {
        Sphere { origin, radius }
    }
}

} // verus!
