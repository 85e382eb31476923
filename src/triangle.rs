//! Triangles, the faces of reflective geometry.
use vstd::prelude::*;

use crate::fixed::MAX_COORD;
use crate::vec3::Vec3;

verus! {

/// A triangle given by its three vertices, in order; the winding decides which
/// side its normal faces.
#[derive(Clone, Copy, Debug, PartialEq)]
pub struct Triangle<V>(pub V, pub V, pub V);

impl Triangle<Vec3> {
    /// Every vertex lies within the kernel's coordinate range.
    pub open spec fn well_formed(self) -> bool {
        self.0.within(MAX_COORD as int) && self.1.within(MAX_COORD as int) && self.2.within(
            MAX_COORD as int,
        )
    }
}

} // verus!
