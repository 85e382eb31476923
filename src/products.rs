//! Dot and cross products, as traits over a vector type.
use vstd::prelude::*;

verus! {

/// A dot product between two values of one type.
pub trait DotProduct: Sized {
    type Output;

    /// The inputs on which `dot` is defined (its result is representable).
    spec fn dot_defined(&self, other: &Self) -> bool;

    /// The value of the dot product.
    spec fn spec_dot(&self, other: &Self) -> Self::Output;

    fn dot(&self, other: &Self) -> (r: Self::Output)
        requires
            self.dot_defined(other),
        ensures
            r == self.spec_dot(other),
    ;
}

/// A cross product between two values of one type.
pub trait CrossProduct: Sized {
    /// The inputs on which `cross` is defined (its result is representable).
    spec fn cross_defined(&self, other: &Self) -> bool;

    /// The value of the cross product.
    spec fn spec_cross(&self, other: &Self) -> Self;

    fn cross(&self, other: &Self) -> (r: Self)
        requires
            self.cross_defined(other),
        ensures
            r == self.spec_cross(other),
    ;
}

} // verus!
