//! Intersection records and the intersection trait.
use core::cmp::Ordering;

use vstd::prelude::*;

use crate::vec3::Vec3;

verus! {

/// One intersection of a ray with a primitive.
#[derive(Clone, Copy, Debug, PartialEq, Eq, Structural)]
pub struct Hit {
    /// Global arrival time (microseconds), the ray's time offset included.
    pub time: i64,
    /// Where the ray meets the primitive.
    pub point: Vec3,
    /// Outward normal of length `SCALE` at `point`.
    pub unit_normal: Vec3,
}

/// The order of two arrival times.
pub open spec fn time_order(a: i64, b: i64) -> Ordering {
    if a < b {
        Ordering::Less
    } else if a > b {
        Ordering::Greater
    } else {
        Ordering::Equal
    }
}

impl Hit {
    /// Hits are ordered by arrival time alone; equal times compare equal.
    pub fn cmp(&self, other: &Hit) -> (r: Ordering)
        ensures
            r == time_order(self.time, other.time),
    {
        if self.time < other.time {
            Ordering::Less
        } else if self.time > other.time {
            Ordering::Greater
        } else {
            Ordering::Equal
        }
    }
}

impl PartialOrd for Hit {
    fn partial_cmp(&self, other: &Hit) -> (r: Option<Ordering>) {
        Some(self.cmp(other))
    }
}

impl vstd::std_specs::cmp::PartialOrdSpecImpl for Hit {
    open spec fn obeys_partial_cmp_spec() -> bool {
        true
    }

    open spec fn partial_cmp_spec(&self, other: &Hit) -> Option<Ordering> {
        Some(time_order(self.time, other.time))
    }
}

/// Intersection of `Self` (a ray) with a primitive of type `T`.
pub trait Intersect<T>: Sized {
    type Record;

    /// The inputs the intersection is defined on.
    spec fn intersect_defined(&self, other: T) -> bool;

    /// `r` is the result of intersecting `self` with `other`.
    spec fn intersect_result(&self, other: T, r: Option<Self::Record>) -> bool;

    fn intersect(&self, other: T) -> (r: Option<Self::Record>)
        requires
            self.intersect_defined(other),
        ensures
            self.intersect_result(other, r),
    ;
}

} // verus!
