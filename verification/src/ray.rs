//! A parametric ray. The point at parameter `t` (a fixed-point scalar) is
//! `origin + t * direction / SCALE`, componentwise in fixed-point units.

use vstd::prelude::*;
use crate::vec3::{Vec3, Point, in_range};

verus! {

/// Origin, direction (not necessarily unit length) and a time scalar for
/// motion blur. Immutable once constructed.
#[derive(Clone, Copy, PartialEq, Eq, Structural, Debug)]
pub struct Ray {
    pub origin: Point,
    pub direction: Vec3,
    pub time: i64,
}

pub open spec fn ray_wf(r: Ray) -> bool {
    in_range(r.origin) && in_range(r.direction)
}

impl Ray {
    pub fn new(origin: Point, direction: Vec3, time: i64) -> (r: Ray)
        ensures
            r == (Ray { origin, direction, time }),
    {
        Ray { origin, direction, time }
    }
}

} // verus!
