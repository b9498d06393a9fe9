//! The record a successful intersection returns.

use vstd::prelude::*;
use crate::vec3::{Vec3, Point};
use crate::material::Material;

verus! {

/// Point of intersection, oriented surface normal, ray parameter, texture
/// coordinates, whether the outward face was struck, and the material
/// responsible. Created fresh per intersection test; the closest record
/// along a ray replaces any farther candidate.
#[derive(Clone, Copy, PartialEq, Eq, Structural, Debug)]
pub struct HitRecord {
    pub point: Point,
    pub normal: Vec3,
    pub t: i64,
    pub u: i64,
    pub v: i64,
    pub front_face: bool,
    pub material: Material,
}

} // verus!
