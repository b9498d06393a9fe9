//! The composite axis-aligned box: six rectangle sides behind one
//! hittable face.

use vstd::prelude::*;
use crate::math::BOX_PAD;
use crate::vec3::{Vec3, Point, in_range};
use crate::ray::{Ray, ray_wf};
use crate::aabb::{Aabb, box_wf};
use crate::hit_record::HitRecord;
use crate::hittable::{Object, AxisRect};
use crate::hittable_list::{HittableList, scan_hit, objects_wf};
use crate::material::Material;

verus! {

/// The six rectangle sides of the box spanned by two corner points, each
/// carrying the same material: the two xy faces, the two xz faces, and
/// the two yz faces, in that order.
pub open spec fn cube_sides_spec(box_min: Point, box_max: Point, m: Material) -> Seq<Object> {
    seq![
        Object::Rect(
            AxisRect {
                axis: 2u8,
                a0: box_min.x,
                a1: box_max.x,
                b0: box_min.y,
                b1: box_max.y,
                k: box_min.z,
                material: m,
            },
        ),
        Object::Rect(
            AxisRect {
                axis: 2u8,
                a0: box_min.x,
                a1: box_max.x,
                b0: box_min.y,
                b1: box_max.y,
                k: box_max.z,
                material: m,
            },
        ),
        Object::Rect(
            AxisRect {
                axis: 1u8,
                a0: box_min.x,
                a1: box_max.x,
                b0: box_min.z,
                b1: box_max.z,
                k: box_min.y,
                material: m,
            },
        ),
        Object::Rect(
            AxisRect {
                axis: 1u8,
                a0: box_min.x,
                a1: box_max.x,
                b0: box_min.z,
                b1: box_max.z,
                k: box_max.y,
                material: m,
            },
        ),
        Object::Rect(
            AxisRect {
                axis: 0u8,
                a0: box_min.y,
                a1: box_max.y,
                b0: box_min.z,
                b1: box_max.z,
                k: box_min.x,
                material: m,
            },
        ),
        Object::Rect(
            AxisRect {
                axis: 0u8,
                a0: box_min.y,
                a1: box_max.y,
                b0: box_min.z,
                b1: box_max.z,
                k: box_max.x,
                material: m,
            },
        ),
    ]
}

/// An axis-aligned box between two corner points, hit through its six
/// rectangle sides.
pub struct Cube {
    pub box_min: Point,
    pub box_max: Point,
    pub sides: HittableList,
}

impl Cube {
    /// The six sides, as built by `new`.
    pub open spec fn sides_seq(self) -> Seq<Object> {
        self.sides@
    }

    pub open spec fn wf(self) -> bool {
        &&& in_range(self.box_min)
        &&& in_range(self.box_max)
        &&& self.box_min.x < self.box_max.x
        &&& self.box_min.y < self.box_max.y
        &&& self.box_min.z < self.box_max.z
        &&& objects_wf(self.sides_seq())
    }

    /// Builds the box between the two corners: one rectangle per face,
    /// all carrying the same material.
    pub fn new(box_min: Point, box_max: Point, material: Material) -> (c: Cube)
        requires
            in_range(box_min),
            in_range(box_max),
            box_min.x < box_max.x,
            box_min.y < box_max.y,
            box_min.z < box_max.z,
        ensures
            c.box_min == box_min,
            c.box_max == box_max,
            c.sides_seq() == cube_sides_spec(box_min, box_max, material),
            c.wf(),
    {
        let mut sides = HittableList::new();
        sides.add(
            Object::Rect(
                AxisRect::xy_rect(box_min.x, box_max.x, box_min.y, box_max.y, box_min.z, material),
            ),
        );
        sides.add(
            Object::Rect(
                AxisRect::xy_rect(box_min.x, box_max.x, box_min.y, box_max.y, box_max.z, material),
            ),
        );
        sides.add(
            Object::Rect(
                AxisRect::xz_rect(box_min.x, box_max.x, box_min.z, box_max.z, box_min.y, material),
            ),
        );
        sides.add(
            Object::Rect(
                AxisRect::xz_rect(box_min.x, box_max.x, box_min.z, box_max.z, box_max.y, material),
            ),
        );
        sides.add(
            Object::Rect(
                AxisRect::yz_rect(box_min.y, box_max.y, box_min.z, box_max.z, box_min.x, material),
            ),
        );
        sides.add(
            Object::Rect(
                AxisRect::yz_rect(box_min.y, box_max.y, box_min.z, box_max.z, box_max.x, material),
            ),
        );
        let c = Cube { box_min, box_max, sides };
        proof {
            assert(c.sides_seq() =~= cube_sides_spec(box_min, box_max, material));
            assert forall|i: int|
                0 <= i < c.sides_seq().len() implies crate::hittable::obj_wf(
                #[trigger] c.sides_seq()[i],
            ) by {
                assert(cube_sides_spec(box_min, box_max, material)[i] == c.sides_seq()[i]);
            }
        }
        c
    }

    /// The closest intersection with any of the six sides: exactly what a
    /// linear scan of the sides returns.
    pub fn hit(&self, ray: &Ray, t_min: i64, t_max: i64) -> (res: Option<HitRecord>)
        requires
            self.wf(),
            ray_wf(*ray),
        ensures
            res == scan_hit(self.sides_seq(), *ray, t_min as int, t_max as int),
    {
        self.sides.hit(ray, t_min, t_max)
    }

    /// The corner box, padded by the rounding slack its sides carry; the
    /// box does not move, so the time interval is irrelevant.
    pub fn bounding_box(&self, _t0: i64, _t1: i64) -> (res: Aabb)
        requires
            self.wf(),
        ensures
            res == (Aabb {
                min: Vec3 {
                    x: (self.box_min.x - BOX_PAD) as i64,
                    y: (self.box_min.y - BOX_PAD) as i64,
                    z: (self.box_min.z - BOX_PAD) as i64,
                },
                max: Vec3 {
                    x: (self.box_max.x + BOX_PAD) as i64,
                    y: (self.box_max.y + BOX_PAD) as i64,
                    z: (self.box_max.z + BOX_PAD) as i64,
                },
            }),
            box_wf(res),
    {
        Aabb {
            min: Vec3 {
                x: self.box_min.x - BOX_PAD,
                y: self.box_min.y - BOX_PAD,
                z: self.box_min.z - BOX_PAD,
            },
            max: Vec3 {
                x: self.box_max.x + BOX_PAD,
                y: self.box_max.y + BOX_PAD,
                z: self.box_max.z + BOX_PAD,
            },
        }
    }
}

} // verus!
