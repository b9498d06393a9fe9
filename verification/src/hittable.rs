//! The hittable geometry set: spheres, moving spheres and axis-aligned
//! rectangles, together with the `Object` sum type that dispatches over
//! them.
//!
//! Every hit function mirrors a spec function exactly, and two lemmas
//! characterize each: a returned record's parameter lies in the query
//! interval and its point sits strictly inside the primitive's bounding
//! box; and narrowing the interval keeps the same record when its
//! parameter survives, or yields nothing. Those two facts are all the
//! list scan and the BVH traversal need.

use vstd::prelude::*;
use crate::math::{SCALE, BOX_PAD, COORD_LIMIT, fdiv, sqrt_floor, isqrt_u128, floor_div_i128,
    lemma_sqrt_exists, lemma_fdiv_monotone, lemma_fdiv_between, lemma_fdiv_exact};
use crate::vec3::{Vec3, Point, bounded, in_range, dot_spec, comp};
use crate::ray::{Ray, ray_wf};
use crate::aabb::{Aabb, box_wf, contains_box, strict_inside, axis_strict, surrounding_box_spec,
    lemma_strict_inside_monotone, imin, imax};
use crate::hit_record::HitRecord;
use crate::material::Material;

verus! {

/// The point of `r` at parameter `t`, rounded to the fixed-point grid.
pub open spec fn ray_point_spec(r: Ray, t: int) -> Vec3 {
    Vec3 {
        x: (r.origin.x + fdiv(t * r.direction.x, SCALE as int)) as i64,
        y: (r.origin.y + fdiv(t * r.direction.y, SCALE as int)) as i64,
        z: (r.origin.z + fdiv(t * r.direction.z, SCALE as int)) as i64,
    }
}

// ---------------------------------------------------------------------------
// Sphere
// ---------------------------------------------------------------------------

#[derive(Clone, Copy, PartialEq, Eq, Structural, Debug)]
pub struct Sphere {
    pub center: Point,
    pub radius: i64,
    pub material: Material,
}

pub open spec fn sphere_wf(center: Vec3, radius: i64) -> bool {
    in_range(center) && 0 < radius <= COORD_LIMIT
}

/// The sphere's box, padded so a rounded hit point stays strictly inside.
pub open spec fn sphere_box_spec(center: Vec3, radius: i64) -> Aabb {
    Aabb {
        min: Vec3 {
            x: (center.x - radius - BOX_PAD) as i64,
            y: (center.y - radius - BOX_PAD) as i64,
            z: (center.z - radius - BOX_PAD) as i64,
        },
        max: Vec3 {
            x: (center.x + radius + BOX_PAD) as i64,
            y: (center.y + radius + BOX_PAD) as i64,
            z: (center.z + radius + BOX_PAD) as i64,
        },
    }
}

/// The two quadratic roots of the ray/sphere equation, rounded down, in
/// ascending order; `None` when the direction is degenerate or the
/// discriminant is negative.
pub open spec fn sphere_roots(center: Vec3, radius: i64, r: Ray) -> Option<(int, int)> {
    let ocx = r.origin.x - center.x;
    let ocy = r.origin.y - center.y;
    let ocz = r.origin.z - center.z;
    let a = r.direction.x * r.direction.x + r.direction.y * r.direction.y + r.direction.z
        * r.direction.z;
    let hb = ocx * r.direction.x + ocy * r.direction.y + ocz * r.direction.z;
    let c0 = ocx * ocx + ocy * ocy + ocz * ocz - radius * radius;
    let disc = hb * hb - a * c0;
    if a == 0 || disc < 0 {
        None
    } else {
        let sq = sqrt_floor(SCALE * SCALE * disc);
        Some((fdiv(-(SCALE * hb) - sq, a), fdiv(-(SCALE * hb) + sq, a)))
    }
}

/// The record a sphere hit at parameter `t` produces: the rounded ray
/// point, the outward normal scaled to unit length, flipped against the
/// ray, and no texture coordinates.
pub open spec fn sphere_rec_spec(center: Vec3, radius: i64, material: Material, r: Ray, t: int)
    -> HitRecord {
    let p = ray_point_spec(r, t);
    let ow = Vec3 {
        x: fdiv(SCALE * (p.x - center.x), radius as int) as i64,
        y: fdiv(SCALE * (p.y - center.y), radius as int) as i64,
        z: fdiv(SCALE * (p.z - center.z), radius as int) as i64,
    };
    let front = dot_spec(r.direction, ow) < 0;
    let n = if front {
        ow
    } else {
        Vec3 { x: (-ow.x) as i64, y: (-ow.y) as i64, z: (-ow.z) as i64 }
    };
    HitRecord { point: p, normal: n, t: t as i64, u: 0, v: 0, front_face: front, material }
}

/// The closest sphere intersection in the open interval `(tmin, tmax)`:
/// the smaller root when it qualifies, else the larger, else none. A root
/// qualifies when it lies in the interval and its rounded point sits
/// strictly inside the sphere's padded box.
pub open spec fn sphere_hit_spec(
    center: Vec3,
    radius: i64,
    material: Material,
    r: Ray,
    tmin: int,
    tmax: int,
) -> Option<HitRecord> {
    match sphere_roots(center, radius, r) {
        None => None,
        Some(ts) => if tmin < ts.0 < tmax && strict_inside(r, ts.0, sphere_box_spec(center, radius)) {
            Some(sphere_rec_spec(center, radius, material, r, ts.0))
        } else if tmin < ts.1 < tmax && strict_inside(r, ts.1, sphere_box_spec(center, radius)) {
            Some(sphere_rec_spec(center, radius, material, r, ts.1))
        } else {
            None
        },
    }
}

/// Whether the rounded ray point at `t` lies strictly inside `b`.
fn point_inside_check(ray: &Ray, t: i64, b: &Aabb) -> (res: bool)
    requires
        ray_wf(*ray),
        box_wf(*b),
    ensures
        res == strict_inside(*ray, t as int, *b),
{
    proof {
        crate::math::lemma_i64_mul_fits(t as int, ray.direction.x as int);
        crate::math::lemma_i64_mul_fits(t as int, ray.direction.y as int);
        crate::math::lemma_i64_mul_fits(t as int, ray.direction.z as int);
    }
    let tx: i128 = (t as i128) * (ray.direction.x as i128);
    let ty: i128 = (t as i128) * (ray.direction.y as i128);
    let tz: i128 = (t as i128) * (ray.direction.z as i128);
    let s: i128 = SCALE as i128;
    (s * ((b.min.x as i128) - (ray.origin.x as i128)) < tx && tx < s * ((b.max.x as i128) - (
    ray.origin.x as i128)) && s * ((b.min.y as i128) - (ray.origin.y as i128)) < ty && ty < s * ((
    b.max.y as i128) - (ray.origin.y as i128)) && s * ((b.min.z as i128) - (ray.origin.z as i128))
        < tz && tz < s * ((b.max.z as i128) - (ray.origin.z as i128)))
}

/// The rounded ray point at a parameter strictly inside a box stays within
/// the box's corner coordinates on every axis.
proof fn lemma_point_in_box(r: Ray, t: int, b: Aabb)
    requires
        strict_inside(r, t, b),
        box_wf(b),
    ensures
        b.min.x <= r.origin.x + fdiv(t * r.direction.x, SCALE as int) <= b.max.x,
        b.min.y <= r.origin.y + fdiv(t * r.direction.y, SCALE as int) <= b.max.y,
        b.min.z <= r.origin.z + fdiv(t * r.direction.z, SCALE as int) <= b.max.z,
{
    lemma_fdiv_between(
        t * r.direction.x,
        b.min.x - r.origin.x,
        b.max.x - r.origin.x + 1,
        SCALE as int,
    );
    lemma_fdiv_between(
        t * r.direction.y,
        b.min.y - r.origin.y,
        b.max.y - r.origin.y + 1,
        SCALE as int,
    );
    lemma_fdiv_between(
        t * r.direction.z,
        b.min.z - r.origin.z,
        b.max.z - r.origin.z + 1,
        SCALE as int,
    );
    assert(t * r.direction.x < SCALE * (b.max.x - r.origin.x + 1)) by (nonlinear_arith)
        requires
            t * r.direction.x < SCALE * (b.max.x - r.origin.x),
            SCALE == 1024,
    ;
    assert(t * r.direction.y < SCALE * (b.max.y - r.origin.y + 1)) by (nonlinear_arith)
        requires
            t * r.direction.y < SCALE * (b.max.y - r.origin.y),
            SCALE == 1024,
    ;
    assert(t * r.direction.z < SCALE * (b.max.z - r.origin.z + 1)) by (nonlinear_arith)
        requires
            t * r.direction.z < SCALE * (b.max.z - r.origin.z),
            SCALE == 1024,
    ;
}

/// Builds the record for a qualifying parameter.
fn make_point(ray: &Ray, t: i64, b: &Aabb) -> (p: Vec3)
    requires
        ray_wf(*ray),
        box_wf(*b),
        strict_inside(*ray, t as int, *b),
    ensures
        p == ray_point_spec(*ray, t as int),
        bounded(p, crate::aabb::BOX_LIMIT as int),
{
    proof {
        lemma_point_in_box(*ray, t as int, *b);
        crate::math::lemma_i64_mul_fits(t as int, ray.direction.x as int);
        crate::math::lemma_i64_mul_fits(t as int, ray.direction.y as int);
        crate::math::lemma_i64_mul_fits(t as int, ray.direction.z as int);
    }
    let px: i128 = (ray.origin.x as i128) + floor_div_i128(
        (t as i128) * (ray.direction.x as i128),
        SCALE as i128,
    );
    let py: i128 = (ray.origin.y as i128) + floor_div_i128(
        (t as i128) * (ray.direction.y as i128),
        SCALE as i128,
    );
    let pz: i128 = (ray.origin.z as i128) + floor_div_i128(
        (t as i128) * (ray.direction.z as i128),
        SCALE as i128,
    );
    Vec3 { x: px as i64, y: py as i64, z: pz as i64 }
}

/// One sphere intersection test, shared by the static and the moving
/// sphere.
fn sphere_hit_core(
    center: Vec3,
    radius: i64,
    material: Material,
    ray: &Ray,
    t_min: i64,
    t_max: i64,
) -> (res: Option<HitRecord>)
    requires
        sphere_wf(center, radius),
        ray_wf(*ray),
    ensures
        res == sphere_hit_spec(center, radius, material, *ray, t_min as int, t_max as int),
{
    let oc = ray.origin.sub(&center);
    let a: i128 = ray.direction.dot(&ray.direction);
    let hb: i128 = oc.dot(&ray.direction);
    proof {
        lemma_sphere_sizes(oc, ray.direction, radius as int);
    }
    let c0: i128 = oc.dot(&oc) - (radius as i128) * (radius as i128);
    let disc: i128 = hb * hb - a * c0;
    proof {
        assert(-0x10_0000_0000_0000_0000_0000_0000 <= disc
            <= 0x10_0000_0000_0000_0000_0000_0000);
        assert(-0x100_0000_0000_0000_0000_0000_0000_0000 <= (SCALE as int) * (SCALE as int) * disc
            <= 0x100_0000_0000_0000_0000_0000_0000_0000) by (nonlinear_arith)
            requires
                -0x10_0000_0000_0000_0000_0000_0000 <= disc
                    <= 0x10_0000_0000_0000_0000_0000_0000,
                SCALE == 1024,
        ;
    }
    if a == 0 || disc < 0 {
        return None;
    }
    let s2d: i128 = (SCALE as i128) * (SCALE as i128) * disc;
    let sq: i128 = isqrt_u128(s2d as u128) as i128;
    let nhb: i128 = -((SCALE as i128) * hb);
    proof {
        assert(a > 0) by (nonlinear_arith)
            requires
                a == dot_spec(ray.direction, ray.direction),
                a != 0,
                dot_spec(ray.direction, ray.direction) == ray.direction.x * ray.direction.x
                    + ray.direction.y * ray.direction.y + ray.direction.z * ray.direction.z,
        ;
        assert((s2d as u128) as int == s2d as int);
    }
    let t0: i128 = floor_div_i128(nhb - sq, a);
    let t1: i128 = floor_div_i128(nhb + sq, a);
    let bbox = Aabb {
        min: Vec3 {
            x: center.x - radius - BOX_PAD,
            y: center.y - radius - BOX_PAD,
            z: center.z - radius - BOX_PAD,
        },
        max: Vec3 {
            x: center.x + radius + BOX_PAD,
            y: center.y + radius + BOX_PAD,
            z: center.z + radius + BOX_PAD,
        },
    };
    proof {
        assert(bbox == sphere_box_spec(center, radius));
        assert(box_wf(bbox));
    }
    if (t_min as i128) < t0 && t0 < (t_max as i128) {
        let t0s: i64 = t0 as i64;
        if point_inside_check(ray, t0s, &bbox) {
            let p = make_point(ray, t0s, &bbox);
            let rec = finish_sphere_rec(center, radius, material, ray, t0s, p);
            return Some(rec);
        }
    }
    if (t_min as i128) < t1 && t1 < (t_max as i128) {
        let t1s: i64 = t1 as i64;
        if point_inside_check(ray, t1s, &bbox) {
            let p = make_point(ray, t1s, &bbox);
            let rec = finish_sphere_rec(center, radius, material, ray, t1s, p);
            return Some(rec);
        }
    }
    None
}

/// Completes a sphere hit record from the already-rounded point.
fn finish_sphere_rec(center: Vec3, radius: i64, material: Material, ray: &Ray, t: i64, p: Vec3)
    -> (rec: HitRecord)
    requires
        sphere_wf(center, radius),
        ray_wf(*ray),
        bounded(p, crate::aabb::BOX_LIMIT as int),
        p == ray_point_spec(*ray, t as int),
    ensures
        rec == sphere_rec_spec(center, radius, material, *ray, t as int),
{
    let owx: i128 = floor_div_i128(
        (SCALE as i128) * ((p.x as i128) - (center.x as i128)),
        radius as i128,
    );
    let owy: i128 = floor_div_i128(
        (SCALE as i128) * ((p.y as i128) - (center.y as i128)),
        radius as i128,
    );
    let owz: i128 = floor_div_i128(
        (SCALE as i128) * ((p.z as i128) - (center.z as i128)),
        radius as i128,
    );
    proof {
        lemma_outward_bounded(SCALE * (p.x - center.x), radius as int);
        lemma_outward_bounded(SCALE * (p.y - center.y), radius as int);
        lemma_outward_bounded(SCALE * (p.z - center.z), radius as int);
    }
    let ow = Vec3 { x: owx as i64, y: owy as i64, z: owz as i64 };
    let front = ray.direction.dot(&ow) < 0;
    let n = if front {
        ow
    } else {
        ow.neg()
    };
    HitRecord { point: p, normal: n, t, u: 0, v: 0, front_face: front, material }
}

/// The scaled outward offset divided by the radius stays within a few
/// fixed-point units.
proof fn lemma_outward_bounded(num: int, radius: int)
    requires
        0 < radius <= COORD_LIMIT,
        -(SCALE * 2 * (crate::aabb::BOX_LIMIT as int)) <= num <= SCALE * 2 * (
        crate::aabb::BOX_LIMIT as int),
    ensures
        -0x1000_0000_0000 <= fdiv(num, radius) <= 0x1000_0000_0000,
{
    assert(-0x1000_0000_0000 <= num / radius <= 0x1000_0000_0000) by (nonlinear_arith)
        requires
            0 < radius,
            -0x40_0000_0000 <= num <= 0x40_0000_0000,
    ;
}

proof fn lemma_sphere_sizes(oc: Vec3, d: Vec3, radius: int)
    requires
        bounded(oc, 2 * COORD_LIMIT as int),
        bounded(d, COORD_LIMIT as int),
        0 < radius <= COORD_LIMIT,
    ensures
        -0x2_0000_0000_0000 <= dot_spec(oc, d) <= 0x2_0000_0000_0000,
        0 <= dot_spec(d, d) <= 0x1_0000_0000_0000,
        0 <= dot_spec(oc, oc) <= 0x4_0000_0000_0000,
        0 <= radius * radius <= 0x4000_0000_0000,
        0 <= dot_spec(oc, d) * dot_spec(oc, d) <= 0x4_0000_0000_0000_0000_0000_0000,
        -0x8_0000_0000_0000_0000_0000_0000 <= dot_spec(d, d) * (dot_spec(oc, oc) - radius * radius)
            <= 0x8_0000_0000_0000_0000_0000_0000,
{
    assert(-0x2_0000_0000_0000 <= dot_spec(oc, d) <= 0x2_0000_0000_0000 && 0 <= dot_spec(d, d)
        <= 0x1_0000_0000_0000 && 0 <= dot_spec(oc, oc) <= 0x4_0000_0000_0000 && 0 <= radius * radius
        <= 0x4000_0000_0000) by (nonlinear_arith)
        requires
            bounded(oc, 2 * COORD_LIMIT as int),
            bounded(d, COORD_LIMIT as int),
            0 < radius <= COORD_LIMIT,
            COORD_LIMIT == 0x80_0000,
            dot_spec(oc, d) == oc.x * d.x + oc.y * d.y + oc.z * d.z,
            dot_spec(d, d) == d.x * d.x + d.y * d.y + d.z * d.z,
            dot_spec(oc, oc) == oc.x * oc.x + oc.y * oc.y + oc.z * oc.z,
    ;
    assert(0 <= dot_spec(oc, d) * dot_spec(oc, d) <= 0x4_0000_0000_0000_0000_0000_0000
        && -0x8_0000_0000_0000_0000_0000_0000 <= dot_spec(d, d) * (dot_spec(oc, oc) - radius
        * radius) <= 0x8_0000_0000_0000_0000_0000_0000) by (nonlinear_arith)
        requires
            -0x2_0000_0000_0000 <= dot_spec(oc, d) <= 0x2_0000_0000_0000,
            0 <= dot_spec(d, d) <= 0x1_0000_0000_0000,
            0 <= dot_spec(oc, oc) <= 0x4_0000_0000_0000,
            0 <= radius * radius <= 0x4000_0000_0000,
    ;
}

impl Sphere {
    pub fn new(center: Point, radius: i64, material: Material) -> (s: Sphere)
        ensures
            s == (Sphere { center, radius, material }),
    {
        Sphere { center, radius, material }
    }

    /// The closest intersection with parameter in `(t_min, t_max)`.
    pub fn hit(&self, ray: &Ray, t_min: i64, t_max: i64) -> (res: Option<HitRecord>)
        requires
            sphere_wf(self.center, self.radius),
            ray_wf(*ray),
        ensures
            res == sphere_hit_spec(
                self.center,
                self.radius,
                self.material,
                *ray,
                t_min as int,
                t_max as int,
            ),
    {
        sphere_hit_core(self.center, self.radius, self.material, ray, t_min, t_max)
    }

    /// The padded box around the sphere; it does not move, so the time
    /// interval is irrelevant.
    pub fn bounding_box(&self, _t0: i64, _t1: i64) -> (res: Aabb)
        requires
            sphere_wf(self.center, self.radius),
        ensures
            res == sphere_box_spec(self.center, self.radius),
            box_wf(res),
    {
        Aabb {
            min: Vec3 {
                x: self.center.x - self.radius - BOX_PAD,
                y: self.center.y - self.radius - BOX_PAD,
                z: self.center.z - self.radius - BOX_PAD,
            },
            max: Vec3 {
                x: self.center.x + self.radius + BOX_PAD,
                y: self.center.y + self.radius + BOX_PAD,
                z: self.center.z + self.radius + BOX_PAD,
            },
        }
    }
}

/// A returned sphere record's parameter lies in the query interval and its
/// point sits strictly inside the sphere's padded box.
pub proof fn lemma_sphere_range(
    center: Vec3,
    radius: i64,
    material: Material,
    r: Ray,
    tmin: int,
    tmax: int,
)
    requires
        -0x8000_0000_0000_0000 <= tmin,
        tmax <= 0x7fff_ffff_ffff_ffff,
    ensures
        sphere_hit_spec(center, radius, material, r, tmin, tmax) matches Some(h) ==> tmin < h.t
            < tmax && strict_inside(r, h.t as int, sphere_box_spec(center, radius)),
{
}

/// Narrowing the upper bound keeps the same sphere record when its
/// parameter survives, and yields nothing otherwise.
pub proof fn lemma_sphere_narrow(
    center: Vec3,
    radius: i64,
    material: Material,
    r: Ray,
    tmin: int,
    tmax: int,
    tmax2: int,
)
    requires
        tmax2 <= tmax,
        -0x8000_0000_0000_0000 <= tmin,
        tmax <= 0x7fff_ffff_ffff_ffff,
    ensures
        sphere_hit_spec(center, radius, material, r, tmin, tmax2) == (match sphere_hit_spec(
            center,
            radius,
            material,
            r,
            tmin,
            tmax,
        ) {
            Some(h) => if h.t < tmax2 {
                Some(h)
            } else {
                None::<HitRecord>
            },
            None => None::<HitRecord>,
        }),
{
    match sphere_roots(center, radius, r) {
        None => {
        },
        Some(ts) => {
            lemma_sphere_roots_ordered(center, radius, r);
        },
    }
}

/// The smaller root really is the smaller one.
proof fn lemma_sphere_roots_ordered(center: Vec3, radius: i64, r: Ray)
    ensures
        sphere_roots(center, radius, r) matches Some(ts) ==> ts.0 <= ts.1,
{
    if let Some(ts) = sphere_roots(center, radius, r) {
        let ocx = r.origin.x - center.x;
        let ocy = r.origin.y - center.y;
        let ocz = r.origin.z - center.z;
        let a = r.direction.x * r.direction.x + r.direction.y * r.direction.y + r.direction.z
            * r.direction.z;
        let hb = ocx * r.direction.x + ocy * r.direction.y + ocz * r.direction.z;
        let c0 = ocx * ocx + ocy * ocy + ocz * ocz - radius * radius;
        let disc = hb * hb - a * c0;
        assert(SCALE * SCALE * disc >= 0) by (nonlinear_arith)
            requires
                disc >= 0,
                SCALE == 1024,
        ;
        lemma_sqrt_exists(SCALE * SCALE * disc);
        let sq = sqrt_floor(SCALE * SCALE * disc);
        assert(a > 0) by (nonlinear_arith)
            requires
                a == r.direction.x * r.direction.x + r.direction.y * r.direction.y + r.direction.z
                    * r.direction.z,
                a != 0,
        ;
        lemma_fdiv_monotone(-(SCALE * hb) - sq, -(SCALE * hb) + sq, a);
    }
}

// ---------------------------------------------------------------------------
// Moving sphere
// ---------------------------------------------------------------------------

/// A sphere whose center slides linearly from `center0` at `time0` to
/// `center1` at `time1`; rays carry the time at which they sample it.
#[derive(Clone, Copy, PartialEq, Eq, Structural, Debug)]
pub struct MovingSphere {
    pub center0: Point,
    pub center1: Point,
    pub time0: i64,
    pub time1: i64,
    pub radius: i64,
    pub material: Material,
}

pub open spec fn moving_wf(ms: MovingSphere) -> bool {
    &&& in_range(ms.center0)
    &&& in_range(ms.center1)
    &&& 0 < ms.radius <= COORD_LIMIT
    &&& -COORD_LIMIT <= ms.time0 < ms.time1 <= COORD_LIMIT
}

pub open spec fn clamp_time_spec(ms: MovingSphere, t: int) -> int {
    if t < ms.time0 {
        ms.time0 as int
    } else if t > ms.time1 {
        ms.time1 as int
    } else {
        t
    }
}

/// The center at time `t`, clamped to the sphere's travel interval.
pub open spec fn center_at_spec(ms: MovingSphere, t: int) -> Vec3 {
    let dt = clamp_time_spec(ms, t) - ms.time0;
    let span = ms.time1 - ms.time0;
    Vec3 {
        x: (ms.center0.x + fdiv(dt * (ms.center1.x - ms.center0.x), span)) as i64,
        y: (ms.center0.y + fdiv(dt * (ms.center1.y - ms.center0.y), span)) as i64,
        z: (ms.center0.z + fdiv(dt * (ms.center1.z - ms.center0.z), span)) as i64,
    }
}

/// The box covering the sphere's whole travel: the surrounding box of its
/// boxes at the two endpoint times.
pub open spec fn moving_box_spec(ms: MovingSphere) -> Aabb {
    surrounding_box_spec(
        sphere_box_spec(ms.center0, ms.radius),
        sphere_box_spec(ms.center1, ms.radius),
    )
}

/// The sphere's extent over a queried interval: the union of its boxes at
/// the clamped endpoint times.
pub open spec fn moving_query_box_spec(ms: MovingSphere, t0: int, t1: int) -> Aabb {
    surrounding_box_spec(
        sphere_box_spec(center_at_spec(ms, t0), ms.radius),
        sphere_box_spec(center_at_spec(ms, t1), ms.radius),
    )
}

pub open spec fn moving_hit_spec(ms: MovingSphere, r: Ray, tmin: int, tmax: int) -> Option<
    HitRecord,
> {
    sphere_hit_spec(center_at_spec(ms, r.time as int), ms.radius, ms.material, r, tmin, tmax)
}

/// One component of the interpolated center stays between the endpoints.
proof fn lemma_lerp_between(c0: int, c1: int, dt: int, span: int)
    requires
        0 < span,
        0 <= dt <= span,
    ensures
        imin(c0, c1) <= c0 + fdiv(dt * (c1 - c0), span) <= imax(c0, c1),
{
    let d = c1 - c0;
    if d >= 0 {
        assert(0 <= dt * d <= span * d) by (nonlinear_arith)
            requires
                0 <= dt <= span,
                d >= 0,
        ;
        lemma_fdiv_monotone(0, dt * d, span);
        lemma_fdiv_monotone(dt * d, span * d, span);
        lemma_fdiv_exact(0, span);
        lemma_fdiv_exact(d, span);
    } else {
        assert(span * d <= dt * d <= 0) by (nonlinear_arith)
            requires
                0 <= dt <= span,
                d < 0,
        ;
        lemma_fdiv_monotone(dt * d, 0, span);
        lemma_fdiv_monotone(span * d, dt * d, span);
        lemma_fdiv_exact(0, span);
        lemma_fdiv_exact(d, span);
    }
}

/// The interpolated center stays between the endpoint centers on each
/// axis, so it is in range and its instantaneous box lies within the
/// travel box.
pub proof fn lemma_moving_center(ms: MovingSphere, t: int)
    requires
        moving_wf(ms),
    ensures
        in_range(center_at_spec(ms, t)),
        sphere_wf(center_at_spec(ms, t), ms.radius),
        contains_box(moving_box_spec(ms), sphere_box_spec(center_at_spec(ms, t), ms.radius)),
        box_wf(moving_box_spec(ms)),
{
    let dt = clamp_time_spec(ms, t) - ms.time0;
    let span = ms.time1 - ms.time0;
    lemma_lerp_between(ms.center0.x as int, ms.center1.x as int, dt, span);
    lemma_lerp_between(ms.center0.y as int, ms.center1.y as int, dt, span);
    lemma_lerp_between(ms.center0.z as int, ms.center1.z as int, dt, span);
}

impl MovingSphere {
    pub fn new(
        center0: Point,
        center1: Point,
        time0: i64,
        time1: i64,
        radius: i64,
        material: Material,
    ) -> (s: MovingSphere)
        ensures
            s == (MovingSphere { center0, center1, time0, time1, radius, material }),
    {
        MovingSphere { center0, center1, time0, time1, radius, material }
    }

    /// Where the center is when sampled at `time`.
    pub fn center_at(&self, time: i64) -> (c: Vec3)
        requires
            moving_wf(*self),
        ensures
            c == center_at_spec(*self, time as int),
            in_range(c),
    {
        let tc: i64 = if time < self.time0 {
            self.time0
        } else if time > self.time1 {
            self.time1
        } else {
            time
        };
        let dt: i64 = tc - self.time0;
        let span: i64 = self.time1 - self.time0;
        proof {
            assert(tc as int == clamp_time_spec(*self, time as int));
            lemma_moving_center(*self, time as int);
            lemma_lerp_between(
                self.center0.x as int,
                self.center1.x as int,
                dt as int,
                span as int,
            );
            lemma_lerp_between(
                self.center0.y as int,
                self.center1.y as int,
                dt as int,
                span as int,
            );
            lemma_lerp_between(
                self.center0.z as int,
                self.center1.z as int,
                dt as int,
                span as int,
            );
            crate::math::lemma_i64_mul_fits(dt as int, (self.center1.x - self.center0.x) as int);
            crate::math::lemma_i64_mul_fits(dt as int, (self.center1.y - self.center0.y) as int);
            crate::math::lemma_i64_mul_fits(dt as int, (self.center1.z - self.center0.z) as int);
        }
        let cx: i128 = (self.center0.x as i128) + floor_div_i128(
            (dt as i128) * ((self.center1.x as i128) - (self.center0.x as i128)),
            span as i128,
        );
        let cy: i128 = (self.center0.y as i128) + floor_div_i128(
            (dt as i128) * ((self.center1.y as i128) - (self.center0.y as i128)),
            span as i128,
        );
        let cz: i128 = (self.center0.z as i128) + floor_div_i128(
            (dt as i128) * ((self.center1.z as i128) - (self.center0.z as i128)),
            span as i128,
        );
        proof {
            assert(cx == center_at_spec(*self, time as int).x);
            assert(cy == center_at_spec(*self, time as int).y);
            assert(cz == center_at_spec(*self, time as int).z);
        }
        Vec3 { x: cx as i64, y: cy as i64, z: cz as i64 }
    }

    /// The closest intersection with the sphere at the ray's own time.
    pub fn hit(&self, ray: &Ray, t_min: i64, t_max: i64) -> (res: Option<HitRecord>)
        requires
            moving_wf(*self),
            ray_wf(*ray),
        ensures
            res == moving_hit_spec(*self, *ray, t_min as int, t_max as int),
    {
        let c = self.center_at(ray.time);
        proof {
            lemma_moving_center(*self, ray.time as int);
        }
        sphere_hit_core(c, self.radius, self.material, ray, t_min, t_max)
    }

    /// The spatial extent over the queried time interval: the union of the
    /// sphere's boxes at the two endpoint times, the travel clamped to the
    /// sphere's own exposure.
    pub fn bounding_box(&self, t0: i64, t1: i64) -> (res: Aabb)
        requires
            moving_wf(*self),
        ensures
            res == moving_query_box_spec(*self, t0 as int, t1 as int),
            box_wf(res),
            contains_box(moving_box_spec(*self), res),
    {
        proof {
            lemma_moving_center(*self, t0 as int);
            lemma_moving_center(*self, t1 as int);
        }
        let c0 = self.center_at(t0);
        let c1 = self.center_at(t1);
        let b0 = Aabb {
            min: Vec3 {
                x: c0.x - self.radius - BOX_PAD,
                y: c0.y - self.radius - BOX_PAD,
                z: c0.z - self.radius - BOX_PAD,
            },
            max: Vec3 {
                x: c0.x + self.radius + BOX_PAD,
                y: c0.y + self.radius + BOX_PAD,
                z: c0.z + self.radius + BOX_PAD,
            },
        };
        let b1 = Aabb {
            min: Vec3 {
                x: c1.x - self.radius - BOX_PAD,
                y: c1.y - self.radius - BOX_PAD,
                z: c1.z - self.radius - BOX_PAD,
            },
            max: Vec3 {
                x: c1.x + self.radius + BOX_PAD,
                y: c1.y + self.radius + BOX_PAD,
                z: c1.z + self.radius + BOX_PAD,
            },
        };
        b0.surrounding_box(&b1)
    }

    /// The box of the whole travel: what an acceleration structure stores,
    /// since it covers the hit point of every ray whatever its sample
    /// time.
    pub fn cover_box(&self) -> (res: Aabb)
        requires
            moving_wf(*self),
        ensures
            res == moving_box_spec(*self),
            box_wf(res),
    {
        let b0 = Aabb {
            min: Vec3 {
                x: self.center0.x - self.radius - BOX_PAD,
                y: self.center0.y - self.radius - BOX_PAD,
                z: self.center0.z - self.radius - BOX_PAD,
            },
            max: Vec3 {
                x: self.center0.x + self.radius + BOX_PAD,
                y: self.center0.y + self.radius + BOX_PAD,
                z: self.center0.z + self.radius + BOX_PAD,
            },
        };
        let b1 = Aabb {
            min: Vec3 {
                x: self.center1.x - self.radius - BOX_PAD,
                y: self.center1.y - self.radius - BOX_PAD,
                z: self.center1.z - self.radius - BOX_PAD,
            },
            max: Vec3 {
                x: self.center1.x + self.radius + BOX_PAD,
                y: self.center1.y + self.radius + BOX_PAD,
                z: self.center1.z + self.radius + BOX_PAD,
            },
        };
        b0.surrounding_box(&b1)
    }
}

// ---------------------------------------------------------------------------
// Axis-aligned rectangle
// ---------------------------------------------------------------------------

/// A rectangle in the plane `coordinate[axis] == k`, spanning `(a0, a1)`
/// and `(b0, b1)` on the two remaining axes in x-y-z order: `axis == 2` is
/// the classic xy-rectangle, `axis == 1` the xz one, `axis == 0` the yz
/// one.
#[derive(Clone, Copy, PartialEq, Eq, Structural, Debug)]
pub struct AxisRect {
    pub axis: u8,
    pub a0: i64,
    pub a1: i64,
    pub b0: i64,
    pub b1: i64,
    pub k: i64,
    pub material: Material,
}

pub open spec fn rect_wf(rc: AxisRect) -> bool {
    &&& rc.axis <= 2
    &&& -COORD_LIMIT <= rc.a0 < rc.a1 <= COORD_LIMIT
    &&& -COORD_LIMIT <= rc.b0 < rc.b1 <= COORD_LIMIT
    &&& -COORD_LIMIT <= rc.k <= COORD_LIMIT
}

pub open spec fn rect_a_axis(rc: AxisRect) -> int {
    if rc.axis == 0 {
        1
    } else {
        0
    }
}

pub open spec fn rect_b_axis(rc: AxisRect) -> int {
    if rc.axis == 2 {
        1
    } else {
        2
    }
}

/// The rectangle's box: flat on its own axis but padded by the rounding
/// slack.
pub open spec fn rect_box_spec(rc: AxisRect) -> Aabb {
    if rc.axis == 0 {
        Aabb {
            min: Vec3 { x: (rc.k - BOX_PAD) as i64, y: rc.a0, z: rc.b0 },
            max: Vec3 { x: (rc.k + BOX_PAD) as i64, y: rc.a1, z: rc.b1 },
        }
    } else if rc.axis == 1 {
        Aabb {
            min: Vec3 { x: rc.a0, y: (rc.k - BOX_PAD) as i64, z: rc.b0 },
            max: Vec3 { x: rc.a1, y: (rc.k + BOX_PAD) as i64, z: rc.b1 },
        }
    } else {
        Aabb {
            min: Vec3 { x: rc.a0, y: rc.b0, z: (rc.k - BOX_PAD) as i64 },
            max: Vec3 { x: rc.a1, y: rc.b1, z: (rc.k + BOX_PAD) as i64 },
        }
    }
}

/// The parameter at which the ray meets the rectangle's plane, rounded
/// down; `None` for a ray parallel to the plane.
pub open spec fn rect_t_spec(rc: AxisRect, r: Ray) -> Option<int> {
    let dk = comp(r.direction, rc.axis as int);
    let ok = comp(r.origin, rc.axis as int);
    if dk == 0 {
        None
    } else if dk > 0 {
        Some(fdiv(SCALE * (rc.k - ok), dk))
    } else {
        Some(fdiv(-(SCALE * (rc.k - ok)), -dk))
    }
}

pub open spec fn rect_normal_spec(rc: AxisRect) -> Vec3 {
    if rc.axis == 0 {
        Vec3 { x: SCALE, y: 0i64, z: 0i64 }
    } else if rc.axis == 1 {
        Vec3 { x: 0i64, y: SCALE, z: 0i64 }
    } else {
        Vec3 { x: 0i64, y: 0i64, z: SCALE }
    }
}

pub open spec fn rect_rec_spec(rc: AxisRect, r: Ray, t: int) -> HitRecord {
    let p = ray_point_spec(r, t);
    let u = fdiv(SCALE * (comp(p, rect_a_axis(rc)) - rc.a0), rc.a1 - rc.a0);
    let v = fdiv(SCALE * (comp(p, rect_b_axis(rc)) - rc.b0), rc.b1 - rc.b0);
    let ow = rect_normal_spec(rc);
    let front = comp(r.direction, rc.axis as int) < 0;
    let n = if front {
        ow
    } else {
        Vec3 { x: (-ow.x) as i64, y: (-ow.y) as i64, z: (-ow.z) as i64 }
    };
    HitRecord {
        point: p,
        normal: n,
        t: t as i64,
        u: u as i64,
        v: v as i64,
        front_face: front,
        material: rc.material,
    }
}

/// The single candidate intersection in the open interval, when its
/// rounded point lands strictly inside the rectangle's padded box.
pub open spec fn rect_hit_spec(rc: AxisRect, r: Ray, tmin: int, tmax: int) -> Option<HitRecord> {
    match rect_t_spec(rc, r) {
        None => None,
        Some(t) => if tmin < t < tmax && strict_inside(r, t, rect_box_spec(rc)) {
            Some(rect_rec_spec(rc, r, t))
        } else {
            None
        },
    }
}

impl AxisRect {
    /// The rectangle `z == k`, spanning `x0..x1` and `y0..y1`.
    pub fn xy_rect(x0: i64, x1: i64, y0: i64, y1: i64, k: i64, material: Material) -> (rc:
        AxisRect)
        ensures
            rc == (AxisRect { axis: 2u8, a0: x0, a1: x1, b0: y0, b1: y1, k, material }),
    {
        AxisRect { axis: 2, a0: x0, a1: x1, b0: y0, b1: y1, k, material }
    }

    /// The rectangle `y == k`, spanning `x0..x1` and `z0..z1`.
    pub fn xz_rect(x0: i64, x1: i64, z0: i64, z1: i64, k: i64, material: Material) -> (rc:
        AxisRect)
        ensures
            rc == (AxisRect { axis: 1u8, a0: x0, a1: x1, b0: z0, b1: z1, k, material }),
    {
        AxisRect { axis: 1, a0: x0, a1: x1, b0: z0, b1: z1, k, material }
    }

    /// The rectangle `x == k`, spanning `y0..y1` and `z0..z1`.
    pub fn yz_rect(y0: i64, y1: i64, z0: i64, z1: i64, k: i64, material: Material) -> (rc:
        AxisRect)
        ensures
            rc == (AxisRect { axis: 0u8, a0: y0, a1: y1, b0: z0, b1: z1, k, material }),
    {
        AxisRect { axis: 0, a0: y0, a1: y1, b0: z0, b1: z1, k, material }
    }

    pub fn bounding_box(&self, _t0: i64, _t1: i64) -> (res: Aabb)
        requires
            rect_wf(*self),
        ensures
            res == rect_box_spec(*self),
            box_wf(res),
    {
        if self.axis == 0 {
            Aabb {
                min: Vec3 { x: self.k - BOX_PAD, y: self.a0, z: self.b0 },
                max: Vec3 { x: self.k + BOX_PAD, y: self.a1, z: self.b1 },
            }
        } else if self.axis == 1 {
            Aabb {
                min: Vec3 { x: self.a0, y: self.k - BOX_PAD, z: self.b0 },
                max: Vec3 { x: self.a1, y: self.k + BOX_PAD, z: self.b1 },
            }
        } else {
            Aabb {
                min: Vec3 { x: self.a0, y: self.b0, z: self.k - BOX_PAD },
                max: Vec3 { x: self.a1, y: self.b1, z: self.k + BOX_PAD },
            }
        }
    }

    /// The intersection with the rectangle's plane, when it lies in the
    /// open interval and strictly inside the padded box.
    pub fn hit(&self, ray: &Ray, t_min: i64, t_max: i64) -> (res: Option<HitRecord>)
        requires
            rect_wf(*self),
            ray_wf(*ray),
        ensures
            res == rect_hit_spec(*self, *ray, t_min as int, t_max as int),
    {
        let dk: i64 = if self.axis == 0 {
            ray.direction.x
        } else if self.axis == 1 {
            ray.direction.y
        } else {
            ray.direction.z
        };
        let ok: i64 = if self.axis == 0 {
            ray.origin.x
        } else if self.axis == 1 {
            ray.origin.y
        } else {
            ray.origin.z
        };
        if dk == 0 {
            return None;
        }
        let num: i128 = (SCALE as i128) * ((self.k as i128) - (ok as i128));
        let t128: i128 = if dk > 0 {
            floor_div_i128(num, dk as i128)
        } else {
            floor_div_i128(-num, -(dk as i128))
        };
        if !((t_min as i128) < t128 && t128 < (t_max as i128)) {
            return None;
        }
        let t: i64 = t128 as i64;
        let bbox = self.bounding_box(0, 0);
        if !point_inside_check(ray, t, &bbox) {
            return None;
        }
        let p = make_point(ray, t, &bbox);
        proof {
            lemma_point_in_box(*ray, t as int, bbox);
            lemma_rect_uv_range(*self, *ray, t as int);
        }
        let pa: i64 = if self.axis == 0 {
            p.y
        } else {
            p.x
        };
        let pb: i64 = if self.axis == 2 {
            p.y
        } else {
            p.z
        };
        let u: i128 = floor_div_i128(
            (SCALE as i128) * ((pa as i128) - (self.a0 as i128)),
            (self.a1 as i128) - (self.a0 as i128),
        );
        let v: i128 = floor_div_i128(
            (SCALE as i128) * ((pb as i128) - (self.b0 as i128)),
            (self.b1 as i128) - (self.b0 as i128),
        );
        let ow = if self.axis == 0 {
            Vec3 { x: SCALE, y: 0, z: 0 }
        } else if self.axis == 1 {
            Vec3 { x: 0, y: SCALE, z: 0 }
        } else {
            Vec3 { x: 0, y: 0, z: SCALE }
        };
        let front = dk < 0;
        let n = if front {
            ow
        } else {
            ow.neg()
        };
        Some(
            HitRecord {
                point: p,
                normal: n,
                t,
                u: u as i64,
                v: v as i64,
                front_face: front,
                material: self.material,
            },
        )
    }
}

/// Texture coordinates of a point inside the rectangle's box fall in
/// `[0, SCALE]`.
proof fn lemma_rect_uv_range(rc: AxisRect, r: Ray, t: int)
    requires
        rect_wf(rc),
        strict_inside(r, t, rect_box_spec(rc)),
    ensures
        0 <= fdiv(SCALE * (comp(ray_point_spec(r, t), rect_a_axis(rc)) - rc.a0), rc.a1 - rc.a0)
            <= SCALE,
        0 <= fdiv(SCALE * (comp(ray_point_spec(r, t), rect_b_axis(rc)) - rc.b0), rc.b1 - rc.b0)
            <= SCALE,
{
    lemma_point_in_box(r, t, rect_box_spec(rc));
    let pa = comp(ray_point_spec(r, t), rect_a_axis(rc));
    let pb = comp(ray_point_spec(r, t), rect_b_axis(rc));
    assert(rc.a0 <= pa <= rc.a1);
    assert(rc.b0 <= pb <= rc.b1);
    lemma_uv_bound(pa - rc.a0, rc.a1 - rc.a0);
    lemma_uv_bound(pb - rc.b0, rc.b1 - rc.b0);
}

proof fn lemma_uv_bound(off: int, width: int)
    requires
        0 < width,
        0 <= off <= width,
    ensures
        0 <= fdiv(SCALE * off, width) <= SCALE,
{
    assert(0 <= SCALE * off <= SCALE * width) by (nonlinear_arith)
        requires
            0 <= off <= width,
            SCALE == 1024,
    ;
    lemma_fdiv_monotone(0, SCALE * off, width);
    lemma_fdiv_monotone(SCALE * off, SCALE * width, width);
    lemma_fdiv_exact(0, width);
    lemma_fdiv_exact(SCALE as int, width);
    assert(width * SCALE == SCALE * width) by (nonlinear_arith);
}

/// A returned rectangle record's parameter lies in the query interval and
/// its point sits strictly inside the rectangle's padded box.
pub proof fn lemma_rect_range(rc: AxisRect, r: Ray, tmin: int, tmax: int)
    requires
        -0x8000_0000_0000_0000 <= tmin,
        tmax <= 0x7fff_ffff_ffff_ffff,
    ensures
        rect_hit_spec(rc, r, tmin, tmax) matches Some(h) ==> tmin < h.t < tmax && strict_inside(
            r,
            h.t as int,
            rect_box_spec(rc),
        ),
{
}

/// Narrowing the upper bound keeps the same rectangle record when its
/// parameter survives, and yields nothing otherwise.
pub proof fn lemma_rect_narrow(rc: AxisRect, r: Ray, tmin: int, tmax: int, tmax2: int)
    requires
        tmax2 <= tmax,
        -0x8000_0000_0000_0000 <= tmin,
        tmax <= 0x7fff_ffff_ffff_ffff,
    ensures
        rect_hit_spec(rc, r, tmin, tmax2) == (match rect_hit_spec(rc, r, tmin, tmax) {
            Some(h) => if h.t < tmax2 {
                Some(h)
            } else {
                None::<HitRecord>
            },
            None => None::<HitRecord>,
        }),
{
}

// ---------------------------------------------------------------------------
// Object: the closed sum of leaf primitives
// ---------------------------------------------------------------------------

/// The closed set of leaf primitives a scene list or a BVH can hold,
/// dispatched by pattern matching.
#[derive(Clone, Copy, PartialEq, Eq, Structural, Debug)]
pub enum Object {
    Sphere(Sphere),
    MovingSphere(MovingSphere),
    Rect(AxisRect),
}

pub open spec fn obj_wf(o: Object) -> bool {
    match o {
        Object::Sphere(s) => sphere_wf(s.center, s.radius),
        Object::MovingSphere(ms) => moving_wf(ms),
        Object::Rect(rc) => rect_wf(rc),
    }
}

/// The box the object hands to a list or BVH: it covers every point any
/// hit can return, at any ray time.
pub open spec fn obj_bbox(o: Object) -> Aabb {
    match o {
        Object::Sphere(s) => sphere_box_spec(s.center, s.radius),
        Object::MovingSphere(ms) => moving_box_spec(ms),
        Object::Rect(rc) => rect_box_spec(rc),
    }
}

/// The object's spatial extent over a queried time interval; only the
/// moving sphere's box depends on it.
pub open spec fn obj_query_box(o: Object, t0: int, t1: int) -> Aabb {
    match o {
        Object::Sphere(s) => sphere_box_spec(s.center, s.radius),
        Object::MovingSphere(ms) => moving_query_box_spec(ms, t0, t1),
        Object::Rect(rc) => rect_box_spec(rc),
    }
}

/// What `Object::hit` returns.
pub open spec fn obj_hit(o: Object, r: Ray, tmin: int, tmax: int) -> Option<HitRecord> {
    match o {
        Object::Sphere(s) => sphere_hit_spec(s.center, s.radius, s.material, r, tmin, tmax),
        Object::MovingSphere(ms) => moving_hit_spec(ms, r, tmin, tmax),
        Object::Rect(rc) => rect_hit_spec(rc, r, tmin, tmax),
    }
}

/// A returned record's parameter lies in the query interval and its point
/// sits strictly inside the object's bounding box.
pub proof fn lemma_obj_range(o: Object, r: Ray, tmin: int, tmax: int)
    requires
        obj_wf(o),
        -0x8000_0000_0000_0000 <= tmin,
        tmax <= 0x7fff_ffff_ffff_ffff,
    ensures
        obj_hit(o, r, tmin, tmax) matches Some(h) ==> tmin < h.t < tmax && strict_inside(
            r,
            h.t as int,
            obj_bbox(o),
        ),
{
    match o {
        Object::Sphere(s) => {
            lemma_sphere_range(s.center, s.radius, s.material, r, tmin, tmax);
        },
        Object::MovingSphere(ms) => {
            let c = center_at_spec(ms, r.time as int);
            lemma_sphere_range(c, ms.radius, ms.material, r, tmin, tmax);
            lemma_moving_center(ms, r.time as int);
            if let Some(h) = obj_hit(o, r, tmin, tmax) {
                lemma_strict_inside_monotone(
                    r,
                    h.t as int,
                    sphere_box_spec(c, ms.radius),
                    moving_box_spec(ms),
                );
            }
        },
        Object::Rect(rc) => {
            lemma_rect_range(rc, r, tmin, tmax);
        },
    }
}

/// Narrowing the upper bound keeps the same record when its parameter
/// survives, and yields nothing otherwise.
pub proof fn lemma_obj_narrow(o: Object, r: Ray, tmin: int, tmax: int, tmax2: int)
    requires
        obj_wf(o),
        tmax2 <= tmax,
        -0x8000_0000_0000_0000 <= tmin,
        tmax <= 0x7fff_ffff_ffff_ffff,
    ensures
        obj_hit(o, r, tmin, tmax2) == (match obj_hit(o, r, tmin, tmax) {
            Some(h) => if h.t < tmax2 {
                Some(h)
            } else {
                None::<HitRecord>
            },
            None => None::<HitRecord>,
        }),
{
    match o {
        Object::Sphere(s) => {
            lemma_sphere_narrow(s.center, s.radius, s.material, r, tmin, tmax, tmax2);
        },
        Object::MovingSphere(ms) => {
            let c = center_at_spec(ms, r.time as int);
            lemma_sphere_narrow(c, ms.radius, ms.material, r, tmin, tmax, tmax2);
        },
        Object::Rect(rc) => {
            lemma_rect_narrow(rc, r, tmin, tmax, tmax2);
        },
    }
}

impl Object {
    /// The closest intersection with parameter in `(t_min, t_max)`.
    pub fn hit(&self, ray: &Ray, t_min: i64, t_max: i64) -> (res: Option<HitRecord>)
        requires
            obj_wf(*self),
            ray_wf(*ray),
        ensures
            res == obj_hit(*self, *ray, t_min as int, t_max as int),
    {
        match self {
            Object::Sphere(s) => s.hit(ray, t_min, t_max),
            Object::MovingSphere(ms) => ms.hit(ray, t_min, t_max),
            Object::Rect(rc) => rc.hit(ray, t_min, t_max),
        }
    }

    /// The object's spatial extent over the queried time interval; every
    /// leaf here is bounded. The result always lies within the object's
    /// whole-exposure cover box.
    pub fn bounding_box(&self, t0: i64, t1: i64) -> (res: Aabb)
        requires
            obj_wf(*self),
        ensures
            res == obj_query_box(*self, t0 as int, t1 as int),
            box_wf(res),
            contains_box(obj_bbox(*self), res),
    {
        match self {
            Object::Sphere(s) => s.bounding_box(t0, t1),
            Object::MovingSphere(ms) => ms.bounding_box(t0, t1),
            Object::Rect(rc) => rc.bounding_box(t0, t1),
        }
    }

    /// The box covering every point any hit can return, at any sample
    /// time: what an acceleration structure stores.
    pub fn cover_box(&self) -> (res: Aabb)
        requires
            obj_wf(*self),
        ensures
            res == obj_bbox(*self),
            box_wf(res),
    {
        match self {
            Object::Sphere(s) => s.bounding_box(0, 0),
            Object::MovingSphere(ms) => ms.cover_box(),
            Object::Rect(rc) => rc.bounding_box(0, 0),
        }
    }

    /// Light-sampling weight of this object as seen from `origin` along
    /// `direction`. None of these primitives implements importance
    /// sampling, so the default weight is zero; a correct caller never
    /// consults it for a non-light.
    pub fn pdf_value(&self, _origin: &Point, _direction: &Vec3) -> (r: i64)
        ensures
            r == 0,
    {
        0
    }

    /// A direction toward this object from `origin` for light sampling;
    /// the default is an arbitrary fixed direction, never consulted for
    /// non-lights.
    pub fn random(&self, _origin: &Point) -> (r: Vec3)
        ensures
            r == (Vec3 { x: 0i64, y: SCALE, z: 0i64 }),
    {
        Vec3 { x: 0, y: SCALE, z: 0 }
    }
}

} // verus!
