//! The closed set of surface materials, their emission rule and the
//! scattering density used for importance-sampling weights.

use vstd::prelude::*;
use crate::math::{SCALE, fdiv, sqrt_floor, isqrt_u128, floor_div_i128, lemma_fdiv_monotone,
    lemma_fdiv_exact, lemma_sqrt_floor_square};
use crate::vec3::{Vec3, Color, bounded, in_range, dot_spec, normalize_spec};
use crate::ray::Ray;
use crate::hit_record::HitRecord;
use crate::sampling::{random_in_unit_sphere, random_in_unit_disk, random_unit};

verus! {

/// Pi at the fixed-point scale.
pub const PI_FP: i64 = 3217;

/// The library's closed set of color lookups. Anything richer (procedural
/// noise, images) lives with the caller, which bakes it down to a solid
/// color per primitive.
#[derive(Clone, Copy, PartialEq, Eq, Structural, Debug)]
pub enum Texture {
    Solid(Color),
    /// Alternating world-unit cells of two colors.
    Checker(Color, Color),
}

/// What `Texture::value` returns at a surface point.
pub open spec fn texture_value_spec(t: Texture, p: Vec3) -> Color {
    match t {
        Texture::Solid(c) => c,
        Texture::Checker(c0, c1) => {
            let cell = fdiv(p.x as int, SCALE as int) + fdiv(p.y as int, SCALE as int) + fdiv(
                p.z as int,
                SCALE as int,
            );
            if cell - 2 * fdiv(cell, 2) == 0 {
                c0
            } else {
                c1
            }
        },
    }
}

impl Texture {
    /// The color this texture shows at surface point `p` (the `u, v`
    /// coordinates are not consulted by these lookups).
    pub fn value(&self, _u: i64, _v: i64, p: &Vec3) -> (c: Color)
        requires
            bounded(*p, 2 * crate::aabb::BOX_LIMIT as int),
        ensures
            c == texture_value_spec(*self, *p),
    {
        match self {
            Texture::Solid(c) => *c,
            Texture::Checker(c0, c1) => {
                let cx: i128 = floor_div_i128(p.x as i128, SCALE as i128);
                let cy: i128 = floor_div_i128(p.y as i128, SCALE as i128);
                let cz: i128 = floor_div_i128(p.z as i128, SCALE as i128);
                let cell: i128 = cx + cy + cz;
                let half: i128 = floor_div_i128(cell, 2);
                if cell - 2 * half == 0 {
                    *c0
                } else {
                    *c1
                }
            },
        }
    }
}

/// A closed, non-extensible set of surface behaviors. A value is attached
/// to one primitive and shared by copy.
#[derive(Clone, Copy, PartialEq, Eq, Structural, Debug)]
pub enum Material {
    /// Visualizes the surface normal as a pseudo-emission; never scatters.
    Normal,
    Lambertian(Color),
    LambertianTexture(Texture),
    /// Albedo and a fuzz radius in fixed-point units, clamped to one unit.
    Metal(Color, i64),
    /// Refractive index in fixed-point units (`SCALE` is an index of 1).
    Dielectric(i64),
    DiffuseLight(Color),
    DiffuseLightTexture(Texture),
    Isotropic(Color),
}

/// What `Material::emitted` returns: emissive variants glow on their front
/// face and nothing emits from the back; the normal-debug variant shows
/// the surface normal as a pseudo-emission.
pub open spec fn emitted_spec(m: Material, h: HitRecord, p: Vec3) -> Color {
    if h.front_face {
        match m {
            Material::Normal => h.normal,
            Material::DiffuseLight(c) => c,
            Material::DiffuseLightTexture(t) => texture_value_spec(t, p),
            _ => Vec3 { x: 0i64, y: 0i64, z: 0i64 },
        }
    } else {
        Vec3 { x: 0i64, y: 0i64, z: 0i64 }
    }
}

/// The Lambertian scattering density at a scattered direction:
/// `max(0, cos theta) / pi`, over the unit vector of the direction; other
/// materials report no density.
pub open spec fn scattering_pdf_spec(m: Material, h: HitRecord, scattered: Ray) -> int {
    match m {
        Material::Lambertian(_) | Material::LambertianTexture(_) => {
            if dot_spec(scattered.direction, scattered.direction) == 0 {
                0
            } else {
                let c = dot_spec(h.normal, normalize_spec(scattered.direction));
                if c < 0 {
                    0
                } else {
                    fdiv(c, PI_FP as int)
                }
            }
        },
        _ => 0,
    }
}

impl Material {
    /// The light this material emits at a hit: only front-face hits on an
    /// emissive variant contribute.
    pub fn emitted(&self, _ray_in: &Ray, hit_record: &HitRecord, u: i64, v: i64, point: Vec3) -> (c:
        Color)
        requires
            bounded(point, 2 * crate::aabb::BOX_LIMIT as int),
        ensures
            c == emitted_spec(*self, *hit_record, point),
    {
        if hit_record.front_face {
            match self {
                Material::Normal => hit_record.normal,
                Material::DiffuseLight(c) => *c,
                Material::DiffuseLightTexture(t) => t.value(u, v, &point),
                _ => Vec3 { x: 0, y: 0, z: 0 },
            }
        } else {
            Vec3 { x: 0, y: 0, z: 0 }
        }
    }

    /// The density with which the diffuse materials scatter into a
    /// direction, used to weigh importance samples; zero for every other
    /// variant.
    pub fn scattering_pdf(&self, _ray_in: &Ray, hit_record: &HitRecord, scattered: &Ray) -> (r: i64)
        requires
            bounded(hit_record.normal, 4 * SCALE as int),
            in_range(scattered.direction),
        ensures
            r == scattering_pdf_spec(*self, *hit_record, *scattered),
            0 <= r <= 4 * SCALE,
    {
        match self {
            Material::Lambertian(_) | Material::LambertianTexture(_) => {
                cosine_density(&hit_record.normal, &scattered.direction)
            },
            _ => 0,
        }
    }
}

/// The cosine density against an axis `w`.
fn cosine_density(w: &Vec3, direction: &Vec3) -> (r: i64)
    requires
        bounded(*w, 4 * SCALE as int),
        in_range(*direction),
    ensures
        r == ({
            if dot_spec(*direction, *direction) == 0 {
                0int
            } else {
                let c = dot_spec(*w, normalize_spec(*direction));
                if c < 0 {
                    0int
                } else {
                    fdiv(c, PI_FP as int)
                }
            }
        }),
        0 <= r <= 4 * SCALE,
{
    let d2: i128 = direction.dot(direction);
    proof {
        lemma_dot_self_nonneg(*direction);
    }
    if d2 == 0 {
        return 0;
    }
    let unit = direction.normalize();
    let c: i128 = w.dot(&unit);
    if c < 0 {
        return 0;
    }
    proof {
        assert(c < PI_FP * (4 * SCALE as int)) by (nonlinear_arith)
            requires
                c == dot_spec(*w, normalize_spec(*direction)),
                dot_spec(*w, normalize_spec(*direction)) == w.x * normalize_spec(*direction).x + w.y
                    * normalize_spec(*direction).y + w.z * normalize_spec(*direction).z,
                bounded(*w, 4 * SCALE as int),
                bounded(normalize_spec(*direction), SCALE as int + 1),
                SCALE == 1024,
                PI_FP == 3217,
        ;
        if c == 0 {
            crate::math::lemma_fdiv_exact(0, PI_FP as int);
        } else {
            crate::math::lemma_fdiv_between(c as int, 0, 4 * SCALE as int, PI_FP as int);
        }
    }
    let r: i128 = floor_div_i128(c, PI_FP as i128);
    r as i64
}

proof fn lemma_dot_self_nonneg(v: Vec3)
    ensures
        dot_spec(v, v) >= 0,
{
    assert(v.x * v.x + v.y * v.y + v.z * v.z >= 0) by (nonlinear_arith);
}

// ---------------------------------------------------------------------------
// Specular optics: mirror reflection, Snell refraction, Schlick reflectance
// ---------------------------------------------------------------------------

/// The unit vector of the incoming ray's direction.
pub open spec fn unit_in(r: Ray) -> Vec3 {
    normalize_spec(r.direction)
}

/// What `reflect` returns: the exact scaled mirror image
/// `v * (n . n) - 2 (v . n) n`, divided back to the fixed-point grid.
pub open spec fn reflect_spec(v: Vec3, n: Vec3) -> Vec3 {
    let nn = dot_spec(n, n);
    let vn = dot_spec(v, n);
    Vec3 {
        x: fdiv(v.x * nn - 2 * vn * n.x, nn) as i64,
        y: fdiv(v.y * nn - 2 * vn * n.y, nn) as i64,
        z: fdiv(v.z * nn - 2 * vn * n.z, nn) as i64,
    }
}

/// The law of reflection, exactly: scaling the mirror construction by the
/// normal's squared length keeps it in the integers, where the reflected
/// vector decomposes into the incoming vector's tangential part unchanged
/// and its normal part negated — angle of incidence equals angle of
/// reflection. The executable `reflect` returns this vector divided back
/// down to the fixed-point grid.
pub proof fn lemma_metal_reflection_law(v: Vec3, n: Vec3)
    ensures
        ({
            let nn = dot_spec(n, n);
            let vn = dot_spec(v, n);
            let rx = v.x * nn - 2 * vn * n.x;
            let ry = v.y * nn - 2 * vn * n.y;
            let rz = v.z * nn - 2 * vn * n.z;
            let tx = v.x * nn - vn * n.x;
            let ty = v.y * nn - vn * n.y;
            let tz = v.z * nn - vn * n.z;
            // the tangential part is orthogonal to the normal
            tx * n.x + ty * n.y + tz * n.z == 0
            // the incoming vector splits into tangential plus normal parts
            && v.x * nn == tx + vn * n.x && v.y * nn == ty + vn * n.y && v.z * nn == tz + vn * n.z
            // the reflection keeps the tangential part and negates the normal part
            && rx == tx - vn * n.x && ry == ty - vn * n.y && rz == tz - vn * n.z
            // so its scaled cosine against the normal is equal and opposite
            && rx * n.x + ry * n.y + rz * n.z == -(vn * nn)
        }),
{
    let nn = dot_spec(n, n);
    let vn = dot_spec(v, n);
    let tx = v.x * nn - vn * n.x;
    let ty = v.y * nn - vn * n.y;
    let tz = v.z * nn - vn * n.z;
    assert(tx * n.x == (v.x * n.x) * nn - vn * (n.x * n.x)) by (nonlinear_arith)
        requires
            tx == v.x * nn - vn * n.x,
    ;
    assert(ty * n.y == (v.y * n.y) * nn - vn * (n.y * n.y)) by (nonlinear_arith)
        requires
            ty == v.y * nn - vn * n.y,
    ;
    assert(tz * n.z == (v.z * n.z) * nn - vn * (n.z * n.z)) by (nonlinear_arith)
        requires
            tz == v.z * nn - vn * n.z,
    ;
    assert((v.x * n.x) * nn + (v.y * n.y) * nn + (v.z * n.z) * nn == vn * nn) by (nonlinear_arith)
        requires
            vn == v.x * n.x + v.y * n.y + v.z * n.z,
    ;
    assert(vn * (n.x * n.x) + vn * (n.y * n.y) + vn * (n.z * n.z) == vn * nn) by (nonlinear_arith)
        requires
            nn == n.x * n.x + n.y * n.y + n.z * n.z,
    ;
    assert(tx * n.x + ty * n.y + tz * n.z == 0);
    let rx = v.x * nn - 2 * vn * n.x;
    let ry = v.y * nn - 2 * vn * n.y;
    let rz = v.z * nn - 2 * vn * n.z;
    assert(rx == tx - vn * n.x && ry == ty - vn * n.y && rz == tz - vn * n.z) by (nonlinear_arith)
        requires
            rx == v.x * nn - 2 * vn * n.x,
            ry == v.y * nn - 2 * vn * n.y,
            rz == v.z * nn - 2 * vn * n.z,
            tx == v.x * nn - vn * n.x,
            ty == v.y * nn - vn * n.y,
            tz == v.z * nn - vn * n.z,
    ;
    assert(rx * n.x == tx * n.x - vn * (n.x * n.x)) by (nonlinear_arith)
        requires
            rx == tx - vn * n.x,
    ;
    assert(ry * n.y == ty * n.y - vn * (n.y * n.y)) by (nonlinear_arith)
        requires
            ry == ty - vn * n.y,
    ;
    assert(rz * n.z == tz * n.z - vn * (n.z * n.z)) by (nonlinear_arith)
        requires
            rz == tz - vn * n.z,
    ;
}

/// Mirror reflection of `v` about `n`. The normal must not be close to
/// degenerate, so the division back to the grid stays bounded.
fn reflect(v: &Vec3, n: &Vec3) -> (r: Vec3)
    requires
        bounded(*v, 2 * SCALE as int),
        bounded(*n, 2 * SCALE as int),
        dot_spec(*n, *n) >= 0x4_0000,
    ensures
        r == reflect_spec(*v, *n),
        bounded(r, 0x20_0000),
{
    let nn: i128 = n.dot(n);
    let vn: i128 = v.dot(n);
    proof {
        lemma_reflect_bounds(*v, *n);
    }
    let rx: i128 = floor_div_i128((v.x as i128) * nn - 2 * vn * (n.x as i128), nn);
    let ry: i128 = floor_div_i128((v.y as i128) * nn - 2 * vn * (n.y as i128), nn);
    let rz: i128 = floor_div_i128((v.z as i128) * nn - 2 * vn * (n.z as i128), nn);
    Vec3 { x: rx as i64, y: ry as i64, z: rz as i64 }
}

proof fn lemma_reflect_bounds(v: Vec3, n: Vec3)
    requires
        bounded(v, 2 * SCALE as int),
        bounded(n, 2 * SCALE as int),
        dot_spec(n, n) >= 0x4_0000,
    ensures
        ({
            let nn = dot_spec(n, n);
            let vn = dot_spec(v, n);
            &&& 0x4_0000 <= nn <= 0x100_0000
            &&& -0x100_0000 <= vn <= 0x100_0000
            &&& -0x80_0000_0000 <= v.x * nn - 2 * vn * n.x <= 0x80_0000_0000
            &&& -0x80_0000_0000 <= v.y * nn - 2 * vn * n.y <= 0x80_0000_0000
            &&& -0x80_0000_0000 <= v.z * nn - 2 * vn * n.z <= 0x80_0000_0000
            &&& -0x40_0000_0000 <= v.x * nn <= 0x40_0000_0000
            &&& -0x40_0000_0000 <= v.y * nn <= 0x40_0000_0000
            &&& -0x40_0000_0000 <= v.z * nn <= 0x40_0000_0000
            &&& -0x10_0000_0000 <= vn * n.x <= 0x10_0000_0000
            &&& -0x10_0000_0000 <= vn * n.y <= 0x10_0000_0000
            &&& -0x10_0000_0000 <= vn * n.z <= 0x10_0000_0000
            &&& -0x20_0000 <= fdiv(v.x * nn - 2 * vn * n.x, nn) <= 0x20_0000
            &&& -0x20_0000 <= fdiv(v.y * nn - 2 * vn * n.y, nn) <= 0x20_0000
            &&& -0x20_0000 <= fdiv(v.z * nn - 2 * vn * n.z, nn) <= 0x20_0000
        }),
{
    let nn = dot_spec(n, n);
    let vn = dot_spec(v, n);
    assert(nn <= 0x100_0000 && -0x100_0000 <= vn <= 0x100_0000) by (nonlinear_arith)
        requires
            nn == n.x * n.x + n.y * n.y + n.z * n.z,
            vn == v.x * n.x + v.y * n.y + v.z * n.z,
            bounded(v, 2 * SCALE as int),
            bounded(n, 2 * SCALE as int),
            SCALE == 1024,
    ;
    lemma_reflect_bound_one(v.x as int, n.x as int, nn, vn);
    lemma_reflect_bound_one(v.y as int, n.y as int, nn, vn);
    lemma_reflect_bound_one(v.z as int, n.z as int, nn, vn);
}

proof fn lemma_reflect_bound_one(vx: int, nx: int, nn: int, vn: int)
    requires
        -2 * SCALE <= vx <= 2 * SCALE,
        -2 * SCALE <= nx <= 2 * SCALE,
        0x4_0000 <= nn <= 0x100_0000,
        -0x100_0000 <= vn <= 0x100_0000,
    ensures
        -0x80_0000_0000 <= vx * nn - 2 * vn * nx <= 0x80_0000_0000,
        -0x40_0000_0000 <= vx * nn <= 0x40_0000_0000,
        -0x10_0000_0000 <= vn * nx <= 0x10_0000_0000,
        -0x20_0000 <= fdiv(vx * nn - 2 * vn * nx, nn) <= 0x20_0000,
{
    assert(-0x40_0000_0000 <= vx * nn <= 0x40_0000_0000 && -0x10_0000_0000 <= vn * nx
        <= 0x10_0000_0000 && -0x80_0000_0000 <= vx * nn - 2 * vn * nx <= 0x80_0000_0000 && -(nn
        * 0x20_0000) < vx * nn - 2 * vn * nx && vx * nn - 2 * vn * nx < nn * 0x20_0000)
        by (nonlinear_arith)
        requires
            -2 * SCALE <= vx <= 2 * SCALE,
            -2 * SCALE <= nx <= 2 * SCALE,
            0x4_0000 <= nn <= 0x100_0000,
            -0x100_0000 <= vn <= 0x100_0000,
            SCALE == 1024,
    ;
    crate::math::lemma_fdiv_between(vx * nn - 2 * vn * nx, -0x20_0000, 0x20_0000, nn);
}

/// The refraction ratio a dielectric of index `ri` presents: inverted when
/// the ray strikes the outward face.
pub open spec fn eta_spec(ri: i64, front_face: bool) -> int {
    if front_face {
        fdiv(SCALE * (SCALE as int), ri as int)
    } else {
        ri as int
    }
}

/// Whether total internal reflection forces the reflective branch, over
/// the unit incoming direction `v`, the oriented normal `n` and the
/// refraction ratio `eta` (fixed-point).
pub open spec fn tir_spec(v: Vec3, n: Vec3, eta: int) -> bool {
    let cos0 = -dot_spec(v, n);
    let cos = if cos0 > SCALE * SCALE {
        (SCALE * SCALE) as int
    } else {
        cos0
    };
    let s4 = SCALE * SCALE * SCALE * (SCALE as int);
    eta * eta * (s4 - cos * cos) > s4 * SCALE * SCALE
}

/// What refraction returns: Snell's construction carried out at the fixed
/// scale, with the square root taken on the integer grid.
pub open spec fn refract_spec(v: Vec3, n: Vec3, eta: int) -> Vec3 {
    let cos0 = -dot_spec(v, n);
    let cos = if cos0 > SCALE * SCALE {
        (SCALE * SCALE) as int
    } else {
        cos0
    };
    let s4 = SCALE * SCALE * SCALE * (SCALE as int);
    let d4 = s4 - fdiv(eta * eta * (s4 - cos * cos), SCALE * SCALE);
    let sq = sqrt_floor(d4);
    Vec3 {
        x: fdiv(
            eta * (SCALE * SCALE * v.x + cos * n.x) - SCALE * sq * n.x,
            SCALE * SCALE * (SCALE as int),
        ) as i64,
        y: fdiv(
            eta * (SCALE * SCALE * v.y + cos * n.y) - SCALE * sq * n.y,
            SCALE * SCALE * (SCALE as int),
        ) as i64,
        z: fdiv(
            eta * (SCALE * SCALE * v.z + cos * n.z) - SCALE * sq * n.z,
            SCALE * SCALE * (SCALE as int),
        ) as i64,
    }
}

/// Refraction by Snell's law. The caller has ruled out total internal
/// reflection and a ray striking from behind the oriented normal.
fn refract(v: &Vec3, n: &Vec3, eta: i64) -> (r: Vec3)
    requires
        bounded(*v, 2 * SCALE as int),
        bounded(*n, 2 * SCALE as int),
        0 < eta <= 32 * SCALE,
        0 <= -dot_spec(*v, *n),
        !tir_spec(*v, *n, eta as int),
    ensures
        r == refract_spec(*v, *n, eta as int),
        bounded(r, 0x8_0000),
{
    proof {
        assert(-0x100_0000 <= dot_spec(*v, *n) <= 0x100_0000) by (nonlinear_arith)
            requires
                dot_spec(*v, *n) == v.x * n.x + v.y * n.y + v.z * n.z,
                bounded(*v, 2 * SCALE as int),
                bounded(*n, 2 * SCALE as int),
                SCALE == 1024,
        ;
    }
    let cos0: i128 = -(v.dot(n));
    let s2: i128 = (SCALE as i128) * (SCALE as i128);
    proof {
        assert(s2 == 0x10_0000) by (nonlinear_arith)
            requires
                s2 == (SCALE as int) * (SCALE as int),
                SCALE == 1024,
        ;
    }
    let cos: i128 = if cos0 > s2 {
        s2
    } else {
        cos0
    };
    let s4: i128 = s2 * s2;
    proof {
        assert(0 <= cos <= 0x10_0000);
        assert(s4 == 0x100_0000_0000) by (nonlinear_arith)
            requires
                s2 == 0x10_0000,
                s4 == s2 * s2,
        ;
        assert(0 < (eta as int) * (eta as int) <= 0x4000_0000 && 0 <= cos * cos <= 0x100_0000_0000)
            by (nonlinear_arith)
            requires
                0 < eta <= 32 * SCALE,
                0 <= cos <= 0x10_0000,
                SCALE == 1024,
        ;
        assert(0 <= (eta as int) * (eta as int) * (s4 - cos * cos)
            <= 0x1000_0000_0000_0000_0000_0000) by (nonlinear_arith)
            requires
                0 < (eta as int) * (eta as int) <= 0x4000_0000,
                0 <= cos * cos <= 0x100_0000_0000,
                s4 == 0x100_0000_0000,
        ;
    }
    let sin_term: i128 = (eta as i128) * (eta as i128) * (s4 - cos * cos);
    proof {
        assert(sin_term <= s4 * s2) by {
            assert(!((eta as int) * (eta as int) * ((SCALE * SCALE * SCALE * (SCALE as int)) - (
            cos as int) * (cos as int)) > (SCALE * SCALE * SCALE * (SCALE as int)) * SCALE * SCALE));
            assert(s4 * s2 == (SCALE * SCALE * SCALE * (SCALE as int)) * SCALE * SCALE)
                by (nonlinear_arith)
                requires
                    s4 == SCALE * SCALE * SCALE * (SCALE as int),
                    s2 == SCALE * SCALE,
            ;
        }
        lemma_fdiv_monotone(sin_term as int, (s4 * s2) as int, s2 as int);
        lemma_fdiv_exact(s4 as int, s2 as int);
        assert(s2 * s4 == s4 * s2) by (nonlinear_arith);
        lemma_fdiv_monotone(0, sin_term as int, s2 as int);
        lemma_fdiv_exact(0, s2 as int);
    }
    let d4: i128 = s4 - floor_div_i128(sin_term, s2);
    proof {
        assert(0 <= d4 <= s4);
    }
    let sq: i128 = isqrt_u128(d4 as u128) as i128;
    proof {
        assert(sq * sq <= d4);
        assert(sq <= 0x10_0000) by (nonlinear_arith)
            requires
                sq * sq <= d4,
                0 <= sq,
                d4 <= 0x100_0000_0000,
        ;
        lemma_refract_exec_bounds(v.x as int, n.x as int, eta as int, cos as int, sq as int);
        lemma_refract_exec_bounds(v.y as int, n.y as int, eta as int, cos as int, sq as int);
        lemma_refract_exec_bounds(v.z as int, n.z as int, eta as int, cos as int, sq as int);
    }
    let s3: i128 = s2 * (SCALE as i128);
    let rx: i128 = floor_div_i128(
        (eta as i128) * (s2 * (v.x as i128) + cos * (n.x as i128)) - (SCALE as i128) * sq * (
        n.x as i128),
        s3,
    );
    let ry: i128 = floor_div_i128(
        (eta as i128) * (s2 * (v.y as i128) + cos * (n.y as i128)) - (SCALE as i128) * sq * (
        n.y as i128),
        s3,
    );
    let rz: i128 = floor_div_i128(
        (eta as i128) * (s2 * (v.z as i128) + cos * (n.z as i128)) - (SCALE as i128) * sq * (
        n.z as i128),
        s3,
    );
    Vec3 { x: rx as i64, y: ry as i64, z: rz as i64 }
}

/// Bounds for each intermediate product of the refraction arithmetic.
proof fn lemma_refract_exec_bounds(vx: int, nx: int, eta: int, cos: int, sq: int)
    requires
        -2 * SCALE <= vx <= 2 * SCALE,
        -2 * SCALE <= nx <= 2 * SCALE,
        0 < eta <= 32 * SCALE,
        0 <= cos <= 0x10_0000,
        0 <= sq <= 0x10_0000,
    ensures
        -0x8_0000_0000 <= cos * nx <= 0x8_0000_0000,
        -0x8000_0000_0000 <= eta * (SCALE * SCALE * vx + cos * nx) <= 0x8000_0000_0000,
        0 <= SCALE * sq <= 0x4000_0000,
        -0x1_0000_0000_0000 <= SCALE * sq * nx <= 0x1_0000_0000_0000,
        -0x8_0000 <= fdiv(
            eta * (SCALE * SCALE * vx + cos * nx) - SCALE * sq * nx,
            SCALE * SCALE * (SCALE as int),
        ) <= 0x8_0000,
{
    assert(-0x8_0000_0000 <= cos * nx <= 0x8_0000_0000 && -0x8000_0000_0000 <= eta * (SCALE * SCALE
        * vx + cos * nx) <= 0x8000_0000_0000 && 0 <= SCALE * sq <= 0x4000_0000
        && -0x1_0000_0000_0000 <= SCALE * sq * nx <= 0x1_0000_0000_0000) by (nonlinear_arith)
        requires
            -2 * SCALE <= vx <= 2 * SCALE,
            -2 * SCALE <= nx <= 2 * SCALE,
            0 < eta <= 32 * SCALE,
            0 <= cos <= 0x10_0000,
            0 <= sq <= 0x10_0000,
            SCALE == 1024,
    ;
    assert(SCALE * SCALE * (SCALE as int) == 0x4000_0000) by (nonlinear_arith)
        requires
            SCALE == 1024,
    ;
    assert((SCALE * SCALE * (SCALE as int)) * (-0x8_0000) < eta * (SCALE * SCALE * vx + cos * nx)
        - SCALE * sq * nx && eta * (SCALE * SCALE * vx + cos * nx) - SCALE * sq * nx < (SCALE
        * SCALE * (SCALE as int)) * 0x8_0000) by (nonlinear_arith)
        requires
            -0x8000_0000_0000 <= eta * (SCALE * SCALE * vx + cos * nx) <= 0x8000_0000_0000,
            -0x1_0000_0000_0000 <= SCALE * sq * nx <= 0x1_0000_0000_0000,
            SCALE * SCALE * (SCALE as int) == 0x4000_0000,
    ;
    crate::math::lemma_fdiv_between(
        eta * (SCALE * SCALE * vx + cos * nx) - SCALE * sq * nx,
        -0x8_0000,
        0x8_0000,
        SCALE * SCALE * (SCALE as int),
    );
}

/// A ray through a medium of refractive index one passes through
/// unchanged: with ratio `SCALE` the discriminant is the exact square of
/// the cosine, every rounding divides exactly, and the construction
/// returns the incoming direction itself.
pub proof fn lemma_dielectric_passthrough(v: Vec3, n: Vec3)
    requires
        0 <= -dot_spec(v, n) <= SCALE * SCALE,
    ensures
        refract_spec(v, n, SCALE as int) == v,
{
    let cos = -dot_spec(v, n);
    let s2 = SCALE * (SCALE as int);
    let s4 = SCALE * SCALE * SCALE * (SCALE as int);
    assert((SCALE as int) * (SCALE as int) * (s4 - cos * cos) == s2 * (s4 - cos * cos))
        by (nonlinear_arith)
        requires
            s2 == SCALE * (SCALE as int),
    ;
    lemma_fdiv_exact(s4 - cos * cos, s2);
    assert(fdiv(s2 * (s4 - cos * cos), s2) == s4 - cos * cos);
    let d4 = s4 - (s4 - cos * cos);
    assert(d4 == cos * cos);
    lemma_sqrt_floor_square(cos);
    lemma_passthrough_component(v.x as int, n.x as int, cos);
    lemma_passthrough_component(v.y as int, n.y as int, cos);
    lemma_passthrough_component(v.z as int, n.z as int, cos);
}

proof fn lemma_passthrough_component(vx: int, nx: int, cos: int)
    requires
        0 <= cos,
    ensures
        fdiv(
            (SCALE as int) * (SCALE * SCALE * vx + cos * nx) - SCALE * cos * nx,
            SCALE * SCALE * (SCALE as int),
        ) == vx,
{
    let s3 = SCALE * SCALE * (SCALE as int);
    assert((SCALE as int) * (SCALE * SCALE * vx + cos * nx) - SCALE * cos * nx == s3 * vx)
        by (nonlinear_arith)
        requires
            s3 == SCALE * SCALE * (SCALE as int),
            SCALE == 1024,
    ;
    lemma_fdiv_exact(vx, s3);
}

/// Schlick's reflectance approximation in fixed point:
/// `r0 + (1 - r0) (1 - cos)^5` with `r0 = ((1 - eta) / (1 + eta))^2`.
pub open spec fn schlick_spec(cos1: int, eta: int) -> int {
    let r0 = fdiv((SCALE - eta) * (SCALE - eta) * SCALE, (SCALE + eta) * (SCALE + eta));
    let om = SCALE - cos1;
    let p5 = om * om * om * om * om;
    r0 + fdiv((SCALE - r0) * p5, SCALE * SCALE * SCALE * SCALE * (SCALE as int))
}

/// Schlick's approximation, on a cosine and a refraction ratio in
/// fixed-point units.
pub fn schlick(cos1: i64, eta: i64) -> (r: i64)
    requires
        -2 * SCALE <= cos1 <= SCALE,
        0 < eta <= 32 * SCALE,
    ensures
        r == schlick_spec(cos1 as int, eta as int),
{
    proof {
        assert(0 < ((SCALE + eta) as int) * ((SCALE + eta) as int) <= 0x1000_0000_0000 && 0 <= ((
        SCALE - eta) as int) * ((SCALE - eta) as int) <= 0x1000_0000_0000) by (nonlinear_arith)
            requires
                0 < eta <= 32 * SCALE,
                SCALE == 1024,
        ;
    }
    let den: i128 = ((SCALE + eta) as i128) * ((SCALE + eta) as i128);
    let num: i128 = ((SCALE - eta) as i128) * ((SCALE - eta) as i128) * (SCALE as i128);
    let r0: i128 = floor_div_i128(num, den);
    let om: i128 = (SCALE - cos1) as i128;
    proof {
        assert(0 <= om <= 3 * SCALE);
        assert(0 <= om * om <= 0x90_0000 && 0 <= om * om * om <= 0x1_0000_0000_0000 && 0 <= om * om
            * om * om <= 0x1000_0000_0000_0000 && 0 <= om * om * om * om * om
            <= 0x400_0000_0000_0000) by (nonlinear_arith)
            requires
                0 <= om <= 3 * SCALE,
                SCALE == 1024,
        ;
    }
    let p5: i128 = om * om * om * om * om;
    let s5: i128 = (SCALE as i128) * (SCALE as i128) * (SCALE as i128) * (SCALE as i128) * (
    SCALE as i128);
    proof {
        assert(s5 == 0x4_0000_0000_0000) by (nonlinear_arith)
            requires
                s5 == (SCALE as int) * (SCALE as int) * (SCALE as int) * (SCALE as int) * (
                SCALE as int),
                SCALE == 1024,
        ;
        assert(0 <= r0 <= SCALE) by (nonlinear_arith)
            requires
                r0 == fdiv(
                    ((SCALE - eta) as int) * ((SCALE - eta) as int) * (SCALE as int),
                    ((SCALE + eta) as int) * ((SCALE + eta) as int),
                ),
                0 < eta <= 32 * SCALE,
                SCALE == 1024,
        ;
        assert(0 <= (SCALE as int - r0) * p5) by (nonlinear_arith)
            requires
                0 <= r0 <= SCALE,
                p5 >= 0,
        ;
        assert(((SCALE as int) - r0) * p5 < s5 * 0x100_0000) by (nonlinear_arith)
            requires
                0 <= r0 <= SCALE,
                0 <= p5 <= 0x400_0000_0000_0000,
                s5 == 0x4_0000_0000_0000,
                SCALE == 1024,
        ;
        assert(s5 * (-1) < ((SCALE as int) - r0) * p5) by (nonlinear_arith)
            requires
                0 <= (SCALE as int - r0) * p5,
                s5 == 0x4_0000_0000_0000,
        ;
        crate::math::lemma_fdiv_between(((SCALE as int) - r0) * p5, -1, 0x100_0000, s5 as int);
    }
    let tail: i128 = floor_div_i128(((SCALE as i128) - r0) * p5, s5);
    (r0 as i64) + (tail as i64)
}


// ---------------------------------------------------------------------------
// The orthonormal basis and the cosine-weighted hemisphere sampler
// ---------------------------------------------------------------------------

/// An orthonormal-ish basis built from a surface normal; `w` points along
/// the normal.
#[derive(Clone, Copy, PartialEq, Eq, Structural, Debug)]
pub struct Onb {
    pub u: Vec3,
    pub v: Vec3,
    pub w: Vec3,
}

/// What `Onb::build_from_w` returns: the normalized normal, a normalized
/// cross with the less-aligned coordinate axis, and their cross scaled
/// back to unit length. Degenerate inputs fall back to the coordinate
/// basis.
pub open spec fn onb_spec(n: Vec3) -> Onb {
    if dot_spec(n, n) == 0 {
        Onb {
            u: Vec3 { x: SCALE, y: 0i64, z: 0i64 },
            v: Vec3 { x: 0i64, y: SCALE, z: 0i64 },
            w: Vec3 { x: 0i64, y: 0i64, z: SCALE },
        }
    } else {
        let w = normalize_spec(n);
        let a = if w.x > 921 || w.x < -921 {
            Vec3 { x: 0i64, y: SCALE, z: 0i64 }
        } else {
            Vec3 { x: SCALE, y: 0i64, z: 0i64 }
        };
        let c = Vec3 {
            x: (w.y * a.z - w.z * a.y) as i64,
            y: (w.z * a.x - w.x * a.z) as i64,
            z: (w.x * a.y - w.y * a.x) as i64,
        };
        if dot_spec(c, c) == 0 {
            Onb {
                u: Vec3 { x: SCALE, y: 0i64, z: 0i64 },
                v: Vec3 { x: 0i64, y: SCALE, z: 0i64 },
                w: Vec3 { x: 0i64, y: 0i64, z: SCALE },
            }
        } else {
            let v = normalize_spec(c);
            let u = Vec3 {
                x: fdiv(w.y * v.z - w.z * v.y, SCALE as int) as i64,
                y: fdiv(w.z * v.x - w.x * v.z, SCALE as int) as i64,
                z: fdiv(w.x * v.y - w.y * v.x, SCALE as int) as i64,
            };
            Onb { u, v, w }
        }
    }
}

pub open spec fn onb_wf(o: Onb) -> bool {
    bounded(o.u, 4 * SCALE as int) && bounded(o.v, 4 * SCALE as int) && bounded(
        o.w,
        4 * SCALE as int,
    )
}

/// The world direction of local coordinates `(a, b, c)` in the basis.
pub open spec fn onb_local_spec(o: Onb, a: int, b: int, c: int) -> Vec3 {
    Vec3 {
        x: fdiv(a * o.u.x + b * o.v.x + c * o.w.x, SCALE as int) as i64,
        y: fdiv(a * o.u.y + b * o.v.y + c * o.w.y, SCALE as int) as i64,
        z: fdiv(a * o.u.z + b * o.v.z + c * o.w.z, SCALE as int) as i64,
    }
}

impl Onb {
    /// Builds the basis whose `w` axis follows `n`.
    #[verifier::rlimit(60)]
    pub fn build_from_w(n: &Vec3) -> (o: Onb)
        requires
            bounded(*n, 8 * SCALE as int),
        ensures
            o == onb_spec(*n),
            onb_wf(o),
    {
        proof {
            lemma_dot_self_nonneg(*n);
        }
        let n2: i128 = n.dot(n);
        if n2 == 0 {
            return Onb {
                u: Vec3 { x: SCALE, y: 0, z: 0 },
                v: Vec3 { x: 0, y: SCALE, z: 0 },
                w: Vec3 { x: 0, y: 0, z: SCALE },
            };
        }
        let w = n.normalize();
        let a = if w.x > 921 || w.x < -921 {
            Vec3 { x: 0, y: SCALE, z: 0 }
        } else {
            Vec3 { x: SCALE, y: 0, z: 0 }
        };
        let c = w.cross(&a);
        proof {
            lemma_cross_bounded(w, a);
            lemma_dot_self_nonneg(c);
        }
        let c2: i128 = c.dot(&c);
        if c2 == 0 {
            return Onb {
                u: Vec3 { x: SCALE, y: 0, z: 0 },
                v: Vec3 { x: 0, y: SCALE, z: 0 },
                w: Vec3 { x: 0, y: 0, z: SCALE },
            };
        }
        let v = c.normalize();
        let ucr = w.cross(&v);
        proof {
            lemma_unit_cross_div(w, v);
        }
        let ux: i128 = floor_div_i128(ucr.x as i128, SCALE as i128);
        let uy: i128 = floor_div_i128(ucr.y as i128, SCALE as i128);
        let uz: i128 = floor_div_i128(ucr.z as i128, SCALE as i128);
        let u = Vec3 { x: ux as i64, y: uy as i64, z: uz as i64 };
        Onb { u, v, w }
    }

    /// The world direction of local coordinates `(a, b, c)`.
    pub fn local(&self, a: i64, b: i64, c: i64) -> (r: Vec3)
        requires
            onb_wf(*self),
            -2 * SCALE <= a <= 2 * SCALE,
            -2 * SCALE <= b <= 2 * SCALE,
            -2 * SCALE <= c <= 2 * SCALE,
        ensures
            r == onb_local_spec(*self, a as int, b as int, c as int),
            bounded(r, 32 * SCALE as int),
    {
        proof {
            lemma_local_bounded(*self, a as int, b as int, c as int);
        }
        let rx: i128 = floor_div_i128(
            (a as i128) * (self.u.x as i128) + (b as i128) * (self.v.x as i128) + (c as i128) * (
            self.w.x as i128),
            SCALE as i128,
        );
        let ry: i128 = floor_div_i128(
            (a as i128) * (self.u.y as i128) + (b as i128) * (self.v.y as i128) + (c as i128) * (
            self.w.y as i128),
            SCALE as i128,
        );
        let rz: i128 = floor_div_i128(
            (a as i128) * (self.u.z as i128) + (b as i128) * (self.v.z as i128) + (c as i128) * (
            self.w.z as i128),
            SCALE as i128,
        );
        Vec3 { x: rx as i64, y: ry as i64, z: rz as i64 }
    }
}

proof fn lemma_cross_bounded(w: Vec3, a: Vec3)
    requires
        bounded(w, SCALE as int + 1),
        bounded(a, SCALE as int),
    ensures
        bounded(
            Vec3 {
                x: (w.y * a.z - w.z * a.y) as i64,
                y: (w.z * a.x - w.x * a.z) as i64,
                z: (w.x * a.y - w.y * a.x) as i64,
            },
            crate::math::COORD_LIMIT as int,
        ),
{
    assert(-0x80_0000 <= w.y * a.z - w.z * a.y <= 0x80_0000 && -0x80_0000 <= w.z * a.x - w.x * a.z
        <= 0x80_0000 && -0x80_0000 <= w.x * a.y - w.y * a.x <= 0x80_0000) by (nonlinear_arith)
        requires
            bounded(w, SCALE as int + 1),
            bounded(a, SCALE as int),
            SCALE == 1024,
    ;
}

proof fn lemma_unit_cross_div(w: Vec3, v: Vec3)
    requires
        bounded(w, SCALE as int + 1),
        bounded(v, SCALE as int + 1),
    ensures
        -(4 * SCALE as int) <= fdiv(w.y * v.z - w.z * v.y, SCALE as int) <= 4 * SCALE as int,
        -(4 * SCALE as int) <= fdiv(w.z * v.x - w.x * v.z, SCALE as int) <= 4 * SCALE as int,
        -(4 * SCALE as int) <= fdiv(w.x * v.y - w.y * v.x, SCALE as int) <= 4 * SCALE as int,
{
    assert(-(SCALE * (4 * SCALE as int)) < w.y * v.z - w.z * v.y && w.y * v.z - w.z * v.y < SCALE
        * (4 * SCALE as int) && -(SCALE * (4 * SCALE as int)) < w.z * v.x - w.x * v.z && w.z * v.x
        - w.x * v.z < SCALE * (4 * SCALE as int) && -(SCALE * (4 * SCALE as int)) < w.x * v.y - w.y
        * v.x && w.x * v.y - w.y * v.x < SCALE * (4 * SCALE as int)) by (nonlinear_arith)
        requires
            bounded(w, SCALE as int + 1),
            bounded(v, SCALE as int + 1),
            SCALE == 1024,
    ;
    crate::math::lemma_fdiv_between(
        w.y * v.z - w.z * v.y,
        -(4 * SCALE as int),
        4 * SCALE as int,
        SCALE as int,
    );
    crate::math::lemma_fdiv_between(
        w.z * v.x - w.x * v.z,
        -(4 * SCALE as int),
        4 * SCALE as int,
        SCALE as int,
    );
    crate::math::lemma_fdiv_between(
        w.x * v.y - w.y * v.x,
        -(4 * SCALE as int),
        4 * SCALE as int,
        SCALE as int,
    );
}

proof fn lemma_local_bounded(o: Onb, a: int, b: int, c: int)
    requires
        onb_wf(o),
        -2 * SCALE <= a <= 2 * SCALE,
        -2 * SCALE <= b <= 2 * SCALE,
        -2 * SCALE <= c <= 2 * SCALE,
    ensures
        -(32 * SCALE as int) <= fdiv(a * o.u.x + b * o.v.x + c * o.w.x, SCALE as int) <= 32
            * SCALE as int,
        -(32 * SCALE as int) <= fdiv(a * o.u.y + b * o.v.y + c * o.w.y, SCALE as int) <= 32
            * SCALE as int,
        -(32 * SCALE as int) <= fdiv(a * o.u.z + b * o.v.z + c * o.w.z, SCALE as int) <= 32
            * SCALE as int,
        -0x80_0000 <= a * o.u.x <= 0x80_0000,
        -0x80_0000 <= b * o.v.x <= 0x80_0000,
        -0x80_0000 <= c * o.w.x <= 0x80_0000,
        -0x80_0000 <= a * o.u.y <= 0x80_0000,
        -0x80_0000 <= b * o.v.y <= 0x80_0000,
        -0x80_0000 <= c * o.w.y <= 0x80_0000,
        -0x80_0000 <= a * o.u.z <= 0x80_0000,
        -0x80_0000 <= b * o.v.z <= 0x80_0000,
        -0x80_0000 <= c * o.w.z <= 0x80_0000,
{
    assert(-0x80_0000 <= a * o.u.x <= 0x80_0000 && -0x80_0000 <= b * o.v.x <= 0x80_0000
        && -0x80_0000 <= c * o.w.x <= 0x80_0000 && -0x80_0000 <= a * o.u.y <= 0x80_0000
        && -0x80_0000 <= b * o.v.y <= 0x80_0000 && -0x80_0000 <= c * o.w.y <= 0x80_0000
        && -0x80_0000 <= a * o.u.z <= 0x80_0000 && -0x80_0000 <= b * o.v.z <= 0x80_0000
        && -0x80_0000 <= c * o.w.z <= 0x80_0000) by (nonlinear_arith)
        requires
            onb_wf(o),
            -2 * SCALE <= a <= 2 * SCALE,
            -2 * SCALE <= b <= 2 * SCALE,
            -2 * SCALE <= c <= 2 * SCALE,
            SCALE == 1024,
    ;
    crate::math::lemma_fdiv_between(
        a * o.u.x + b * o.v.x + c * o.w.x,
        -(32 * SCALE as int),
        32 * SCALE as int,
        SCALE as int,
    );
    crate::math::lemma_fdiv_between(
        a * o.u.y + b * o.v.y + c * o.w.y,
        -(32 * SCALE as int),
        32 * SCALE as int,
        SCALE as int,
    );
    crate::math::lemma_fdiv_between(
        a * o.u.z + b * o.v.z + c * o.w.z,
        -(32 * SCALE as int),
        32 * SCALE as int,
        SCALE as int,
    );
}

/// A cosine-weighted hemisphere sample about `axis`: a uniform disk point
/// lifted onto the hemisphere in the basis of the axis. The vertical local
/// coordinate is never negative, so the sampled direction stays in the
/// hemisphere of the axis.
pub fn cosine_direction(axis: &Vec3) -> (dir: Vec3)
    requires
        bounded(*axis, 8 * SCALE as int),
    ensures
        exists|a: int, b: int|
            -SCALE <= a <= SCALE && -SCALE <= b <= SCALE && a * a + b * b <= SCALE * SCALE && dir
                == #[trigger] onb_local_spec(
                onb_spec(*axis),
                a,
                b,
                sqrt_floor(SCALE * SCALE - a * a - b * b),
            ),
        bounded(dir, 32 * SCALE as int),
{
    let onb = Onb::build_from_w(axis);
    let (a, b) = random_in_unit_disk();
    proof {
        assert(0 <= a * a <= SCALE * SCALE && 0 <= b * b <= SCALE * SCALE) by (nonlinear_arith)
            requires
                -SCALE <= a <= SCALE,
                -SCALE <= b <= SCALE,
                SCALE == 1024,
        ;
    }
    let d2: i128 = (SCALE as i128) * (SCALE as i128) - (a as i128) * (a as i128) - (b as i128) * (
    b as i128);
    let z128 = isqrt_u128(d2 as u128);
    proof {
        assert(z128 * z128 <= d2);
        assert(z128 <= SCALE) by (nonlinear_arith)
            requires
                z128 * z128 <= d2,
                d2 <= SCALE * SCALE,
                SCALE == 1024,
        ;
    }
    let z: i64 = z128 as i64;
    let dir = onb.local(a, b, z);
    proof {
        assert(z as int == sqrt_floor(SCALE * SCALE - (a as int) * (a as int) - (b as int) * (
        b as int)));
        assert(-SCALE <= a as int <= SCALE && -SCALE <= b as int <= SCALE && (a as int) * (
        a as int) + (b as int) * (b as int) <= SCALE * SCALE && dir == onb_local_spec(
            onb_spec(*axis),
            a as int,
            b as int,
            sqrt_floor(SCALE * SCALE - (a as int) * (a as int) - (b as int) * (b as int)),
        ));
    }
    dir
}

/// The lifted height of a disk point is never negative and never exceeds
/// one unit, so a cosine sample's local vertical coordinate stays in
/// `[0, SCALE]`: the hemisphere of the basis's axis.
pub proof fn lemma_cosine_height_range(a: int, b: int)
    requires
        a * a + b * b <= SCALE * SCALE,
    ensures
        0 <= sqrt_floor(SCALE * SCALE - a * a - b * b) <= SCALE,
{
    assert(0 <= a * a && 0 <= b * b) by (nonlinear_arith);
    crate::math::lemma_sqrt_exists(SCALE * SCALE - a * a - b * b);
    let c = sqrt_floor(SCALE * SCALE - a * a - b * b);
    assert(c <= SCALE) by (nonlinear_arith)
        requires
            0 <= c,
            c * c <= SCALE * SCALE - a * a - b * b,
            0 <= a * a,
            0 <= b * b,
            SCALE == 1024,
    ;
}

// ---------------------------------------------------------------------------
// Scattering
// ---------------------------------------------------------------------------

/// The result of a scatter query: either a deterministic specular
/// continuation ray, or a diffuse scatter carrying the axis of the cosine
/// density it was drawn from (paired with `scattering_pdf` and
/// `cosine_direction`). Consumed once by the integrator.
#[derive(Clone, Copy, PartialEq, Eq, Structural, Debug)]
pub enum ScatterRecord {
    Specular { specular_ray: Ray, attenuation: Color },
    /// Diffuse: cosine density about the stored axis.
    Scatter { pdf_axis: Vec3, attenuation: Color },
}

/// The parameter ranges under which the scattering arithmetic stays in
/// bounds: a nonnegative fuzz radius, a physical refractive index.
pub open spec fn material_wf(m: Material) -> bool {
    match m {
        Material::Metal(_, fuzz) => 0 <= fuzz,
        Material::Dielectric(ri) => SCALE / 2 <= ri <= 16 * SCALE,
        _ => true,
    }
}

/// A metal's continuation direction: the mirror reflection perturbed by
/// `fuzz` (clamped to one unit) times a point `f` of the unit ball.
pub open spec fn metal_dir_spec(r: Ray, h: HitRecord, fuzz: i64, f: Vec3) -> Vec3 {
    let refl = reflect_spec(unit_in(r), h.normal);
    let fz = if fuzz > SCALE {
        SCALE as int
    } else {
        fuzz as int
    };
    Vec3 {
        x: (refl.x + fdiv(fz * f.x, SCALE as int)) as i64,
        y: (refl.y + fdiv(fz * f.y, SCALE as int)) as i64,
        z: (refl.z + fdiv(fz * f.z, SCALE as int)) as i64,
    }
}

/// With no fuzz the metal's continuation is the mirror reflection itself,
/// whatever the sampler returned: the law of reflection holds exactly
/// (`lemma_metal_reflection_law`) of the scaled mirror construction that
/// `reflect_spec` rounds to the grid.
pub proof fn lemma_metal_fuzz_zero(r: Ray, h: HitRecord, f: Vec3)
    ensures
        metal_dir_spec(r, h, 0, f) == reflect_spec(unit_in(r), h.normal),
{
    let refl = reflect_spec(unit_in(r), h.normal);
    assert(0 * f.x == 0 && 0 * f.y == 0 && 0 * f.z == 0) by (nonlinear_arith);
    crate::math::lemma_fdiv_exact(0, SCALE as int);
    assert((SCALE as int) * 0 == 0) by (nonlinear_arith);
}

/// A refractive index of one presents the ratio one from either side, so
/// `lemma_dielectric_passthrough` applies to every front hit on such a
/// medium: the refracted direction is the incoming unit direction itself.
pub proof fn lemma_index_one_ratio(front_face: bool)
    ensures
        eta_spec(SCALE, front_face) == SCALE as int,
{
    crate::math::lemma_fdiv_exact(SCALE as int, SCALE as int);
    assert((SCALE as int) * (SCALE as int) == SCALE * (SCALE as int)) by (nonlinear_arith);
}

/// A metal absorbs the ray when the geometric reflection points into the
/// surface.
pub open spec fn metal_absorbed(m: Material, r: Ray, h: HitRecord) -> bool {
    match m {
        Material::Metal(_, _) => dot_spec(reflect_spec(unit_in(r), h.normal), h.normal) <= 0,
        _ => false,
    }
}

/// Whether a dielectric hit is forced to reflect by total internal
/// reflection.
pub open spec fn dielectric_tir(ri: i64, r: Ray, h: HitRecord) -> bool {
    tir_spec(unit_in(r), h.normal, eta_spec(ri, h.front_face))
}

impl Material {
    /// How an incoming ray continues after striking a surface with this
    /// material: nothing for the emissive and debug variants, a cosine
    /// scatter for the diffuse ones, a specular ray for metal, dielectric
    /// and the isotropic medium. The stochastic choices (fuzz
    /// perturbation, reflect-or-refract, isotropic direction) are pinned
    /// up to the value the sampler returned; reflection is forced under
    /// total internal reflection, and a metal whose reflection points
    /// into the surface absorbs the ray.
    pub fn scatter(&self, ray_in: &Ray, hit_record: &HitRecord) -> (res: Option<ScatterRecord>)
        requires
            crate::ray::ray_wf(*ray_in),
            dot_spec(ray_in.direction, ray_in.direction) > 0,
            bounded(hit_record.normal, 2 * SCALE as int),
            dot_spec(hit_record.normal, hit_record.normal) >= 0x4_0000,
            bounded(hit_record.point, crate::aabb::BOX_LIMIT as int),
            material_wf(*self),
        ensures
            res is None <==> (*self is Normal || *self is DiffuseLight
                || *self is DiffuseLightTexture || metal_absorbed(*self, *ray_in, *hit_record)),
            *self matches Material::Lambertian(alb) ==> res == Some(
                ScatterRecord::Scatter { pdf_axis: hit_record.normal, attenuation: alb },
            ),
            *self matches Material::LambertianTexture(tex) ==> res == Some(
                ScatterRecord::Scatter {
                    pdf_axis: hit_record.normal,
                    attenuation: texture_value_spec(tex, hit_record.point),
                },
            ),
            *self matches Material::Metal(alb, fuzz) ==> (res matches Some(sr) ==> exists|f: Vec3|
                bounded(f, SCALE as int) && dot_spec(f, f) <= SCALE * SCALE && sr == (
                ScatterRecord::Specular {
                    specular_ray: Ray {
                        origin: hit_record.point,
                        direction: #[trigger] metal_dir_spec(*ray_in, *hit_record, fuzz, f),
                        time: ray_in.time,
                    },
                    attenuation: alb,
                })),
            *self matches Material::Dielectric(ri) ==> exists|d: Vec3|
                (d == reflect_spec(unit_in(*ray_in), hit_record.normal) || d == refract_spec(
                    unit_in(*ray_in),
                    hit_record.normal,
                    eta_spec(ri, hit_record.front_face),
                )) && res == Some(
                    ScatterRecord::Specular {
                        specular_ray: Ray {
                            origin: hit_record.point,
                            direction: #[trigger] dspec_id(d),
                            time: ray_in.time,
                        },
                        attenuation: Vec3 { x: SCALE, y: SCALE, z: SCALE },
                    },
                ),
            *self matches Material::Dielectric(ri) ==> (dielectric_tir(ri, *ray_in, *hit_record)
                ==> res == Some(
                ScatterRecord::Specular {
                    specular_ray: Ray {
                        origin: hit_record.point,
                        direction: reflect_spec(unit_in(*ray_in), hit_record.normal),
                        time: ray_in.time,
                    },
                    attenuation: Vec3 { x: SCALE, y: SCALE, z: SCALE },
                },
            )),
            *self matches Material::Isotropic(alb) ==> exists|d: Vec3|
                bounded(d, SCALE as int) && dot_spec(d, d) <= SCALE * SCALE && res == Some(
                    ScatterRecord::Specular {
                        specular_ray: Ray {
                            origin: hit_record.point,
                            direction: #[trigger] dspec_id(d),
                            time: ray_in.time,
                        },
                        attenuation: alb,
                    },
                ),
    {
        match self {
            Material::Normal => None,
            Material::DiffuseLight(_) => None,
            Material::DiffuseLightTexture(_) => None,
            Material::Lambertian(alb) => Some(
                ScatterRecord::Scatter { pdf_axis: hit_record.normal, attenuation: *alb },
            ),
            Material::LambertianTexture(tex) => {
                let c = tex.value(hit_record.u, hit_record.v, &hit_record.point);
                Some(ScatterRecord::Scatter { pdf_axis: hit_record.normal, attenuation: c })
            },
            Material::Metal(alb, fuzz) => {
                let unit = ray_in.direction.normalize();
                let refl = reflect(&unit, &hit_record.normal);
                let d: i128 = refl.dot(&hit_record.normal);
                if d <= 0 {
                    return None;
                }
                let f = random_in_unit_sphere();
                let fz: i64 = if *fuzz > SCALE {
                    SCALE
                } else {
                    *fuzz
                };
                proof {
                    lemma_fuzz_bounds(fz as int, f);
                }
                let dx: i64 = refl.x + (floor_div_i128(
                    (fz as i128) * (f.x as i128),
                    SCALE as i128,
                ) as i64);
                let dy: i64 = refl.y + (floor_div_i128(
                    (fz as i128) * (f.y as i128),
                    SCALE as i128,
                ) as i64);
                let dz: i64 = refl.z + (floor_div_i128(
                    (fz as i128) * (f.z as i128),
                    SCALE as i128,
                ) as i64);
                let res = Some(
                    ScatterRecord::Specular {
                        specular_ray: Ray {
                            origin: hit_record.point,
                            direction: Vec3 { x: dx, y: dy, z: dz },
                            time: ray_in.time,
                        },
                        attenuation: *alb,
                    },
                );
                proof {
                    assert(Vec3 { x: dx, y: dy, z: dz } == metal_dir_spec(
                        *ray_in,
                        *hit_record,
                        *fuzz,
                        f,
                    ));
                }
                res
            },
            Material::Dielectric(ri) => {
                let unit = ray_in.direction.normalize();
                let s2: i128 = (SCALE as i128) * (SCALE as i128);
                proof {
                    assert(s2 == 0x10_0000) by (nonlinear_arith)
                        requires
                            s2 == (SCALE as int) * (SCALE as int),
                            SCALE == 1024,
                    ;
                    lemma_eta_range(*ri);
                }
                let eta: i64 = if hit_record.front_face {
                    floor_div_i128(s2, *ri as i128) as i64
                } else {
                    *ri
                };
                proof {
                    assert(-0x100_0000 <= dot_spec(unit, hit_record.normal) <= 0x100_0000)
                        by (nonlinear_arith)
                        requires
                            dot_spec(unit, hit_record.normal) == unit.x * hit_record.normal.x
                                + unit.y * hit_record.normal.y + unit.z * hit_record.normal.z,
                            bounded(unit, 2 * SCALE as int),
                            bounded(hit_record.normal, 2 * SCALE as int),
                            SCALE == 1024,
                    ;
                }
                let cs: i128 = -(unit.dot(&hit_record.normal));
                let attenuation = Vec3 { x: SCALE, y: SCALE, z: SCALE };
                if cs < 0 {
                    // struck from behind the oriented normal: reflect
                    let refl = reflect(&unit, &hit_record.normal);
                    proof {
                        lemma_dspec_witness(refl);
                    }
                    return Some(
                        ScatterRecord::Specular {
                            specular_ray: Ray {
                                origin: hit_record.point,
                                direction: refl,
                                time: ray_in.time,
                            },
                            attenuation,
                        },
                    );
                }
                let cos: i128 = if cs > s2 {
                    s2
                } else {
                    cs
                };
                let s4: i128 = s2 * s2;
                proof {
                    assert(s4 == 0x100_0000_0000) by (nonlinear_arith)
                        requires
                            s2 == 0x10_0000,
                            s4 == s2 * s2,
                    ;
                    assert(0 < (eta as int) * (eta as int) <= 0x4000_0000 && 0 <= cos * cos
                        <= 0x100_0000_0000) by (nonlinear_arith)
                        requires
                            0 < eta <= 32 * SCALE,
                            0 <= cos <= 0x10_0000,
                            SCALE == 1024,
                    ;
                    assert(0 <= (eta as int) * (eta as int) * (s4 - cos * cos)
                        <= 0x1000_0000_0000_0000_0000_0000) by (nonlinear_arith)
                        requires
                            0 < (eta as int) * (eta as int) <= 0x4000_0000,
                            0 <= cos * cos <= 0x100_0000_0000,
                            s4 == 0x100_0000_0000,
                    ;
                    assert(s4 * s2 == 0x1000_0000_0000_0000) by (nonlinear_arith)
                        requires
                            s4 == 0x100_0000_0000,
                            s2 == 0x10_0000,
                    ;
                }
                let sin_term: i128 = (eta as i128) * (eta as i128) * (s4 - cos * cos);
                if sin_term > s4 * s2 {
                    // total internal reflection
                    let refl = reflect(&unit, &hit_record.normal);
                    proof {
                        lemma_dspec_witness(refl);
                    }
                    return Some(
                        ScatterRecord::Specular {
                            specular_ray: Ray {
                                origin: hit_record.point,
                                direction: refl,
                                time: ray_in.time,
                            },
                            attenuation,
                        },
                    );
                }
                proof {
                    crate::math::lemma_fdiv_between(cos as int, -1, SCALE as int + 1, SCALE as int);
                    assert((SCALE as int) * (SCALE as int + 1) > cos) by (nonlinear_arith)
                        requires
                            0 <= cos <= 0x10_0000,
                            SCALE == 1024,
                    ;
                }
                let cos1: i64 = floor_div_i128(cos, SCALE as i128) as i64;
                let prob = schlick(cos1, eta);
                let rnd = random_unit();
                if rnd < prob {
                    let refl = reflect(&unit, &hit_record.normal);
                    proof {
                        lemma_dspec_witness(refl);
                    }
                    return Some(
                        ScatterRecord::Specular {
                            specular_ray: Ray {
                                origin: hit_record.point,
                                direction: refl,
                                time: ray_in.time,
                            },
                            attenuation,
                        },
                    );
                }
                let refr = refract(&unit, &hit_record.normal, eta);
                proof {
                    lemma_dspec_witness(refr);
                }
                Some(
                    ScatterRecord::Specular {
                        specular_ray: Ray {
                            origin: hit_record.point,
                            direction: refr,
                            time: ray_in.time,
                        },
                        attenuation,
                    },
                )
            },
            Material::Isotropic(alb) => {
                let dir = random_in_unit_sphere();
                proof {
                    lemma_dspec_witness(dir);
                }
                Some(
                    ScatterRecord::Specular {
                        specular_ray: Ray {
                            origin: hit_record.point,
                            direction: dir,
                            time: ray_in.time,
                        },
                        attenuation: *alb,
                    },
                )
            },
        }
    }
}

/// Identity on a direction; gives the existential clauses of `scatter` a
/// stable trigger.
pub open spec fn dspec_id(d: Vec3) -> Vec3 {
    d
}

proof fn lemma_dspec_witness(d: Vec3)
    ensures
        dspec_id(d) == d,
{
}

proof fn lemma_fuzz_bounds(fz: int, f: Vec3)
    requires
        0 <= fz <= SCALE,
        bounded(f, SCALE as int),
    ensures
        -0x10_0000 <= fz * f.x <= 0x10_0000,
        -0x10_0000 <= fz * f.y <= 0x10_0000,
        -0x10_0000 <= fz * f.z <= 0x10_0000,
        -SCALE <= fdiv(fz * f.x, SCALE as int) <= SCALE,
        -SCALE <= fdiv(fz * f.y, SCALE as int) <= SCALE,
        -SCALE <= fdiv(fz * f.z, SCALE as int) <= SCALE,
{
    assert(-0x10_0000 <= fz * f.x <= 0x10_0000 && -0x10_0000 <= fz * f.y <= 0x10_0000
        && -0x10_0000 <= fz * f.z <= 0x10_0000 && -(SCALE * (SCALE as int)) <= fz * f.x && fz * f.x
        < SCALE * (SCALE as int + 1) && -(SCALE * (SCALE as int)) <= fz * f.y && fz * f.y < SCALE
        * (SCALE as int + 1) && -(SCALE * (SCALE as int)) <= fz * f.z && fz * f.z < SCALE * (
    SCALE as int + 1)) by (nonlinear_arith)
        requires
            0 <= fz <= SCALE,
            bounded(f, SCALE as int),
            SCALE == 1024,
    ;
    crate::math::lemma_fdiv_between(fz * f.x, -(SCALE as int) - 1, SCALE as int + 1, SCALE as int);
    crate::math::lemma_fdiv_between(fz * f.y, -(SCALE as int) - 1, SCALE as int + 1, SCALE as int);
    crate::math::lemma_fdiv_between(fz * f.z, -(SCALE as int) - 1, SCALE as int + 1, SCALE as int);
    assert(-((SCALE as int) + 1) * SCALE < fz * f.x) by (nonlinear_arith)
        requires
            -0x10_0000 <= fz * f.x,
            SCALE == 1024,
    ;
    assert(-((SCALE as int) + 1) * SCALE < fz * f.y) by (nonlinear_arith)
        requires
            -0x10_0000 <= fz * f.y,
            SCALE == 1024,
    ;
    assert(-((SCALE as int) + 1) * SCALE < fz * f.z) by (nonlinear_arith)
        requires
            -0x10_0000 <= fz * f.z,
            SCALE == 1024,
    ;
}

/// The refraction ratio of a physical index stays in the schlick/refract
/// ranges, on either side of the surface.
proof fn lemma_eta_range(ri: i64)
    requires
        SCALE / 2 <= ri <= 16 * SCALE,
    ensures
        0 < fdiv(SCALE * (SCALE as int), ri as int) <= 32 * SCALE,
{
    assert((ri as int) * 63 < SCALE * (SCALE as int) && SCALE * (SCALE as int) < (ri as int) * (2
        * SCALE + 1)) by (nonlinear_arith)
        requires
            SCALE / 2 <= ri <= 16 * SCALE,
            SCALE == 1024,
    ;
    crate::math::lemma_fdiv_between(SCALE * (SCALE as int), 63, 2 * SCALE + 1, ri as int);
}

} // verus!
