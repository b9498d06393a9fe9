//! Three-component fixed-point vectors, shared by points, directions and
//! colors.

use vstd::prelude::*;
use crate::math::{COORD_LIMIT, SCALE, fdiv, sqrt_floor, isqrt_u128, floor_div_i128};

verus! {

/// A 3-vector of fixed-point scalars. Doubles as `Point` and `Color`.
#[derive(Clone, Copy, PartialEq, Eq, Structural, Debug)]
pub struct Vec3 {
    pub x: i64,
    pub y: i64,
    pub z: i64,
}

pub type Point = Vec3;

pub type Color = Vec3;

/// Every component within `b` in magnitude.
pub open spec fn bounded(v: Vec3, b: int) -> bool {
    -b <= v.x <= b && -b <= v.y <= b && -b <= v.z <= b
}

/// The range every scene coordinate must stay in.
pub open spec fn in_range(v: Vec3) -> bool {
    bounded(v, COORD_LIMIT as int)
}

/// Mathematical dot product of two vectors' components.
pub open spec fn dot_spec(a: Vec3, b: Vec3) -> int {
    a.x * b.x + a.y * b.y + a.z * b.z
}

/// Component `axis` (0 = x, 1 = y, 2 = z).
pub open spec fn comp(v: Vec3, axis: int) -> int {
    if axis == 0 {
        v.x as int
    } else if axis == 1 {
        v.y as int
    } else {
        v.z as int
    }
}

impl Vec3 {
    pub fn new(x: i64, y: i64, z: i64) -> (r: Vec3)
        ensures
            r == (Vec3 { x, y, z }),
    {
        Vec3 { x, y, z }
    }

    pub fn zeros() -> (r: Vec3)
        ensures
            r == (Vec3 { x: 0i64, y: 0i64, z: 0i64 }),
    {
        Vec3 { x: 0, y: 0, z: 0 }
    }

    /// The color or point with every component equal to one world unit.
    pub fn ones() -> (r: Vec3)
        ensures
            r == (Vec3 { x: SCALE, y: SCALE, z: SCALE }),
    {
        Vec3 { x: SCALE, y: SCALE, z: SCALE }
    }

    pub fn add(&self, o: &Vec3) -> (r: Vec3)
        requires
            bounded(*self, 0x2000_0000_0000_0000),
            bounded(*o, 0x2000_0000_0000_0000),
        ensures
            r.x == self.x + o.x,
            r.y == self.y + o.y,
            r.z == self.z + o.z,
    {
        Vec3 { x: self.x + o.x, y: self.y + o.y, z: self.z + o.z }
    }

    pub fn sub(&self, o: &Vec3) -> (r: Vec3)
        requires
            bounded(*self, 0x2000_0000_0000_0000),
            bounded(*o, 0x2000_0000_0000_0000),
        ensures
            r.x == self.x - o.x,
            r.y == self.y - o.y,
            r.z == self.z - o.z,
    {
        Vec3 { x: self.x - o.x, y: self.y - o.y, z: self.z - o.z }
    }

    pub fn neg(&self) -> (r: Vec3)
        requires
            bounded(*self, 0x2000_0000_0000_0000),
        ensures
            r.x == -self.x,
            r.y == -self.y,
            r.z == -self.z,
    {
        Vec3 { x: -self.x, y: -self.y, z: -self.z }
    }

    /// Dot product, computed in 128-bit arithmetic.
    pub fn dot(&self, o: &Vec3) -> (r: i128)
        requires
            bounded(*self, 0x1000_0000_0000),
            bounded(*o, 0x1000_0000_0000),
        ensures
            r == dot_spec(*self, *o),
    {
        proof {
            lemma_dot_products(self.x as int, o.x as int);
            lemma_dot_products(self.y as int, o.y as int);
            lemma_dot_products(self.z as int, o.z as int);
        }
        let r: i128 = (self.x as i128) * (o.x as i128) + (self.y as i128) * (o.y as i128) + (
        self.z as i128) * (o.z as i128);
        r
    }

    /// Cross product. Callers keep the operands small (unit-length scale).
    pub fn cross(&self, o: &Vec3) -> (r: Vec3)
        requires
            bounded(*self, 0x10_0000),
            bounded(*o, 0x10_0000),
        ensures
            r.x == self.y * o.z - self.z * o.y,
            r.y == self.z * o.x - self.x * o.z,
            r.z == self.x * o.y - self.y * o.x,
            bounded(r, 0x2000_0000_0000),
    {
        proof {
            lemma_small_products(self.y as int, o.z as int);
            lemma_small_products(self.z as int, o.y as int);
            lemma_small_products(self.z as int, o.x as int);
            lemma_small_products(self.x as int, o.z as int);
            lemma_small_products(self.x as int, o.y as int);
            lemma_small_products(self.y as int, o.x as int);
        }
        Vec3 {
            x: self.y * o.z - self.z * o.y,
            y: self.z * o.x - self.x * o.z,
            z: self.x * o.y - self.y * o.x,
        }
    }

    /// Scale by `SCALE` and divide by the Euclidean length, rounding down:
    /// the fixed-point unit vector along `self`.
    pub fn normalize(&self) -> (r: Vec3)
        requires
            bounded(*self, COORD_LIMIT as int),
            dot_spec(*self, *self) > 0,
        ensures
            r == normalize_spec(*self),
            bounded(r, SCALE as int + 1),
    {
        let n2: i128 = self.dot(self);
        let len: u128 = isqrt_u128(n2 as u128);
        proof {
            lemma_len_dominates(*self);
        }
        let rx: i128 = floor_div_i128((self.x as i128) * (SCALE as i128), len as i128);
        let ry: i128 = floor_div_i128((self.y as i128) * (SCALE as i128), len as i128);
        let rz: i128 = floor_div_i128((self.z as i128) * (SCALE as i128), len as i128);
        proof {
            lemma_normalize_bounded(*self);
        }
        Vec3 { x: rx as i64, y: ry as i64, z: rz as i64 }
    }
}

/// The fixed-point unit vector along `v`.
pub open spec fn normalize_spec(v: Vec3) -> Vec3 {
    let len = sqrt_floor(dot_spec(v, v));
    Vec3 {
        x: fdiv(v.x * SCALE, len) as i64,
        y: fdiv(v.y * SCALE, len) as i64,
        z: fdiv(v.z * SCALE, len) as i64,
    }
}

/// The length floor of a vector dominates the magnitude of each component.
proof fn lemma_len_dominates(v: Vec3)
    requires
        dot_spec(v, v) > 0,
    ensures
        sqrt_floor(dot_spec(v, v)) >= 1,
        sqrt_floor(dot_spec(v, v)) >= abs_int(v.x as int),
        sqrt_floor(dot_spec(v, v)) >= abs_int(v.y as int),
        sqrt_floor(dot_spec(v, v)) >= abs_int(v.z as int),
{
    let n = dot_spec(v, v);
    let len = sqrt_floor(n);
    crate::math::lemma_sqrt_exists(n);
    assert(0 <= len && len * len <= n < (len + 1) * (len + 1));
    assert(len >= 1) by (nonlinear_arith)
        requires
            n >= 1,
            0 <= len,
            n < (len + 1) * (len + 1),
    ;
    assert(len >= abs_int(v.x as int) && len >= abs_int(v.y as int) && len >= abs_int(v.z as int))
        by (nonlinear_arith)
        requires
            n == v.x * v.x + v.y * v.y + v.z * v.z,
            0 <= len,
            n < (len + 1) * (len + 1),
    ;
}

/// Each normalized component stays within one fixed-point unit.
proof fn lemma_normalize_bounded(v: Vec3)
    requires
        bounded(v, COORD_LIMIT as int),
        dot_spec(v, v) > 0,
    ensures
        bounded(normalize_spec(v), SCALE as int + 1),
{
    let len = sqrt_floor(dot_spec(v, v));
    lemma_len_dominates(v);
    assert(-(SCALE as int) - 1 <= fdiv(v.x * SCALE, len) <= SCALE as int + 1) by (nonlinear_arith)
        requires
            len >= 1,
            len >= abs_int(v.x as int),
    ;
    assert(-(SCALE as int) - 1 <= fdiv(v.y * SCALE, len) <= SCALE as int + 1) by (nonlinear_arith)
        requires
            len >= 1,
            len >= abs_int(v.y as int),
    ;
    assert(-(SCALE as int) - 1 <= fdiv(v.z * SCALE, len) <= SCALE as int + 1) by (nonlinear_arith)
        requires
            len >= 1,
            len >= abs_int(v.z as int),
    ;
}

pub open spec fn abs_int(x: int) -> int {
    if x >= 0 {
        x
    } else {
        -x
    }
}

proof fn lemma_dot_products(a: int, b: int)
    requires
        -0x1000_0000_0000 <= a <= 0x1000_0000_0000,
        -0x1000_0000_0000 <= b <= 0x1000_0000_0000,
    ensures
        -0x100_0000_0000_0000_0000_0000 <= a * b <= 0x100_0000_0000_0000_0000_0000,
{
    assert(-0x100_0000_0000_0000_0000_0000 <= a * b <= 0x100_0000_0000_0000_0000_0000)
        by (nonlinear_arith)
        requires
            -0x1000_0000_0000 <= a <= 0x1000_0000_0000,
            -0x1000_0000_0000 <= b <= 0x1000_0000_0000,
    ;
}

proof fn lemma_small_products(a: int, b: int)
    requires
        -0x10_0000 <= a <= 0x10_0000,
        -0x10_0000 <= b <= 0x10_0000,
    ensures
        -0x100_0000_0000 <= a * b <= 0x100_0000_0000,
{
    assert(-0x100_0000_0000 <= a * b <= 0x100_0000_0000) by (nonlinear_arith)
        requires
            -0x10_0000 <= a <= 0x10_0000,
            -0x10_0000 <= b <= 0x10_0000,
    ;
}

} // verus!
