//! The crate's only source of randomness, and the sample shapes built on
//! it. Construction picks split axes with it and the materials draw
//! scatter directions from it; everything downstream is verified for every
//! value it may produce.

use vstd::prelude::*;
use crate::math::SCALE;
use crate::vec3::{Vec3, bounded, dot_spec};

verus! {

/// Relies on rand::random::<u32>: a fresh 32-bit value from the thread's
/// generator. Nothing is promised of the value.
#[verifier::external_body]
fn random_u32() -> u32 {
    rand::random::<u32>()
}

/// A draw below `m`.
pub fn random_below(m: u32) -> (r: u32)
    requires
        m > 0,
    ensures
        r < m,
{
    random_u32() % m
}

/// A fixed-point scalar in `[-SCALE, SCALE]`.
pub fn random_sym_unit() -> (r: i64)
    ensures
        -SCALE <= r <= SCALE,
{
    (random_below(2 * (SCALE as u32) + 1) as i64) - SCALE
}

/// A fixed-point scalar in `[0, SCALE)`.
pub fn random_unit() -> (r: i64)
    ensures
        0 <= r < SCALE,
{
    random_below(SCALE as u32) as i64
}

/// A point of the closed unit ball, by rejection sampling with a bounded
/// number of attempts and a fixed interior fallback.
pub fn random_in_unit_sphere() -> (v: Vec3)
    ensures
        bounded(v, SCALE as int),
        dot_spec(v, v) <= SCALE * SCALE,
{
    let mut attempts: u32 = 32;
    while attempts > 0
        invariant
            true,
        decreases attempts,
    {
        let x = random_sym_unit();
        let y = random_sym_unit();
        let z = random_sym_unit();
        proof {
            lemma_square_small(x as int);
            lemma_square_small(y as int);
            lemma_square_small(z as int);
        }
        let n2: i128 = (x as i128) * (x as i128) + (y as i128) * (y as i128) + (z as i128) * (
        z as i128);
        if n2 <= (SCALE as i128) * (SCALE as i128) {
            let v = Vec3 { x, y, z };
            proof {
                assert(dot_spec(v, v) == x * x + y * y + z * z);
            }
            return v;
        }
        attempts = attempts - 1;
    }
    let v = Vec3 { x: 0, y: 0, z: SCALE / 2 };
    proof {
        assert(dot_spec(v, v) <= SCALE * SCALE) by (nonlinear_arith)
            requires
                v.x == 0 && v.y == 0 && v.z == SCALE / 2,
                SCALE == 1024,
                dot_spec(v, v) == v.x * v.x + v.y * v.y + v.z * v.z,
        ;
    }
    v
}

/// A point of the closed unit disk, for cosine-weighted hemisphere
/// sampling by projection.
pub fn random_in_unit_disk() -> (p: (i64, i64))
    ensures
        -SCALE <= p.0 <= SCALE,
        -SCALE <= p.1 <= SCALE,
        p.0 * p.0 + p.1 * p.1 <= SCALE * SCALE,
{
    let mut attempts: u32 = 32;
    while attempts > 0
        invariant
            true,
        decreases attempts,
    {
        let x = random_sym_unit();
        let y = random_sym_unit();
        proof {
            lemma_square_small(x as int);
            lemma_square_small(y as int);
        }
        let n2: i128 = (x as i128) * (x as i128) + (y as i128) * (y as i128);
        if n2 <= (SCALE as i128) * (SCALE as i128) {
            return (x, y);
        }
        attempts = attempts - 1;
    }
    (0, 0)
}

proof fn lemma_square_small(x: int)
    requires
        -0x10_0000 <= x <= 0x10_0000,
    ensures
        0 <= x * x <= 0x100_0000_0000,
{
    assert(0 <= x * x <= 0x100_0000_0000) by (nonlinear_arith)
        requires
            -0x10_0000 <= x <= 0x10_0000,
    ;
}

} // verus!
