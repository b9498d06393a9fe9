//! Axis-aligned bounding boxes: the surrounding-box merge and the slab
//! intersection test, carried out in exact rational arithmetic so that the
//! box is a provably conservative proxy for the geometry inside it.

use vstd::prelude::*;
use crate::math::SCALE;
use crate::vec3::{Vec3, bounded};
use crate::ray::{Ray, ray_wf};

verus! {

/// Largest magnitude a box corner component may take: a scene coordinate
/// plus a radius plus the rounding pad.
pub const BOX_LIMIT: i64 = 0x200_0000;

/// Min and max corner points. Invariant: `min[i] <= max[i]` on every axis.
#[derive(Clone, Copy, PartialEq, Eq, Structural, Debug)]
pub struct Aabb {
    pub min: Vec3,
    pub max: Vec3,
}

pub open spec fn box_wf(b: Aabb) -> bool {
    &&& bounded(b.min, BOX_LIMIT as int)
    &&& bounded(b.max, BOX_LIMIT as int)
    &&& b.min.x <= b.max.x
    &&& b.min.y <= b.max.y
    &&& b.min.z <= b.max.z
}

/// `outer` encloses `inner` entirely.
pub open spec fn contains_box(outer: Aabb, inner: Aabb) -> bool {
    &&& outer.min.x <= inner.min.x
    &&& outer.min.y <= inner.min.y
    &&& outer.min.z <= inner.min.z
    &&& inner.max.x <= outer.max.x
    &&& inner.max.y <= outer.max.y
    &&& inner.max.z <= outer.max.z
}

pub open spec fn imin(a: int, b: int) -> int {
    if a <= b {
        a
    } else {
        b
    }
}

pub open spec fn imax(a: int, b: int) -> int {
    if a >= b {
        a
    } else {
        b
    }
}

/// Componentwise min of mins and max of maxes.
pub open spec fn surrounding_box_spec(a: Aabb, b: Aabb) -> Aabb {
    Aabb {
        min: Vec3 {
            x: imin(a.min.x as int, b.min.x as int) as i64,
            y: imin(a.min.y as int, b.min.y as int) as i64,
            z: imin(a.min.z as int, b.min.z as int) as i64,
        },
        max: Vec3 {
            x: imax(a.max.x as int, b.max.x as int) as i64,
            y: imax(a.max.y as int, b.max.y as int) as i64,
            z: imax(a.max.z as int, b.max.z as int) as i64,
        },
    }
}

/// On one axis: the ray point at parameter `t` lies strictly between the
/// two slab planes. `o`, `d` are the ray's origin and direction components.
pub open spec fn axis_strict(o: int, d: int, mn: int, mx: int, t: int) -> bool {
    SCALE * (mn - o) < t * d < SCALE * (mx - o)
}

/// The ray point at parameter `t` lies strictly inside `b` on every axis.
pub open spec fn strict_inside(r: Ray, t: int, b: Aabb) -> bool {
    &&& axis_strict(r.origin.x as int, r.direction.x as int, b.min.x as int, b.max.x as int, t)
    &&& axis_strict(r.origin.y as int, r.direction.y as int, b.min.y as int, b.max.y as int, t)
    &&& axis_strict(r.origin.z as int, r.direction.z as int, b.min.z as int, b.max.z as int, t)
}

/// On one axis, non-strictly, at the rational parameter `tn / td`.
pub open spec fn axis_inside_rat(o: int, d: int, mn: int, mx: int, tn: int, td: int) -> bool {
    SCALE * (mn - o) * td <= tn * d <= SCALE * (mx - o) * td
}

/// The ray point at the rational parameter `tn / td` lies inside `b`.
pub open spec fn inside_rat(r: Ray, tn: int, td: int, b: Aabb) -> bool {
    &&& axis_inside_rat(
        r.origin.x as int,
        r.direction.x as int,
        b.min.x as int,
        b.max.x as int,
        tn,
        td,
    )
    &&& axis_inside_rat(
        r.origin.y as int,
        r.direction.y as int,
        b.min.y as int,
        b.max.y as int,
        tn,
        td,
    )
    &&& axis_inside_rat(
        r.origin.z as int,
        r.direction.z as int,
        b.min.z as int,
        b.max.z as int,
        tn,
        td,
    )
}

/// A point strictly inside a box is strictly inside every enclosing box.
pub proof fn lemma_strict_inside_monotone(r: Ray, t: int, inner: Aabb, outer: Aabb)
    requires
        strict_inside(r, t, inner),
        contains_box(outer, inner),
    ensures
        strict_inside(r, t, outer),
{
}

/// Box containment is transitive.
pub proof fn lemma_contains_trans(a: Aabb, b: Aabb, c: Aabb)
    requires
        contains_box(a, b),
        contains_box(b, c),
    ensures
        contains_box(a, c),
{
}

/// A surrounding box contains both of its arguments entirely, and the merge
/// is commutative.
pub proof fn lemma_surrounding_box(a: Aabb, b: Aabb)
    ensures
        contains_box(surrounding_box_spec(a, b), a),
        contains_box(surrounding_box_spec(a, b), b),
        surrounding_box_spec(a, b) == surrounding_box_spec(b, a),
{
}

/// Magnitudes kept by the slab test: numerators within `i64` range,
/// denominators positive direction components.
pub open spec fn rat_bounded(n: int, d: int) -> bool {
    -0x8000_0000_0000_0000 <= n <= 0x8000_0000_0000_0000 && 0 < d <= 0x80_0000
}

impl Aabb {
    /// The degenerate box at the origin, used as the seed of a fold.
    pub fn zero() -> (r: Aabb)
        ensures
            r == (Aabb {
                min: Vec3 { x: 0i64, y: 0i64, z: 0i64 },
                max: Vec3 { x: 0i64, y: 0i64, z: 0i64 },
            }),
            box_wf(r),
    {
        Aabb { min: Vec3 { x: 0, y: 0, z: 0 }, max: Vec3 { x: 0, y: 0, z: 0 } }
    }

    /// Componentwise min of mins, max of maxes: the tightest box holding
    /// both `self` and `other`.
    pub fn surrounding_box(&self, other: &Aabb) -> (r: Aabb)
        requires
            box_wf(*self),
            box_wf(*other),
        ensures
            r == surrounding_box_spec(*self, *other),
            box_wf(r),
            contains_box(r, *self),
            contains_box(r, *other),
    {
        let mn = Vec3 {
            x: if self.min.x <= other.min.x {
                self.min.x
            } else {
                other.min.x
            },
            y: if self.min.y <= other.min.y {
                self.min.y
            } else {
                other.min.y
            },
            z: if self.min.z <= other.min.z {
                self.min.z
            } else {
                other.min.z
            },
        };
        let mx = Vec3 {
            x: if self.max.x >= other.max.x {
                self.max.x
            } else {
                other.max.x
            },
            y: if self.max.y >= other.max.y {
                self.max.y
            } else {
                other.max.y
            },
            z: if self.max.z >= other.max.z {
                self.max.z
            } else {
                other.max.z
            },
        };
        Aabb { min: mn, max: mx }
    }

    /// Slab test: does the ray cross this box somewhere in the open
    /// parameter interval `(t_min, t_max)`?
    ///
    /// The running interval is kept as a pair of exact rationals, so a
    /// direction component of zero needs no infinities: the axis either
    /// constrains nothing or rejects outright.
    ///
    /// The contract makes the box a conservative proxy: any integer
    /// parameter strictly inside the box within the interval forces a hit,
    /// and a reported hit really is a rational crossing of the box.
    pub fn hit(&self, ray: &Ray, t_min: i64, t_max: i64) -> (res: bool)
        requires
            box_wf(*self),
            ray_wf(*ray),
        ensures
            forall|t: int| t_min < t < t_max && #[trigger] strict_inside(*ray, t, *self) ==> res,
            res ==> exists|tn: int, td: int|
                td > 0 && t_min * td <= tn <= t_max * td && #[trigger] inside_rat(
                    *ray,
                    tn,
                    td,
                    *self,
                ),
    {
        let r1 = axis_update(
            t_min as i128,
            1,
            t_max as i128,
            1,
            ray.origin.x,
            ray.direction.x,
            self.min.x,
            self.max.x,
        );
        let iv1: (i128, i128, i128, i128);
        match r1 {
            None => {
                return false;
            },
            Some(iv) => {
                iv1 = iv;
            },
        }
        let r2 = axis_update(
            iv1.0,
            iv1.1,
            iv1.2,
            iv1.3,
            ray.origin.y,
            ray.direction.y,
            self.min.y,
            self.max.y,
        );
        let iv2: (i128, i128, i128, i128);
        match r2 {
            None => {
                return false;
            },
            Some(iv) => {
                iv2 = iv;
            },
        }
        let r3 = axis_update(
            iv2.0,
            iv2.1,
            iv2.2,
            iv2.3,
            ray.origin.z,
            ray.direction.z,
            self.min.z,
            self.max.z,
        );
        let iv3: (i128, i128, i128, i128);
        match r3 {
            None => {
                return false;
            },
            Some(iv) => {
                iv3 = iv;
            },
        }
        proof {
            lemma_rat_products(iv3.0 as int, iv3.3 as int);
            lemma_rat_products(iv3.2 as int, iv3.1 as int);
        }
        let res = iv3.0 * iv3.3 < iv3.2 * iv3.1;
        proof {
            assert forall|t: int|
                t_min < t < t_max && #[trigger] strict_inside(*ray, t, *self) implies res by {
                assert((t_min as int) * 1 < t * 1 && t * 1 < (t_max as int) * 1) by (nonlinear_arith)
                    requires
                        t_min < t < t_max,
                ;
                assert(iv3.0 < t * iv3.1 && t * iv3.3 < iv3.2);
                assert(iv3.0 * iv3.3 < iv3.2 * iv3.1) by (nonlinear_arith)
                    requires
                        iv3.1 > 0,
                        iv3.3 > 0,
                        iv3.0 < t * iv3.1,
                        t * iv3.3 < iv3.2,
                ;
            }
            if res {
                let tn = iv3.0 as int;
                let td = iv3.1 as int;
                assert(iv3.0 * td <= tn * iv3.1 && tn * iv3.3 <= iv3.2 * td);
                assert(inside_rat(*ray, tn, td, *self));
                assert((t_min as int) * td <= tn * 1 && tn * 1 <= (t_max as int) * td);
                assert(t_min * td <= tn <= t_max * td) by (nonlinear_arith)
                    requires
                        (t_min as int) * td <= tn * 1,
                        tn * 1 <= (t_max as int) * td,
                ;
            }
        }
        res
    }
}

proof fn lemma_rat_products(a: int, b: int)
    requires
        -0x8000_0000_0000_0000 <= a <= 0x8000_0000_0000_0000,
        -0x8000_0000_0000_0000 <= b <= 0x8000_0000_0000_0000,
    ensures
        -0x4000_0000_0000_0000_0000_0000_0000_0000 <= a * b
            <= 0x4000_0000_0000_0000_0000_0000_0000_0000,
{
    assert(-0x4000_0000_0000_0000_0000_0000_0000_0000 <= a * b
        <= 0x4000_0000_0000_0000_0000_0000_0000_0000) by (nonlinear_arith)
        requires
            -0x8000_0000_0000_0000 <= a <= 0x8000_0000_0000_0000,
            -0x8000_0000_0000_0000 <= b <= 0x8000_0000_0000_0000,
    ;
}

/// One axis of the slab test: intersect the running rational interval
/// `[lo, hi]` with this axis's slab, or reject when the axis admits no
/// parameter at all.
///
/// Completeness: every integer parameter strictly inside the running
/// interval and strictly inside this axis's slab stays strictly inside the
/// new interval. Soundness: a rational inside the new interval was inside
/// the old one and satisfies this axis's slab.
fn axis_update(lo_n: i128, lo_d: i128, hi_n: i128, hi_d: i128, o: i64, d: i64, mn: i64, mx: i64)
    -> (res: Option<(i128, i128, i128, i128)>)
    requires
        rat_bounded(lo_n as int, lo_d as int),
        rat_bounded(hi_n as int, hi_d as int),
        -0x80_0000 <= o <= 0x80_0000,
        -0x80_0000 <= d <= 0x80_0000,
        -0x200_0000 <= mn <= 0x200_0000,
        -0x200_0000 <= mx <= 0x200_0000,
    ensures
        res is None ==> forall|t: int|
            !#[trigger] axis_strict(o as int, d as int, mn as int, mx as int, t),
        res matches Some(iv) ==> rat_bounded(iv.0 as int, iv.1 as int) && rat_bounded(
            iv.2 as int,
            iv.3 as int,
        ),
        res matches Some(iv) ==> forall|t: int|
            lo_n < t * lo_d && t * hi_d < hi_n && #[trigger] axis_strict(
                o as int,
                d as int,
                mn as int,
                mx as int,
                t,
            ) ==> iv.0 < t * iv.1 && t * iv.3 < iv.2,
        res matches Some(iv) ==> forall|tn: int, td: int|
            #![trigger iv.0 * td, tn * iv.3]
            td > 0 && iv.0 * td <= tn * iv.1 && tn * iv.3 <= iv.2 * td ==> lo_n * td <= tn * lo_d
                && tn * hi_d <= hi_n * td && axis_inside_rat(
                o as int,
                d as int,
                mn as int,
                mx as int,
                tn,
                td,
            ),
{
    if d == 0 {
        if o < mn || o > mx {
            proof {
                assert forall|t: int|
                    !#[trigger] axis_strict(o as int, d as int, mn as int, mx as int, t) by {
                    assert(t * (d as int) == 0) by (nonlinear_arith)
                        requires
                            d == 0,
                    ;
                }
            }
            return None;
        }
        let iv = (lo_n, lo_d, hi_n, hi_d);
        proof {
            assert forall|tn: int, td: int|
                #![trigger iv.0 * td, tn * iv.3]
                td > 0 && iv.0 * td <= tn * iv.1 && tn * iv.3 <= iv.2 * td implies lo_n * td <= tn
                * lo_d && tn * hi_d <= hi_n * td && axis_inside_rat(
                o as int,
                d as int,
                mn as int,
                mx as int,
                tn,
                td,
            ) by {
                assert(tn * (d as int) == 0) by (nonlinear_arith)
                    requires
                        d == 0,
                ;
                assert(SCALE * ((mn - o) as int) * td <= 0) by (nonlinear_arith)
                    requires
                        td > 0,
                        mn <= o,
                        SCALE == 1024,
                ;
                assert(0 <= SCALE * ((mx - o) as int) * td) by (nonlinear_arith)
                    requires
                        td > 0,
                        o <= mx,
                        SCALE == 1024,
                ;
            }
        }
        return Some(iv);
    }
    // candidate slab interval for this axis, denominator made positive
    let cl_n: i128;
    let ch_n: i128;
    let c_d: i128;
    if d > 0 {
        cl_n = (SCALE as i128) * ((mn as i128) - (o as i128));
        ch_n = (SCALE as i128) * ((mx as i128) - (o as i128));
        c_d = d as i128;
    } else {
        cl_n = -((SCALE as i128) * ((mx as i128) - (o as i128)));
        ch_n = -((SCALE as i128) * ((mn as i128) - (o as i128)));
        c_d = -(d as i128);
    }
    proof {
        lemma_rat_products(cl_n as int, lo_d as int);
        lemma_rat_products(lo_n as int, c_d as int);
        lemma_rat_products(ch_n as int, hi_d as int);
        lemma_rat_products(hi_n as int, c_d as int);
    }
    // lo := max(lo, candidate lower), hi := min(hi, candidate upper)
    let new_lo_n: i128;
    let new_lo_d: i128;
    if cl_n * lo_d > lo_n * c_d {
        new_lo_n = cl_n;
        new_lo_d = c_d;
    } else {
        new_lo_n = lo_n;
        new_lo_d = lo_d;
    }
    let new_hi_n: i128;
    let new_hi_d: i128;
    if ch_n * hi_d < hi_n * c_d {
        new_hi_n = ch_n;
        new_hi_d = c_d;
    } else {
        new_hi_n = hi_n;
        new_hi_d = hi_d;
    }
    let iv = (new_lo_n, new_lo_d, new_hi_n, new_hi_d);
    proof {
        assert forall|t: int|
            lo_n < t * lo_d && t * hi_d < hi_n && #[trigger] axis_strict(
                o as int,
                d as int,
                mn as int,
                mx as int,
                t,
            ) implies iv.0 < t * iv.1 && t * iv.3 < iv.2 by {
            assert(cl_n < t * c_d && t * c_d < ch_n) by (nonlinear_arith)
                requires
                    d != 0,
                    c_d == if d > 0 {
                        d as int
                    } else {
                        -(d as int)
                    },
                    cl_n == if d > 0 {
                        SCALE * ((mn - o) as int)
                    } else {
                        -(SCALE * ((mx - o) as int))
                    },
                    ch_n == if d > 0 {
                        SCALE * ((mx - o) as int)
                    } else {
                        -(SCALE * ((mn - o) as int))
                    },
                    SCALE * ((mn - o) as int) < t * d < SCALE * ((mx - o) as int),
                    SCALE == 1024,
            ;
        }
        assert forall|tn: int, td: int|
            #![trigger iv.0 * td, tn * iv.3]
            td > 0 && iv.0 * td <= tn * iv.1 && tn * iv.3 <= iv.2 * td implies lo_n * td <= tn
            * lo_d && tn * hi_d <= hi_n * td && axis_inside_rat(
            o as int,
            d as int,
            mn as int,
            mx as int,
            tn,
            td,
        ) by {
            assert(lo_n * td <= tn * lo_d) by (nonlinear_arith)
                requires
                    td > 0,
                    lo_d > 0,
                    c_d > 0,
                    new_lo_d > 0,
                    new_lo_n * td <= tn * new_lo_d,
                    (new_lo_n == lo_n && new_lo_d == lo_d) || (new_lo_n == cl_n && new_lo_d == c_d
                        && cl_n * lo_d > lo_n * c_d),
            ;
            assert(cl_n * td <= tn * c_d) by (nonlinear_arith)
                requires
                    td > 0,
                    lo_d > 0,
                    c_d > 0,
                    new_lo_d > 0,
                    new_lo_n * td <= tn * new_lo_d,
                    (new_lo_n == cl_n && new_lo_d == c_d) || (new_lo_n == lo_n && new_lo_d == lo_d
                        && cl_n * lo_d <= lo_n * c_d),
            ;
            assert(tn * hi_d <= hi_n * td) by (nonlinear_arith)
                requires
                    td > 0,
                    hi_d > 0,
                    c_d > 0,
                    new_hi_d > 0,
                    tn * new_hi_d <= new_hi_n * td,
                    (new_hi_n == hi_n && new_hi_d == hi_d) || (new_hi_n == ch_n && new_hi_d == c_d
                        && ch_n * hi_d < hi_n * c_d),
            ;
            assert(tn * c_d <= ch_n * td) by (nonlinear_arith)
                requires
                    td > 0,
                    hi_d > 0,
                    c_d > 0,
                    new_hi_d > 0,
                    tn * new_hi_d <= new_hi_n * td,
                    (new_hi_n == ch_n && new_hi_d == c_d) || (new_hi_n == hi_n && new_hi_d == hi_d
                        && ch_n * hi_d >= hi_n * c_d),
            ;
            assert(axis_inside_rat(o as int, d as int, mn as int, mx as int, tn, td))
                by (nonlinear_arith)
                requires
                    td > 0,
                    d != 0,
                    c_d == if d > 0 {
                        d as int
                    } else {
                        -(d as int)
                    },
                    cl_n == if d > 0 {
                        SCALE * ((mn - o) as int)
                    } else {
                        -(SCALE * ((mx - o) as int))
                    },
                    ch_n == if d > 0 {
                        SCALE * ((mx - o) as int)
                    } else {
                        -(SCALE * ((mn - o) as int))
                    },
                    cl_n * td <= tn * c_d,
                    tn * c_d <= ch_n * td,
                    SCALE == 1024,
            ;
        }
    }
    Some(iv)
}

} // verus!
