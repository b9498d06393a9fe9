//! Fixed-point scalar arithmetic: the global scale, floor division, and an
//! exact integer square root. Every geometric quantity in this crate is an
//! `i64` that stands for the real number `value / SCALE`.

use vstd::prelude::*;

verus! {

/// Fixed-point units per world unit.
pub const SCALE: i64 = 1024;

/// Slack, in fixed-point units, added around every bounding box so that a
/// hit point rounded to the grid still falls strictly inside the box of the
/// primitive that produced it.
pub const BOX_PAD: i64 = 2;

/// Largest magnitude allowed for a scene coordinate (fixed-point units).
/// Keeps every intermediate product of the intersection arithmetic inside
/// `i128`.
pub const COORD_LIMIT: i64 = 0x0080_0000;

/// Floor of `a / b` as a spec value. Verus's `/` on `int` is Euclidean
/// division, which is floor division whenever the divisor is positive.
pub open spec fn fdiv(a: int, b: int) -> int {
    a / b
}

/// Floor of the square root: the unique `r >= 0` with `r * r <= n < (r + 1) * (r + 1)`.
pub open spec fn sqrt_floor(n: int) -> int {
    choose|r: int| 0 <= r && #[trigger] (r * r) <= n < (r + 1) * (r + 1)
}

/// Every nonnegative integer has a square-root floor, so `sqrt_floor`
/// satisfies its defining property.
pub proof fn lemma_sqrt_exists(n: int)
    requires
        n >= 0,
    ensures
        0 <= sqrt_floor(n),
        sqrt_floor(n) * sqrt_floor(n) <= n,
        n < (sqrt_floor(n) + 1) * (sqrt_floor(n) + 1),
    decreases n,
{
    if n == 0 {
        assert(exists|r: int| 0 <= r && #[trigger] (r * r) <= n < (r + 1) * (r + 1)) by {
            assert(0 <= 0int && 0int * 0int <= n < (0int + 1) * (0int + 1));
        }
    } else {
        lemma_sqrt_exists(n - 1);
        let r = sqrt_floor(n - 1);
        if n < (r + 1) * (r + 1) {
            assert(exists|q: int| 0 <= q && #[trigger] (q * q) <= n < (q + 1) * (q + 1)) by {
                assert(0 <= r && r * r <= n < (r + 1) * (r + 1));
            }
        } else {
            assert(n == (r + 1) * (r + 1));
            assert((r + 1) * (r + 1) < (r + 2) * (r + 2)) by (nonlinear_arith)
                requires
                    r >= 0,
            ;
            assert(exists|q: int| 0 <= q && #[trigger] (q * q) <= n < (q + 1) * (q + 1)) by {
                assert(0 <= r + 1 && (r + 1) * (r + 1) <= n < (r + 2) * (r + 2));
            }
        }
    }
    let w = choose|r: int| 0 <= r && #[trigger] (r * r) <= n < (r + 1) * (r + 1);
    assert(0 <= w && w * w <= n < (w + 1) * (w + 1));
}

/// Any two nonnegative integers whose squares bracket `n` the same way are equal.
pub proof fn lemma_sqrt_floor_unique(n: int, r: int)
    requires
        0 <= r,
        r * r <= n,
        n < (r + 1) * (r + 1),
    ensures
        sqrt_floor(n) == r,
{
    assert(exists|q: int| 0 <= q && #[trigger] (q * q) <= n < (q + 1) * (q + 1)) by {
        assert(0 <= r && r * r <= n < (r + 1) * (r + 1));
    }
    let q = sqrt_floor(n);
    assert(0 <= q && q * q <= n < (q + 1) * (q + 1));
    assert(q == r) by (nonlinear_arith)
        requires
            0 <= r,
            0 <= q,
            r * r <= n,
            n < (r + 1) * (r + 1),
            q * q <= n,
            n < (q + 1) * (q + 1),
    ;
}

/// Square roots of perfect squares are exact.
pub proof fn lemma_sqrt_floor_square(c: int)
    requires
        0 <= c,
    ensures
        sqrt_floor(c * c) == c,
{
    assert(c * c < (c + 1) * (c + 1)) by (nonlinear_arith)
        requires
            0 <= c,
    ;
    lemma_sqrt_floor_unique(c * c, c);
}

/// Integer square root by bisection.
pub fn isqrt_u128(n: u128) -> (r: u128)
    ensures
        r * r <= n,
        n < (r + 1) * (r + 1),
        r == sqrt_floor(n as int),
        r < 0x1_0000_0000_0000_0000u128,
{
    if n == 0 {
        proof {
            lemma_sqrt_floor_unique(0, 0);
        }
        return 0;
    }
    let mut lo: u128 = 0;
    let mut hi: u128 = 0x1_0000_0000_0000_0000;
    assert(hi * hi > n) by (nonlinear_arith)
        requires
            hi == 0x1_0000_0000_0000_0000u128,
            n <= u128::MAX,
    ;
    while hi - lo > 1
        invariant
            lo < hi,
            hi <= 0x1_0000_0000_0000_0000u128,
            lo * lo <= n,
            n < hi * hi,
        decreases hi - lo,
    {
        let mid: u128 = lo + (hi - lo) / 2;
        assert(lo < mid < hi);
        if mid <= u128::MAX / mid {
            // mid * mid cannot overflow here
            assert(mid * mid <= u128::MAX) by (nonlinear_arith)
                requires
                    mid >= 1,
                    mid <= u128::MAX / mid,
            ;
            if mid * mid <= n {
                lo = mid;
            } else {
                hi = mid;
            }
        } else {
            // mid * mid would exceed u128::MAX >= n, so mid is too big
            assert(mid * mid > n) by (nonlinear_arith)
                requires
                    mid >= 1,
                    mid > u128::MAX / mid,
                    n <= u128::MAX,
            ;
            hi = mid;
        }
    }
    proof {
        assert(n < (lo + 1) * (lo + 1)) by (nonlinear_arith)
            requires
                hi == lo + 1,
                n < hi * hi,
        ;
        lemma_sqrt_floor_unique(n as int, lo as int);
    }
    lo
}

/// Floor division of a signed 128-bit value by a positive divisor.
pub fn floor_div_i128(a: i128, b: i128) -> (r: i128)
    requires
        b > 0,
        a > i128::MIN,
    ensures
        b * r <= a < b * (r + 1),
        r == fdiv(a as int, b as int),
        a >= 0 ==> 0 <= r <= a,
        a < 0 ==> a <= r <= 0,
{
    let r: i128;
    if a >= 0 {
        let q: u128 = (a as u128) / (b as u128);
        proof {
            vstd::arithmetic::div_mod::lemma_fundamental_div_mod(a as int, b as int);
            assert(q <= a) by (nonlinear_arith)
                requires
                    q == (a as u128) / (b as u128),
                    a >= 0,
                    b > 0,
            ;
        }
        r = q as i128;
        proof {
            assert(b * r <= a < b * (r + 1)) by (nonlinear_arith)
                requires
                    b > 0,
                    a >= 0,
                    r == (a as int) / (b as int),
            ;
        }
    } else {
        let m: u128 = (-a) as u128;
        // ceiling of m / b, then negated, gives the floor of a / b
        let q: u128 = (m + (b as u128) - 1) / (b as u128);
        proof {
            assert(q <= m) by (nonlinear_arith)
                requires
                    q == ((m + b - 1) as u128) / (b as u128),
                    m >= 1,
                    b > 0,
            ;
        }
        r = -(q as i128);
        proof {
            assert(b * r <= a < b * (r + 1)) by (nonlinear_arith)
                requires
                    b > 0,
                    a < 0,
                    m == -a,
                    q == ((m + b - 1) as int) / (b as int),
                    r == -q,
                    q <= m,
            ;
        }
    }
    proof {
        assert(r == (a as int) / (b as int)) by (nonlinear_arith)
            requires
                b > 0,
                b * r <= a,
                a < b * (r + 1),
        ;
    }
    r
}

/// A product of two values in `i64` range fits comfortably in `i128`.
pub proof fn lemma_i64_mul_fits(a: int, b: int)
    requires
        -0x8000_0000_0000_0000 <= a <= 0x8000_0000_0000_0000,
        -0x8000_0000_0000_0000 <= b <= 0x8000_0000_0000_0000,
    ensures
        -0x4000_0000_0000_0000_0000_0000_0000_0000 <= a * b
            <= 0x4000_0000_0000_0000_0000_0000_0000_0000,
{
    assert(-0x4000_0000_0000_0000_0000_0000_0000_0000 <= a * b
        <= 0x4000_0000_0000_0000_0000_0000_0000_0000) by (nonlinear_arith)
        requires
            -0x8000_0000_0000_0000 <= a <= 0x8000_0000_0000_0000,
            -0x8000_0000_0000_0000 <= b <= 0x8000_0000_0000_0000,
    ;
}

/// Floor division is monotone in the dividend, for a positive divisor.
pub proof fn lemma_fdiv_monotone(a1: int, a2: int, b: int)
    requires
        b > 0,
        a1 <= a2,
    ensures
        fdiv(a1, b) <= fdiv(a2, b),
{
    assert(a1 / b <= a2 / b) by (nonlinear_arith)
        requires
            b > 0,
            a1 <= a2,
    ;
}

/// A dividend strictly above an exact multiple floors to at least that multiple,
/// and one strictly below the next multiple floors to below it.
pub proof fn lemma_fdiv_between(x: int, lo: int, hi: int, b: int)
    requires
        b > 0,
        b * lo < x,
        x < b * hi,
    ensures
        lo <= fdiv(x, b) < hi,
{
    assert(lo <= x / b < hi) by (nonlinear_arith)
        requires
            b > 0,
            b * lo < x,
            x < b * hi,
    ;
}

/// Dividing an exact multiple returns the factor.
pub proof fn lemma_fdiv_exact(k: int, b: int)
    requires
        b > 0,
    ensures
        fdiv(b * k, b) == k,
{
    assert((b * k) / b == k) by (nonlinear_arith)
        requires
            b > 0,
    ;
}

} // verus!
