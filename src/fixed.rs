//! Fixed-point conventions shared by the whole library.
//!
//! Lengths are integers in micro-units, times are integers in microseconds, and
//! velocities are micro-units per second; `SCALE` raw units make one unit (or
//! one second). Intensities and reflectances are fractions of `FULL_INTENSITY`.
use vstd::prelude::*;

verus! {

/// Raw units in one unit of length, and microseconds in one second.
pub const SCALE: i64 = 1_000_000;

/// Largest magnitude of a point or direction component that the intersection
/// kernel accepts (2^29 raw units, a little over 536 units).
pub const MAX_COORD: i64 = 536_870_912;

/// Largest magnitude of a ray's time offset (2^62 microseconds).
pub const MAX_TIME: i64 = 4_611_686_018_427_387_904;

/// Intensity of a freshly emitted sound; a reflectance of `FULL_INTENSITY`
/// keeps all of the intensity.
pub const FULL_INTENSITY: u64 = 1_000_000_000_000_000;

/// Intensity below which a reflected sound is inaudible and discarded
/// (one billionth of `FULL_INTENSITY`).
pub const AUDIBILITY_THRESHOLD: u64 = 1_000_000;

/// Speed of sound: 344 units per second, in micro-units per second.
pub const SPEED_OF_SOUND: i64 = 344_000_000;

/// `r` is the integer square root of `n`: the largest integer whose square is
/// at most `n`.
pub open spec fn is_isqrt(n: int, r: int) -> bool {
    0 <= r && r * r <= n && n < (r + 1) * (r + 1)
}

/// The integer square root of a non-negative `n`.
pub open spec fn int_sqrt(n: int) -> int {
    choose|r: int| is_isqrt(n, r)
}

/// A value has at most one integer square root.
pub proof fn lemma_isqrt_unique(n: int, r1: int, r2: int)
    requires
        is_isqrt(n, r1),
        is_isqrt(n, r2),
    ensures
        r1 == r2,
{
    if r1 < r2 {
        assert((r1 + 1) * (r1 + 1) <= r2 * r2) by (nonlinear_arith)
            requires
                0 <= r1 + 1 <= r2,
        ;
    } else if r2 < r1 {
        assert((r2 + 1) * (r2 + 1) <= r1 * r1) by (nonlinear_arith)
            requires
                0 <= r2 + 1 <= r1,
        ;
    }
}

/// `r` is the integer square root exactly when it satisfies `is_isqrt`.
pub proof fn lemma_int_sqrt(n: int, r: int)
    requires
        is_isqrt(n, r),
    ensures
        int_sqrt(n) == r,
{
    let c = int_sqrt(n);
    assert(is_isqrt(n, c));
    lemma_isqrt_unique(n, c, r);
}

/// Integer square root, rounded down.
pub fn isqrt(n: u128) -> (r: u64)
    ensures
        is_isqrt(n as int, r as int),
        r as int == int_sqrt(n as int),
{
    let mut lo: u128 = 0;
    let mut hi: u128 = 0x1_0000_0000_0000_0000;
    assert(hi * hi > u128::MAX) by (nonlinear_arith)
        requires
            hi == 0x1_0000_0000_0000_0000u128,
    ;
    while hi - lo > 1
        invariant
            lo < hi <= 0x1_0000_0000_0000_0000u128,
            lo * lo <= n,
            n < hi * hi,
        decreases hi - lo,
    {
        let mid: u128 = lo + (hi - lo) / 2;
        assert(mid * mid <= u128::MAX) by (nonlinear_arith)
            requires
                mid < 0x1_0000_0000_0000_0000u128,
        ;
        if mid * mid <= n {
            lo = mid;
        } else {
            hi = mid;
        }
    }
    assert(hi == lo + 1);
    proof {
        lemma_int_sqrt(n as int, lo as int);
    }
    lo as u64
}

/// Floor division of `a` by a positive `b` (spec `/` is floor division when
/// the divisor is positive).
pub fn floor_div(a: i128, b: i128) -> (q: i128)
    requires
        b > 0,
        a > i128::MIN,
    ensures
        q == a / b,
{
    if a >= 0 {
        ((a as u128) / (b as u128)) as i128
    } else {
        let m: u128 = (-(a + 1)) as u128;
        let q0: u128 = m / (b as u128);
        proof {
            let qq = m as int / b as int;
            let rr = m as int % b as int;
            vstd::arithmetic::div_mod::lemma_fundamental_div_mod(m as int, b as int);
            assert(a == (-qq - 1) * b + (b - rr - 1)) by (nonlinear_arith)
                requires
                    m as int == b * qq + rr,
                    a == -(m as int) - 1,
            ;
            vstd::arithmetic::div_mod::lemma_fundamental_div_mod_converse(
                a as int,
                b as int,
                -qq - 1,
                b - rr - 1,
            );
        }
        -(q0 as i128) - 1
    }
}

} // verus!
