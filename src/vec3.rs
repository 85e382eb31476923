//! Three-component integer vectors.
//!
//! A `Vec3` holds raw fixed-point components (see `fixed`). Addition,
//! subtraction, negation, dot and cross products are exact over the raw
//! integers; scaling by a fixed-point scalar rounds toward negative infinity.
use vstd::prelude::*;

use crate::fixed::{floor_div, int_sqrt, isqrt, SCALE};
use crate::products::{CrossProduct, DotProduct};

verus! {

/// Bound on the components of the operands of `dot` (2^62).
pub const DOT_BOUND: i64 = 4_611_686_018_427_387_904;

/// Bound on the components of the operands of `cross` (2^31 - 1).
pub const CROSS_BOUND: i64 = 2_147_483_647;

/// `x` is representable as an `i64`.
pub open spec fn fits_i64(x: int) -> bool {
    i64::MIN <= x <= i64::MAX
}

/// Floor division for any non-zero divisor.
pub open spec fn fdiv(a: int, b: int) -> int {
    if b > 0 {
        a / b
    } else {
        (-a) / (-b)
    }
}

/// A vector of three raw fixed-point components.
#[derive(Clone, Copy, Debug, PartialEq, Eq, Structural)]
pub struct Vec3(pub i64, pub i64, pub i64);

impl Vec3 {
    /// Every component lies in `[-b, b]`.
    pub open spec fn within(self, b: int) -> bool {
        -b <= self.0 <= b && -b <= self.1 <= b && -b <= self.2 <= b
    }

    pub open spec fn is_zero(self) -> bool {
        self.0 == 0 && self.1 == 0 && self.2 == 0
    }

    /// Exact dot product of the raw components.
    pub open spec fn dot_int(self, o: Vec3) -> int {
        self.0 * o.0 + self.1 * o.1 + self.2 * o.2
    }

    /// Squared Euclidean length of the raw components.
    pub open spec fn norm_sq(self) -> int {
        self.dot_int(self)
    }

    /// Euclidean length of the raw components, rounded down.
    pub open spec fn length(self) -> int {
        int_sqrt(self.norm_sq())
    }

    /// Components of the exact cross product.
    pub open spec fn cross_x(self, o: Vec3) -> int {
        self.1 * o.2 - self.2 * o.1
    }

    pub open spec fn cross_y(self, o: Vec3) -> int {
        self.2 * o.0 - self.0 * o.2
    }

    pub open spec fn cross_z(self, o: Vec3) -> int {
        self.0 * o.1 - self.1 * o.0
    }

    /// Componentwise difference (exact where it is representable).
    pub open spec fn minus(self, o: Vec3) -> Vec3 {
        Vec3((self.0 - o.0) as i64, (self.1 - o.1) as i64, (self.2 - o.2) as i64)
    }

    /// Componentwise sum (exact where it is representable).
    pub open spec fn plus(self, o: Vec3) -> Vec3 {
        Vec3((self.0 + o.0) as i64, (self.1 + o.1) as i64, (self.2 + o.2) as i64)
    }

    /// Componentwise negation (exact where it is representable).
    pub open spec fn negated(self) -> Vec3 {
        Vec3((-self.0) as i64, (-self.1) as i64, (-self.2) as i64)
    }

    /// `self` multiplied by the fixed-point scalar `k`, rounded down.
    pub open spec fn scaled(self, k: int) -> Vec3 {
        Vec3(
            ((self.0 * k) / SCALE as int) as i64,
            ((self.1 * k) / SCALE as int) as i64,
            ((self.2 * k) / SCALE as int) as i64,
        )
    }

    /// `self` divided by the fixed-point scalar `k`, rounded down.
    pub open spec fn divided(self, k: int) -> Vec3 {
        Vec3(
            fdiv(self.0 * SCALE, k) as i64,
            fdiv(self.1 * SCALE, k) as i64,
            fdiv(self.2 * SCALE, k) as i64,
        )
    }

    /// `self` rescaled to length `SCALE` (one unit), rounded down.
    pub open spec fn unit_spec(self) -> Vec3 {
        self.divided(self.length())
    }

    /// Componentwise sum.
    pub fn add(self, o: Vec3) -> (r: Vec3)
        requires
            fits_i64(self.0 + o.0),
            fits_i64(self.1 + o.1),
            fits_i64(self.2 + o.2),
        ensures
            r == self.plus(o),
            r.0 == self.0 + o.0,
            r.1 == self.1 + o.1,
            r.2 == self.2 + o.2,
    {
        Vec3(self.0 + o.0, self.1 + o.1, self.2 + o.2)
    }

    /// Componentwise difference.
    pub fn sub(self, o: Vec3) -> (r: Vec3)
        requires
            fits_i64(self.0 - o.0),
            fits_i64(self.1 - o.1),
            fits_i64(self.2 - o.2),
        ensures
            r == self.minus(o),
            r.0 == self.0 - o.0,
            r.1 == self.1 - o.1,
            r.2 == self.2 - o.2,
    {
        Vec3(self.0 - o.0, self.1 - o.1, self.2 - o.2)
    }

    /// Componentwise negation.
    pub fn neg(self) -> (r: Vec3)
        requires
            self.0 > i64::MIN,
            self.1 > i64::MIN,
            self.2 > i64::MIN,
        ensures
            r == self.negated(),
            r.0 == -self.0,
            r.1 == -self.1,
            r.2 == -self.2,
    {
        Vec3(-self.0, -self.1, -self.2)
    }

    /// Multiplication by the fixed-point scalar `k` (raw, `SCALE` per unit).
    pub fn mul(self, k: i64) -> (r: Vec3)
        requires
            fits_i64((self.0 * k) / SCALE as int),
            fits_i64((self.1 * k) / SCALE as int),
            fits_i64((self.2 * k) / SCALE as int),
        ensures
            r == self.scaled(k as int),
            r.0 == (self.0 * k) / SCALE as int,
            r.1 == (self.1 * k) / SCALE as int,
            r.2 == (self.2 * k) / SCALE as int,
    {
        let s: i128 = SCALE as i128;
        let k2: i128 = k as i128;
        proof {
            lemma_mul_fits_i128(self.0 as int, k as int);
            lemma_mul_fits_i128(self.1 as int, k as int);
            lemma_mul_fits_i128(self.2 as int, k as int);
        }
        Vec3(
            floor_div(self.0 as i128 * k2, s) as i64,
            floor_div(self.1 as i128 * k2, s) as i64,
            floor_div(self.2 as i128 * k2, s) as i64,
        )
    }

    /// Division by the non-zero fixed-point scalar `k` (raw, `SCALE` per unit).
    pub fn div(self, k: i64) -> (r: Vec3)
        requires
            k != 0,
            fits_i64(fdiv(self.0 * SCALE, k as int)),
            fits_i64(fdiv(self.1 * SCALE, k as int)),
            fits_i64(fdiv(self.2 * SCALE, k as int)),
        ensures
            r == self.divided(k as int),
            r.0 == fdiv(self.0 * SCALE, k as int),
            r.1 == fdiv(self.1 * SCALE, k as int),
            r.2 == fdiv(self.2 * SCALE, k as int),
    {
        Vec3(
            div_component(self.0, k as i128),
            div_component(self.1, k as i128),
            div_component(self.2, k as i128),
        )
    }

    /// In-place division by the non-zero fixed-point scalar `k`.
    pub fn div_assign(&mut self, k: i64)
        requires
            k != 0,
            fits_i64(fdiv(old(self).0 * SCALE, k as int)),
            fits_i64(fdiv(old(self).1 * SCALE, k as int)),
            fits_i64(fdiv(old(self).2 * SCALE, k as int)),
        ensures
            *final(self) == old(self).divided(k as int),
    {
        *self = self.div(k);
    }

    /// Euclidean length, rounded down, in raw units.
    pub fn mag(&self) -> (r: u64)
        ensures
            r as int == self.length(),
    {
        let sq: u128 = square_u128(self.0) + square_u128(self.1) + square_u128(self.2);
        isqrt(sq)
    }

    /// The vector of length `SCALE` (one unit) in the direction of `self`,
    /// each component rounded down. Undefined on the zero vector.
    pub fn unit(self) -> (r: Vec3)
        requires
            !self.is_zero(),
        ensures
            r == self.unit_spec(),
            r.within(SCALE as int),
    {
        let m: u64 = self.mag();
        proof {
            lemma_length_bounds(self);
        }
        Vec3(
            unit_component(self.0, m),
            unit_component(self.1, m),
            unit_component(self.2, m),
        )
    }

    /// The vector with the direction of `components` and length `magnitude`
    /// (both raw), rounded down. Undefined when `components` is all zero.
    pub fn from_components_with_mag(components: (i64, i64, i64), magnitude: i64) -> (r: Vec3)
        requires
            !(components.0 == 0 && components.1 == 0 && components.2 == 0),
            magnitude > i64::MIN,
        ensures
            r == Vec3(components.0, components.1, components.2).unit_spec().scaled(
                magnitude as int,
            ),
            magnitude >= 0 ==> r.within(magnitude as int),
    {
        let u: Vec3 = Vec3(components.0, components.1, components.2).unit();
        proof {
            lemma_scaled_unit_fits(u.0 as int, magnitude as int);
            lemma_scaled_unit_fits(u.1 as int, magnitude as int);
            lemma_scaled_unit_fits(u.2 as int, magnitude as int);
        }
        u.mul(magnitude)
    }
}

impl DotProduct for Vec3 {
    type Output = i128;

    open spec fn dot_defined(&self, other: &Vec3) -> bool {
        self.within(DOT_BOUND as int) && other.within(DOT_BOUND as int)
    }

    open spec fn spec_dot(&self, other: &Vec3) -> i128 {
        self.dot_int(*other) as i128
    }

    /// Exact dot product of the raw components.
    fn dot(&self, other: &Vec3) -> (r: i128) {
        proof {
            lemma_dot_bound(*self, *other);
        }
        self.0 as i128 * other.0 as i128 + self.1 as i128 * other.1 as i128 + self.2 as i128
            * other.2 as i128
    }
}

impl CrossProduct for Vec3 {
    open spec fn cross_defined(&self, other: &Vec3) -> bool {
        self.within(CROSS_BOUND as int) && other.within(CROSS_BOUND as int)
    }

    open spec fn spec_cross(&self, other: &Vec3) -> Vec3 {
        Vec3(
            self.cross_x(*other) as i64,
            self.cross_y(*other) as i64,
            self.cross_z(*other) as i64,
        )
    }

    /// Exact cross product of the raw components.
    fn cross(&self, other: &Vec3) -> (r: Vec3) {
        proof {
            lemma_cross_bound(*self, *other);
        }
        Vec3(
            (self.1 as i128 * other.2 as i128 - self.2 as i128 * other.1 as i128) as i64,
            (self.2 as i128 * other.0 as i128 - self.0 as i128 * other.2 as i128) as i64,
            (self.0 as i128 * other.1 as i128 - self.1 as i128 * other.0 as i128) as i64,
        )
    }
}

/// The cross product of bounded vectors is representable.
pub proof fn lemma_cross_bound(a: Vec3, b: Vec3)
    requires
        a.within(CROSS_BOUND as int),
        b.within(CROSS_BOUND as int),
    ensures
        -(CROSS_BOUND as int * CROSS_BOUND) <= a.1 * b.2 <= CROSS_BOUND as int * CROSS_BOUND,
        -(CROSS_BOUND as int * CROSS_BOUND) <= a.2 * b.1 <= CROSS_BOUND as int * CROSS_BOUND,
        -(CROSS_BOUND as int * CROSS_BOUND) <= a.2 * b.0 <= CROSS_BOUND as int * CROSS_BOUND,
        -(CROSS_BOUND as int * CROSS_BOUND) <= a.0 * b.2 <= CROSS_BOUND as int * CROSS_BOUND,
        -(CROSS_BOUND as int * CROSS_BOUND) <= a.0 * b.1 <= CROSS_BOUND as int * CROSS_BOUND,
        -(CROSS_BOUND as int * CROSS_BOUND) <= a.1 * b.0 <= CROSS_BOUND as int * CROSS_BOUND,
        fits_i64(a.cross_x(b)),
        fits_i64(a.cross_y(b)),
        fits_i64(a.cross_z(b)),
{
    let m = CROSS_BOUND as int;
    lemma_product_bound(a.1 as int, b.2 as int, m);
    lemma_product_bound(a.2 as int, b.1 as int, m);
    lemma_product_bound(a.2 as int, b.0 as int, m);
    lemma_product_bound(a.0 as int, b.2 as int, m);
    lemma_product_bound(a.0 as int, b.1 as int, m);
    lemma_product_bound(a.1 as int, b.0 as int, m);
}

/// The dot product of bounded vectors is representable in 127 bits.
pub proof fn lemma_dot_bound(a: Vec3, b: Vec3)
    requires
        a.within(DOT_BOUND as int),
        b.within(DOT_BOUND as int),
    ensures
        -0x1000_0000_0000_0000_0000_0000_0000_0000 <= a.0 * b.0
            <= 0x1000_0000_0000_0000_0000_0000_0000_0000,
        -0x1000_0000_0000_0000_0000_0000_0000_0000 <= a.1 * b.1
            <= 0x1000_0000_0000_0000_0000_0000_0000_0000,
        -0x1000_0000_0000_0000_0000_0000_0000_0000 <= a.2 * b.2
            <= 0x1000_0000_0000_0000_0000_0000_0000_0000,
        -0x3000_0000_0000_0000_0000_0000_0000_0000 <= a.dot_int(b)
            <= 0x3000_0000_0000_0000_0000_0000_0000_0000,
{
    let m = DOT_BOUND as int;
    lemma_product_bound(a.0 as int, b.0 as int, m);
    lemma_product_bound(a.1 as int, b.1 as int, m);
    lemma_product_bound(a.2 as int, b.2 as int, m);
    assert(m * m == 0x1000_0000_0000_0000_0000_0000_0000_0000);
}

/// A dot product of vectors bounded by `m1` and `m2` is bounded by `3 m1 m2`.
pub proof fn lemma_dot_within(a: Vec3, b: Vec3, m1: int, m2: int)
    requires
        a.within(m1),
        b.within(m2),
    ensures
        -(3 * (m1 * m2)) <= a.dot_int(b) <= 3 * (m1 * m2),
{
    lemma_product_within(a.0 as int, b.0 as int, m1, m2);
    lemma_product_within(a.1 as int, b.1 as int, m1, m2);
    lemma_product_within(a.2 as int, b.2 as int, m1, m2);
}

/// A cross product of vectors bounded by `m1` and `m2` is bounded by `2 m1 m2`.
pub proof fn lemma_cross_within(a: Vec3, b: Vec3, m1: int, m2: int)
    requires
        a.within(m1),
        b.within(m2),
    ensures
        -(2 * (m1 * m2)) <= a.cross_x(b) <= 2 * (m1 * m2),
        -(2 * (m1 * m2)) <= a.cross_y(b) <= 2 * (m1 * m2),
        -(2 * (m1 * m2)) <= a.cross_z(b) <= 2 * (m1 * m2),
{
    lemma_product_within(a.1 as int, b.2 as int, m1, m2);
    lemma_product_within(a.2 as int, b.1 as int, m1, m2);
    lemma_product_within(a.2 as int, b.0 as int, m1, m2);
    lemma_product_within(a.0 as int, b.2 as int, m1, m2);
    lemma_product_within(a.0 as int, b.1 as int, m1, m2);
    lemma_product_within(a.1 as int, b.0 as int, m1, m2);
}

/// `|x * y| <= m1 * m2` when `|x| <= m1` and `|y| <= m2`.
pub proof fn lemma_product_within(x: int, y: int, m1: int, m2: int)
    requires
        -m1 <= x <= m1,
        -m2 <= y <= m2,
    ensures
        -(m1 * m2) <= x * y <= m1 * m2,
{
    assert(-(m1 * m2) <= x * y <= m1 * m2) by (nonlinear_arith)
        requires
            -m1 <= x <= m1,
            -m2 <= y <= m2,
    ;
}

/// `|x * y| <= m * m` when `|x|, |y| <= m`.
pub proof fn lemma_product_bound(x: int, y: int, m: int)
    requires
        -m <= x <= m,
        -m <= y <= m,
    ensures
        -(m * m) <= x * y <= m * m,
{
    assert(-(m * m) <= x * y <= m * m) by (nonlinear_arith)
        requires
            -m <= x <= m,
            -m <= y <= m,
    ;
}

proof fn lemma_mul_fits_i128(x: int, k: int)
    requires
        fits_i64(x),
        fits_i64(k),
    ensures
        i128::MIN < x * k <= i128::MAX,
{
    let m = 0x8000_0000_0000_0000int;
    lemma_product_bound(x, k, m);
}

/// The length of a vector bounds each of its components, and is positive on a
/// non-zero vector.
pub proof fn lemma_length_bounds(v: Vec3)
    ensures
        0 <= v.length(),
        crate::fixed::is_isqrt(v.norm_sq(), v.length()),
        v.0 * v.0 <= v.length() * v.length() + 2 * v.length(),
        -v.length() <= v.0 <= v.length(),
        -v.length() <= v.1 <= v.length(),
        -v.length() <= v.2 <= v.length(),
        !v.is_zero() ==> v.length() > 0,
{
    let n = v.norm_sq();
    let l = v.length();
    assert(n >= 0) by (nonlinear_arith)
        requires
            n == v.0 * v.0 + v.1 * v.1 + v.2 * v.2,
    ;
    lemma_isqrt_exists(n);
    assert(crate::fixed::is_isqrt(n, l));
    assert(v.0 * v.0 <= n) by (nonlinear_arith)
        requires
            n == v.0 * v.0 + v.1 * v.1 + v.2 * v.2,
    ;
    assert(v.1 * v.1 <= n) by (nonlinear_arith)
        requires
            n == v.0 * v.0 + v.1 * v.1 + v.2 * v.2,
    ;
    assert(v.2 * v.2 <= n) by (nonlinear_arith)
        requires
            n == v.0 * v.0 + v.1 * v.1 + v.2 * v.2,
    ;
    lemma_square_within_root(n, l, v.0 as int);
    lemma_square_within_root(n, l, v.1 as int);
    lemma_square_within_root(n, l, v.2 as int);
    assert(v.0 * v.0 <= l * l + 2 * l) by (nonlinear_arith)
        requires
            v.0 * v.0 <= n,
            n < (l + 1) * (l + 1),
    ;
    if !v.is_zero() {
        assert(n >= 1) by (nonlinear_arith)
            requires
                n == v.0 * v.0 + v.1 * v.1 + v.2 * v.2,
                v.0 != 0 || v.1 != 0 || v.2 != 0,
        ;
        if l == 0 {
            assert(n < 1);
        }
    }
}

/// A number whose square is at most `n` lies within the integer square root
/// of `n`.
pub proof fn lemma_square_within_root(n: int, l: int, c: int)
    requires
        crate::fixed::is_isqrt(n, l),
        c * c <= n,
    ensures
        -l <= c <= l,
{
    if c > l {
        assert((l + 1) * (l + 1) <= c * c) by (nonlinear_arith)
            requires
                0 <= l + 1 <= c,
        ;
    }
    if c < -l {
        assert((l + 1) * (l + 1) <= c * c) by (nonlinear_arith)
            requires
                0 <= l + 1 <= -c,
        ;
    }
}

/// Every non-negative integer has an integer square root.
pub proof fn lemma_isqrt_exists(n: int)
    requires
        n >= 0,
    ensures
        crate::fixed::is_isqrt(n, int_sqrt(n)),
    decreases n,
{
    if n == 0 {
        assert(crate::fixed::is_isqrt(0, 0));
    } else {
        lemma_isqrt_exists(n - 1);
        let r = int_sqrt(n - 1);
        if n < (r + 1) * (r + 1) {
            assert(crate::fixed::is_isqrt(n, r));
        } else {
            assert(n == (r + 1) * (r + 1));
            assert(n < (r + 2) * (r + 2)) by (nonlinear_arith)
                requires
                    n == (r + 1) * (r + 1),
                    r >= 0,
            ;
            assert(crate::fixed::is_isqrt(n, r + 1));
        }
    }
}

/// The unit vector of a non-zero vector is non-zero and its components are at
/// most `SCALE` in magnitude.
pub proof fn lemma_unit_spec(v: Vec3)
    requires
        !v.is_zero(),
    ensures
        v.unit_spec().within(SCALE as int),
        !v.unit_spec().is_zero(),
{
    let l = v.length();
    let s = SCALE as int;
    lemma_length_bounds(v);
    lemma_unit_spec_component(v.0 as int, l);
    lemma_unit_spec_component(v.1 as int, l);
    lemma_unit_spec_component(v.2 as int, l);
    // Some component is at least a third of the length, in square.
    if v.0 * s < l && -(v.0 * s) < l && v.1 * s < l && -(v.1 * s) < l && v.2 * s < l && -(v.2
        * s) < l {
        assert(v.0 * v.0 * (s * s) < l * l) by (nonlinear_arith)
            requires
                v.0 * s < l,
                -(v.0 * s) < l,
        ;
        assert(v.1 * v.1 * (s * s) < l * l) by (nonlinear_arith)
            requires
                v.1 * s < l,
                -(v.1 * s) < l,
        ;
        assert(v.2 * v.2 * (s * s) < l * l) by (nonlinear_arith)
            requires
                v.2 * s < l,
                -(v.2 * s) < l,
        ;
        assert(l * l <= v.0 * v.0 + v.1 * v.1 + v.2 * v.2);
        assert(false) by (nonlinear_arith)
            requires
                v.0 * v.0 * (s * s) < l * l,
                v.1 * v.1 * (s * s) < l * l,
                v.2 * v.2 * (s * s) < l * l,
                l * l <= v.0 * v.0 + v.1 * v.1 + v.2 * v.2,
                s == 1_000_000,
                l > 0,
        ;
    }
}

/// One component of a unit vector: `floor(x SCALE / l)` lies in
/// `[-SCALE, SCALE]`, and is non-zero when `|x| SCALE >= l`.
proof fn lemma_unit_spec_component(x: int, l: int)
    requires
        l > 0,
        -l <= x <= l,
    ensures
        -(SCALE as int) <= fdiv(x * SCALE, l) <= SCALE as int,
        x * SCALE >= l ==> fdiv(x * SCALE, l) >= 1,
        x * SCALE <= -l ==> fdiv(x * SCALE, l) <= -1,
{
    let s = SCALE as int;
    assert(-(l * s) <= x * s <= l * s) by (nonlinear_arith)
        requires
            -l <= x <= l,
            s > 0,
    ;
    assert((l * s) / l == s) by (nonlinear_arith)
        requires
            l > 0,
    ;
    assert((-(l * s)) / l == -s) by (nonlinear_arith)
        requires
            l > 0,
    ;
    vstd::arithmetic::div_mod::lemma_div_is_ordered(x * s, l * s, l);
    vstd::arithmetic::div_mod::lemma_div_is_ordered(-(l * s), x * s, l);
    if x * s >= l {
        vstd::arithmetic::div_mod::lemma_div_is_ordered(l, x * s, l);
    }
    if x * s <= -l {
        vstd::arithmetic::div_mod::lemma_div_is_ordered(x * s, -l, l);
    }
    vstd::arithmetic::div_mod::lemma_div_by_self(l);
    assert((-l) / l == -1) by (nonlinear_arith)
        requires
            l > 0,
    ;
}

/// A unit component scaled by a representable magnitude stays representable.
proof fn lemma_scaled_unit_fits(u: int, k: int)
    requires
        -(SCALE as int) <= u <= SCALE as int,
        fits_i64(k),
        k > i64::MIN,
    ensures
        fits_i64((u * k) / SCALE as int),
        k >= 0 ==> -k <= (u * k) / SCALE as int <= k,
{
    let s = SCALE as int;
    let ak = if k >= 0 {
        k
    } else {
        -k
    };
    assert(-(s * ak) <= u * k <= s * ak) by (nonlinear_arith)
        requires
            -s <= u <= s,
            ak == k || ak == -k,
            ak >= 0,
    ;
    assert((s * ak) / s == ak) by (nonlinear_arith)
        requires
            s > 0,
    ;
    assert((-(s * ak)) / s == -ak) by (nonlinear_arith)
        requires
            s > 0,
    ;
    vstd::arithmetic::div_mod::lemma_div_is_ordered(u * k, s * ak, s);
    vstd::arithmetic::div_mod::lemma_div_is_ordered(-(s * ak), u * k, s);
}

fn square_u128(x: i64) -> (r: u128)
    ensures
        r == x * x,
        r <= 0x4000_0000_0000_0000_0000_0000_0000_0000,
{
    proof {
        let m = 0x8000_0000_0000_0000int;
        lemma_product_bound(x as int, x as int, m);
        assert(x * x >= 0) by (nonlinear_arith);
    }
    (x as i128 * x as i128) as u128
}

fn div_component(x: i64, k: i128) -> (r: i64)
    requires
        k != 0,
        fits_i64(k as int),
        fits_i64(fdiv(x * SCALE, k as int)),
    ensures
        r == fdiv(x * SCALE, k as int),
{
    proof {
        lemma_product_bound(x as int, SCALE as int, 0x8000_0000_0000_0000int);
    }
    let n: i128 = x as i128 * SCALE as i128;
    if k > 0 {
        floor_div(n, k) as i64
    } else {
        floor_div(-n, -k) as i64
    }
}

fn unit_component(x: i64, m: u64) -> (r: i64)
    requires
        m > 0,
        -(m as int) <= x <= m,
    ensures
        r == fdiv(x * SCALE, m as int),
        -(SCALE as int) <= r <= SCALE,
{
    proof {
        lemma_product_bound(x as int, SCALE as int, 0x8000_0000_0000_0000int);
    }
    let n: i128 = x as i128 * SCALE as i128;
    let ghost s = SCALE as int;
    proof {
        assert(-(m * s) <= x * s <= m * s) by (nonlinear_arith)
            requires
                -(m as int) <= x <= m,
                s > 0,
        ;
        assert((m * s) / (m as int) == s) by (nonlinear_arith)
            requires
                m > 0,
        ;
        assert((-(m * s)) / (m as int) == -s) by (nonlinear_arith)
            requires
                m > 0,
        ;
        vstd::arithmetic::div_mod::lemma_div_is_ordered(x * s, m * s, m as int);
        vstd::arithmetic::div_mod::lemma_div_is_ordered(-(m * s), x * s, m as int);
    }
    floor_div(n, m as i128) as i64
}

} // verus!
