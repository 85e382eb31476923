//! Polynomial identities of three-dimensional vector algebra behind the
//! intersection kernel.
use vstd::prelude::*;

verus! {

/// `x (y z - w v)` expanded.
proof fn lemma_expand_xd(x: int, y: int, z: int, w: int, v: int)
    ensures
        x * (y * z - w * v) == x * y * z - x * w * v,
{
    assert(x * (y * z - w * v) == x * y * z - x * w * v) by (nonlinear_arith);
}

/// Six-term sum times a factor, expanded.
proof fn lemma_expand6(m1: int, m2: int, m3: int, m4: int, m5: int, m6: int, k: int)
    ensures
        (m1 - m2 + m3 - m4 + m5 - m6) * k == m1 * k - m2 * k + m3 * k - m4 * k + m5 * k - m6 * k,
{
    assert((m1 - m2 + m3 - m4 + m5 - m6) * k == m1 * k - m2 * k + m3 * k - m4 * k + m5 * k - m6
        * k) by (nonlinear_arith);
}

/// The orders in which a product of four factors appears in the expansions.
proof fn lemma_monomial(s: int, d: int, a: int, b: int)
    ensures
        a * d * b * s == s * d * a * b,
        b * s * a * d == s * d * a * b,
        s * d * b * a == s * d * a * b,
        d * s * a * b == s * d * a * b,
{
    assert(a * d * b * s == s * d * a * b) by (nonlinear_arith);
    assert(b * s * a * d == s * d * a * b) by (nonlinear_arith);
    assert(s * d * b * a == s * d * a * b) by (nonlinear_arith);
}

/// Cramer's rule for the ray–triangle system, first component. With
/// `p = d × b` and `q = s × a`, the determinant `a · p` times `s`, plus
/// `(b · q) d`, equals `(s · p) a + (d · q) b`.
pub proof fn lemma_cramer_x(
    s0: int, s1: int, s2: int,
    d0: int, d1: int, d2: int,
    a0: int, a1: int, a2: int,
    b0: int, b1: int, b2: int,
)
    ensures
        (a0 * (d1 * b2 - d2 * b1) + a1 * (d2 * b0 - d0 * b2) + a2 * (d0 * b1 - d1 * b0)) * s0
            + (b0 * (s1 * a2 - s2 * a1) + b1 * (s2 * a0 - s0 * a2) + b2 * (s0 * a1 - s1 * a0)) * d0
        == (s0 * (d1 * b2 - d2 * b1) + s1 * (d2 * b0 - d0 * b2) + s2 * (d0 * b1 - d1 * b0)) * a0
            + (d0 * (s1 * a2 - s2 * a1) + d1 * (s2 * a0 - s0 * a2) + d2 * (s0 * a1 - s1 * a0)) * b0,
{
    lemma_expand_xd(a0, d1, b2, d2, b1);
    lemma_expand_xd(a1, d2, b0, d0, b2);
    lemma_expand_xd(a2, d0, b1, d1, b0);
    lemma_expand_xd(b0, s1, a2, s2, a1);
    lemma_expand_xd(b1, s2, a0, s0, a2);
    lemma_expand_xd(b2, s0, a1, s1, a0);
    lemma_expand_xd(s0, d1, b2, d2, b1);
    lemma_expand_xd(s1, d2, b0, d0, b2);
    lemma_expand_xd(s2, d0, b1, d1, b0);
    lemma_expand_xd(d0, s1, a2, s2, a1);
    lemma_expand_xd(d1, s2, a0, s0, a2);
    lemma_expand_xd(d2, s0, a1, s1, a0);
    lemma_monomial(s0, d0, a1, b2);
    lemma_monomial(s0, d0, a2, b1);
    lemma_monomial(s0, d1, a0, b2);
    lemma_monomial(s0, d1, a2, b0);
    lemma_monomial(s0, d2, a0, b1);
    lemma_monomial(s0, d2, a1, b0);
    lemma_monomial(s1, d0, a0, b2);
    lemma_monomial(s1, d0, a2, b0);
    lemma_monomial(s1, d2, a0, b0);
    lemma_monomial(s2, d0, a0, b1);
    lemma_monomial(s2, d0, a1, b0);
    lemma_monomial(s2, d1, a0, b0);
    lemma_expand6(a0 * d1 * b2, a0 * d2 * b1, a1 * d2 * b0, a1 * d0 * b2, a2 * d0 * b1, a2 * d1 * b0, s0);
    lemma_expand6(b0 * s1 * a2, b0 * s2 * a1, b1 * s2 * a0, b1 * s0 * a2, b2 * s0 * a1, b2 * s1 * a0, d0);
    lemma_expand6(s0 * d1 * b2, s0 * d2 * b1, s1 * d2 * b0, s1 * d0 * b2, s2 * d0 * b1, s2 * d1 * b0, a0);
    lemma_expand6(d0 * s1 * a2, d0 * s2 * a1, d1 * s2 * a0, d1 * s0 * a2, d2 * s0 * a1, d2 * s1 * a0, b0);
}

/// Cramer's rule for the ray–triangle system, all three components.
pub proof fn lemma_cramer(
    s0: int, s1: int, s2: int,
    d0: int, d1: int, d2: int,
    a0: int, a1: int, a2: int,
    b0: int, b1: int, b2: int,
)
    ensures
        ({
            let p0 = d1 * b2 - d2 * b1;
            let p1 = d2 * b0 - d0 * b2;
            let p2 = d0 * b1 - d1 * b0;
            let q0 = s1 * a2 - s2 * a1;
            let q1 = s2 * a0 - s0 * a2;
            let q2 = s0 * a1 - s1 * a0;
            let det = a0 * p0 + a1 * p1 + a2 * p2;
            let un = s0 * p0 + s1 * p1 + s2 * p2;
            let vn = d0 * q0 + d1 * q1 + d2 * q2;
            let tn = b0 * q0 + b1 * q1 + b2 * q2;
            &&& det * s0 + tn * d0 == un * a0 + vn * b0
            &&& det * s1 + tn * d1 == un * a1 + vn * b1
            &&& det * s2 + tn * d2 == un * a2 + vn * b2
        }),
{
    lemma_cramer_x(s0, s1, s2, d0, d1, d2, a0, a1, a2, b0, b1, b2);
    lemma_cramer_x(s1, s2, s0, d1, d2, d0, a1, a2, a0, b1, b2, b0);
    lemma_cramer_x(s2, s0, s1, d2, d0, d1, a2, a0, a1, b2, b0, b1);
}

/// The scalar triple product is invariant under cyclic rotation:
/// `a · (d × b) == d · (b × a)`.
pub proof fn lemma_triple(
    d0: int, d1: int, d2: int,
    a0: int, a1: int, a2: int,
    b0: int, b1: int, b2: int,
)
    ensures
        a0 * (d1 * b2 - d2 * b1) + a1 * (d2 * b0 - d0 * b2) + a2 * (d0 * b1 - d1 * b0)
            == d0 * (b1 * a2 - b2 * a1) + d1 * (b2 * a0 - b0 * a2) + d2 * (b0 * a1 - b1 * a0),
{
    lemma_expand_xd(a0, d1, b2, d2, b1);
    lemma_expand_xd(a1, d2, b0, d0, b2);
    lemma_expand_xd(a2, d0, b1, d1, b0);
    lemma_expand_xd(d0, b1, a2, b2, a1);
    lemma_expand_xd(d1, b2, a0, b0, a2);
    lemma_expand_xd(d2, b0, a1, b1, a0);
    lemma_monomial3(a0, d1, b2);
    lemma_monomial3(a0, d2, b1);
    lemma_monomial3(a1, d2, b0);
    lemma_monomial3(a1, d0, b2);
    lemma_monomial3(a2, d0, b1);
    lemma_monomial3(a2, d1, b0);
}

/// A vector is orthogonal to its cross product with any other:
/// `x · (x × y) == 0` and `y · (x × y) == 0`.
pub proof fn lemma_cross_orthogonal(x0: int, x1: int, x2: int, y0: int, y1: int, y2: int)
    ensures
        x0 * (x1 * y2 - x2 * y1) + x1 * (x2 * y0 - x0 * y2) + x2 * (x0 * y1 - x1 * y0) == 0,
        y0 * (x1 * y2 - x2 * y1) + y1 * (x2 * y0 - x0 * y2) + y2 * (x0 * y1 - x1 * y0) == 0,
{
    assert(x0 * (x1 * y2 - x2 * y1) + x1 * (x2 * y0 - x0 * y2) + x2 * (x0 * y1 - x1 * y0) == 0)
        by (nonlinear_arith);
    assert(y0 * (x1 * y2 - x2 * y1) + y1 * (x2 * y0 - x0 * y2) + y2 * (x0 * y1 - x1 * y0) == 0)
        by (nonlinear_arith);
}

/// Dot product with a linear combination: if `w = a x + b y + c z`
/// componentwise, then `w · p == a (x · p) + b (y · p) + c (z · p)`.
pub proof fn lemma_dot_combination(
    w: (int, int, int),
    x: (int, int, int),
    y: (int, int, int),
    z: (int, int, int),
    a: int,
    b: int,
    c: int,
    p: (int, int, int),
)
    requires
        w.0 == a * x.0 + b * y.0 + c * z.0,
        w.1 == a * x.1 + b * y.1 + c * z.1,
        w.2 == a * x.2 + b * y.2 + c * z.2,
    ensures
        w.0 * p.0 + w.1 * p.1 + w.2 * p.2 == a * (x.0 * p.0 + x.1 * p.1 + x.2 * p.2) + b * (y.0
            * p.0 + y.1 * p.1 + y.2 * p.2) + c * (z.0 * p.0 + z.1 * p.1 + z.2 * p.2),
{
    lemma_combination_term(w.0, x.0, y.0, z.0, a, b, c, p.0);
    lemma_combination_term(w.1, x.1, y.1, z.1, a, b, c, p.1);
    lemma_combination_term(w.2, x.2, y.2, z.2, a, b, c, p.2);
    assert(a * (x.0 * p.0 + x.1 * p.1 + x.2 * p.2) == a * (x.0 * p.0) + a * (x.1 * p.1) + a * (x.2
        * p.2)) by (nonlinear_arith);
    assert(b * (y.0 * p.0 + y.1 * p.1 + y.2 * p.2) == b * (y.0 * p.0) + b * (y.1 * p.1) + b * (y.2
        * p.2)) by (nonlinear_arith);
    assert(c * (z.0 * p.0 + z.1 * p.1 + z.2 * p.2) == c * (z.0 * p.0) + c * (z.1 * p.1) + c * (z.2
        * p.2)) by (nonlinear_arith);
}

proof fn lemma_combination_term(wi: int, xi: int, yi: int, zi: int, a: int, b: int, c: int, pi: int)
    requires
        wi == a * xi + b * yi + c * zi,
    ensures
        wi * pi == a * (xi * pi) + b * (yi * pi) + c * (zi * pi),
{
    assert(wi * pi == a * (xi * pi) + b * (yi * pi) + c * (zi * pi)) by (nonlinear_arith)
        requires
            wi == a * xi + b * yi + c * zi,
    ;
}

proof fn lemma_monomial3(a: int, d: int, b: int)
    ensures
        d * b * a == a * d * b,
{
    assert(d * b * a == a * d * b) by (nonlinear_arith);
}

} // verus!
