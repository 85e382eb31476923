//! Laws of the intersection kernel and of the simulation engine, stated over
//! the specifications of `ray` and `scene` and proved.
use vstd::arithmetic::power::{lemma_pow_positive, pow};
use vstd::prelude::*;

use crate::algebra::{lemma_cross_orthogonal, lemma_dot_combination, lemma_triple};
use crate::fixed::{is_isqrt, lemma_int_sqrt, FULL_INTENSITY, MAX_COORD, SCALE};
use crate::intersect::Hit;
use crate::products::CrossProduct;
use crate::ray::Ray;
use crate::sphere::Sphere;
use crate::scene::{
    decayed, lemma_decay_bounds, lemma_norm_sq_positive, lemma_pending_nonnegative, lemma_round,
    objects_well_formed, pending, population_well_formed, reflected, reflection, run, Object,
    Sound,
};
use crate::triangle::Triangle;
use crate::vec3::{lemma_cross_bound, Vec3};

verus! {

/// The face normal `ac × ab` of a triangle, before normalisation.
pub open spec fn face_normal(tri: Triangle<Vec3>) -> Vec3 {
    tri.2.minus(tri.0).spec_cross(&tri.1.minus(tri.0))
}

/// A ray aimed at a point inside a triangle hits it there: if the ray reaches
/// the point `p` after exactly `k` microseconds (`SCALE (p - origin) ==
/// k direction`), `p` lies in the closed triangle (`gamma (p - a) == alpha ab
/// + beta ac` with `alpha, beta >= 0`, `alpha + beta <= gamma`, `gamma > 0`),
/// and the ray is not parallel to the triangle's plane, then the intersection
/// is the single hit at time `k + t_offset` and point `p`.
pub proof fn law_aimed_ray_hits(
    ray: Ray,
    tri: Triangle<Vec3>,
    k: int,
    p: Vec3,
    alpha: int,
    beta: int,
    gamma: int,
)
    requires
        ray.well_formed(),
        tri.well_formed(),
        ray.direction.dot_int(face_normal(tri)) != 0,
        p.within(MAX_COORD as int),
        ray.direction.0 * k == SCALE * (p.0 - ray.origin.0),
        ray.direction.1 * k == SCALE * (p.1 - ray.origin.1),
        ray.direction.2 * k == SCALE * (p.2 - ray.origin.2),
        gamma > 0,
        alpha >= 0,
        beta >= 0,
        alpha + beta <= gamma,
        gamma * (p.0 - tri.0.0) == alpha * (tri.1.0 - tri.0.0) + beta * (tri.2.0 - tri.0.0),
        gamma * (p.1 - tri.0.1) == alpha * (tri.1.1 - tri.0.1) + beta * (tri.2.1 - tri.0.1),
        gamma * (p.2 - tri.0.2) == alpha * (tri.1.2 - tri.0.2) + beta * (tri.2.2 - tri.0.2),
    ensures
        ray.triangle_hit(tri) == Some(
            Hit {
                time: (k + ray.t_offset) as i64,
                point: p,
                unit_normal: Ray::triangle_normal(tri),
            },
        ),
{
    let sc = SCALE as int;
    let ab = tri.1.minus(tri.0);
    let ac = tri.2.minus(tri.0);
    let dv = ray.direction;
    let sv = ray.origin.minus(tri.0);
    lemma_cross_bound(dv, ac);
    lemma_cross_bound(sv, ab);
    lemma_cross_bound(ac, ab);
    let e1 = (ab.0 as int, ab.1 as int, ab.2 as int);
    let e2 = (ac.0 as int, ac.1 as int, ac.2 as int);
    let d = (dv.0 as int, dv.1 as int, dv.2 as int);
    let s = (sv.0 as int, sv.1 as int, sv.2 as int);
    let zero = (0int, 0int, 0int);
    // p = d × e2, q = s × e1, m = e1 × d, g = e1 × e2.
    let pv = (d.1 * e2.2 - d.2 * e2.1, d.2 * e2.0 - d.0 * e2.2, d.0 * e2.1 - d.1 * e2.0);
    let q = (s.1 * e1.2 - s.2 * e1.1, s.2 * e1.0 - s.0 * e1.2, s.0 * e1.1 - s.1 * e1.0);
    let m = (e1.1 * d.2 - e1.2 * d.1, e1.2 * d.0 - e1.0 * d.2, e1.0 * d.1 - e1.1 * d.0);
    let g = (e1.1 * e2.2 - e1.2 * e2.1, e1.2 * e2.0 - e1.0 * e2.2, e1.0 * e2.1 - e1.1 * e2.0);
    let angle = e1.0 * pv.0 + e1.1 * pv.1 + e1.2 * pv.2;
    let un = s.0 * pv.0 + s.1 * pv.1 + s.2 * pv.2;
    let vn = d.0 * q.0 + d.1 * q.1 + d.2 * q.2;
    let tn = e2.0 * q.0 + e2.1 * q.1 + e2.2 * q.2;
    // The determinant is the direction against the face normal.
    lemma_triple(d.0, d.1, d.2, e1.0, e1.1, e1.2, e2.0, e2.1, e2.2);
    assert(angle != 0);
    // w = SCALE gamma s, written in the triangle's edges and the direction.
    let w = (sc * gamma * s.0, sc * gamma * s.1, sc * gamma * s.2);
    lemma_aimed_component(
        sc, gamma, alpha, beta, k,
        ray.origin.0 as int, tri.0.0 as int, tri.1.0 as int, tri.2.0 as int, p.0 as int, d.0,
    );
    lemma_aimed_component(
        sc, gamma, alpha, beta, k,
        ray.origin.1 as int, tri.0.1 as int, tri.1.1 as int, tri.2.1 as int, p.1 as int, d.1,
    );
    lemma_aimed_component(
        sc, gamma, alpha, beta, k,
        ray.origin.2 as int, tri.0.2 as int, tri.1.2 as int, tri.2.2 as int, p.2 as int, d.2,
    );
    assert(w.0 == (sc * gamma) * s.0 + 0 * zero.0 + 0 * zero.0) by (nonlinear_arith)
        requires
            w.0 == sc * gamma * s.0,
    ;
    assert(w.1 == (sc * gamma) * s.1 + 0 * zero.1 + 0 * zero.1) by (nonlinear_arith)
        requires
            w.1 == sc * gamma * s.1,
    ;
    assert(w.2 == (sc * gamma) * s.2 + 0 * zero.2 + 0 * zero.2) by (nonlinear_arith)
        requires
            w.2 == sc * gamma * s.2,
    ;
    // u: against p = d × e2.
    lemma_dot_combination(w, e1, e2, d, sc * alpha, sc * beta, -(gamma * k), pv);
    lemma_dot_combination(w, s, zero, zero, sc * gamma, 0, 0, pv);
    lemma_cross_orthogonal(d.0, d.1, d.2, e2.0, e2.1, e2.2);
    assert((sc * gamma) * un == (sc * alpha) * angle);
    // v: d · (s × e1) == s · (e1 × d), against m = e1 × d.
    lemma_triple(s.0, s.1, s.2, d.0, d.1, d.2, e1.0, e1.1, e1.2);
    assert(vn == s.0 * m.0 + s.1 * m.1 + s.2 * m.2);
    lemma_dot_combination(w, e1, e2, d, sc * alpha, sc * beta, -(gamma * k), m);
    lemma_dot_combination(w, s, zero, zero, sc * gamma, 0, 0, m);
    lemma_cross_orthogonal(e1.0, e1.1, e1.2, d.0, d.1, d.2);
    lemma_triple(e1.0, e1.1, e1.2, e2.0, e2.1, e2.2, d.0, d.1, d.2);
    assert(e2.0 * m.0 + e2.1 * m.1 + e2.2 * m.2 == angle);
    assert((sc * gamma) * vn == (sc * beta) * angle);
    // t: e2 · (s × e1) == s · (e1 × e2), against g = e1 × e2.
    lemma_triple(s.0, s.1, s.2, e2.0, e2.1, e2.2, e1.0, e1.1, e1.2);
    assert(tn == s.0 * g.0 + s.1 * g.1 + s.2 * g.2);
    lemma_dot_combination(w, e1, e2, d, sc * alpha, sc * beta, -(gamma * k), g);
    lemma_dot_combination(w, s, zero, zero, sc * gamma, 0, 0, g);
    lemma_cross_orthogonal(e1.0, e1.1, e1.2, e2.0, e2.1, e2.2);
    lemma_antisymmetric(d, e1, e2);
    assert(d.0 * g.0 + d.1 * g.1 + d.2 * g.2 == -angle);
    assert((-(gamma * k)) * (d.0 * g.0 + d.1 * g.1 + d.2 * g.2) == (gamma * k) * angle)
        by (nonlinear_arith)
        requires
            d.0 * g.0 + d.1 * g.1 + d.2 * g.2 == -angle,
    ;
    assert((sc * gamma) * tn == (gamma * k) * angle);
    lemma_aimed_terms(sc, gamma, alpha, beta, k, angle, un, vn, tn);
    let (det, u, v, t) = ray.triangle_terms(tri);
    assert(det * gamma == (if angle < 0 { -angle } else { angle }) * gamma);
    lemma_exact_position(ray, p, k);
}

/// One component of `SCALE gamma (origin - a)` written in the edges and the
/// direction.
proof fn lemma_aimed_component(
    sc: int,
    gamma: int,
    alpha: int,
    beta: int,
    k: int,
    o: int,
    a: int,
    b: int,
    c: int,
    pp: int,
    d: int,
)
    requires
        d * k == sc * (pp - o),
        gamma * (pp - a) == alpha * (b - a) + beta * (c - a),
    ensures
        sc * gamma * (o - a) == (sc * alpha) * (b - a) + (sc * beta) * (c - a) + (-(gamma * k)) * d,
{
    assert(sc * gamma * (o - a) == sc * (gamma * (pp - a)) - gamma * (sc * (pp - o)))
        by (nonlinear_arith);
    assert(sc * (alpha * (b - a) + beta * (c - a)) == (sc * alpha) * (b - a) + (sc * beta) * (c
        - a)) by (nonlinear_arith);
    assert(gamma * (d * k) == (gamma * k) * d) by (nonlinear_arith);
    assert((-(gamma * k)) * d == -((gamma * k) * d)) by (nonlinear_arith);
}

/// `x · (a × b) == -(x · (b × a))`.
proof fn lemma_antisymmetric(x: (int, int, int), a: (int, int, int), b: (int, int, int))
    ensures
        x.0 * (a.1 * b.2 - a.2 * b.1) + x.1 * (a.2 * b.0 - a.0 * b.2) + x.2 * (a.0 * b.1 - a.1 * b.0)
            == -(x.0 * (b.1 * a.2 - b.2 * a.1) + x.1 * (b.2 * a.0 - b.0 * a.2) + x.2 * (b.0 * a.1
            - b.1 * a.0)),
{
    assert(x.0 * (a.1 * b.2 - a.2 * b.1) + x.1 * (a.2 * b.0 - a.0 * b.2) + x.2 * (a.0 * b.1 - a.1
        * b.0) == -(x.0 * (b.1 * a.2 - b.2 * a.1) + x.1 * (b.2 * a.0 - b.0 * a.2) + x.2 * (b.0
        * a.1 - b.1 * a.0))) by (nonlinear_arith);
}

/// From the Cramer relations of an aimed ray to the kernel's tests and its
/// rounded time: the barycentric tests pass and `t SCALE / det == k`.
proof fn lemma_aimed_terms(
    sc: int,
    gamma: int,
    alpha: int,
    beta: int,
    k: int,
    angle: int,
    un: int,
    vn: int,
    tn: int,
)
    requires
        sc > 0,
        gamma > 0,
        alpha >= 0,
        beta >= 0,
        alpha + beta <= gamma,
        angle != 0,
        (sc * gamma) * un == (sc * alpha) * angle,
        (sc * gamma) * vn == (sc * beta) * angle,
        (sc * gamma) * tn == (gamma * k) * angle,
    ensures
        ({
            let det = if angle < 0 { -angle } else { angle };
            let u = if angle < 0 { -un } else { un };
            let v = if angle < 0 { -vn } else { vn };
            let t = if angle < 0 { -tn } else { tn };
            &&& 0 <= u <= det
            &&& 0 <= v
            &&& u + v <= det
            &&& (t * sc) / det == k
        }),
{
    let det = if angle < 0 { -angle } else { angle };
    let u = if angle < 0 { -un } else { un };
    let v = if angle < 0 { -vn } else { vn };
    let t = if angle < 0 { -tn } else { tn };
    assert(gamma * u == alpha * det) by (nonlinear_arith)
        requires
            (sc * gamma) * un == (sc * alpha) * angle,
            sc > 0,
            (angle < 0 && u == -un && det == -angle) || (angle >= 0 && u == un && det == angle),
    ;
    assert(gamma * v == beta * det) by (nonlinear_arith)
        requires
            (sc * gamma) * vn == (sc * beta) * angle,
            sc > 0,
            (angle < 0 && v == -vn && det == -angle) || (angle >= 0 && v == vn && det == angle),
    ;
    assert(t * sc == k * det) by (nonlinear_arith)
        requires
            (sc * gamma) * tn == (gamma * k) * angle,
            gamma > 0,
            (angle < 0 && t == -tn && det == -angle) || (angle >= 0 && t == tn && det == angle),
    ;
    assert(0 <= u <= det && 0 <= v && u + v <= det) by (nonlinear_arith)
        requires
            gamma * u == alpha * det,
            gamma * v == beta * det,
            gamma > 0,
            det > 0,
            alpha >= 0,
            beta >= 0,
            alpha + beta <= gamma,
    ;
    vstd::arithmetic::div_mod::lemma_div_multiples_vanish(k, det);
    assert(det * k == k * det) by (nonlinear_arith);
}

/// A position reached exactly after `k` microseconds is the rounded one.
proof fn lemma_exact_position(ray: Ray, p: Vec3, k: int)
    requires
        ray.well_formed(),
        p.within(MAX_COORD as int),
        ray.direction.0 * k == SCALE * (p.0 - ray.origin.0),
        ray.direction.1 * k == SCALE * (p.1 - ray.origin.1),
        ray.direction.2 * k == SCALE * (p.2 - ray.origin.2),
    ensures
        ray.at_spec(k) == p,
{
    let sc = SCALE as int;
    vstd::arithmetic::div_mod::lemma_div_multiples_vanish(p.0 - ray.origin.0, sc);
    vstd::arithmetic::div_mod::lemma_div_multiples_vanish(p.1 - ray.origin.1, sc);
    vstd::arithmetic::div_mod::lemma_div_multiples_vanish(p.2 - ray.origin.2, sc);
    assert((ray.direction.0 * k) / sc == p.0 - ray.origin.0);
    assert((ray.direction.1 * k) / sc == p.1 - ray.origin.1);
    assert((ray.direction.2 * k) / sc == p.2 - ray.origin.2);
    assert(ray.at_spec(k) =~= p);
}

/// A ray whose direction is parallel to a triangle's plane (orthogonal to its
/// face normal) never hits the triangle.
pub proof fn law_parallel_ray_misses(ray: Ray, tri: Triangle<Vec3>)
    requires
        ray.well_formed(),
        tri.well_formed(),
        ray.direction.dot_int(face_normal(tri)) == 0,
    ensures
        ray.triangle_hit(tri) is None,
{
    let ab = tri.1.minus(tri.0);
    let ac = tri.2.minus(tri.0);
    let d = ray.direction;
    lemma_cross_bound(d, ac);
    lemma_cross_bound(ac, ab);
    lemma_triple(
        d.0 as int, d.1 as int, d.2 as int,
        ab.0 as int, ab.1 as int, ab.2 as int,
        ac.0 as int, ac.1 as int, ac.2 as int,
    );
}

/// Reflection at normal incidence reverses the direction exactly: when `d`
/// is parallel to the non-zero normal `n`, the reflection of `d` is `-d`.
pub proof fn law_normal_incidence(d: Vec3, n: Vec3)
    requires
        !n.is_zero(),
        d.cross_x(n) == 0,
        d.cross_y(n) == 0,
        d.cross_z(n) == 0,
    ensures
        reflection(d, n) == (-d.0, -d.1, -d.2),
{
    let dn = d.dot_int(n);
    let nn = n.norm_sq();
    lemma_norm_sq_positive(n);
    lemma_parallel_component(d.0 as int, n.0 as int, d.1 as int, n.1 as int, d.2 as int, n.2 as int);
    lemma_parallel_component(d.1 as int, n.1 as int, d.2 as int, n.2 as int, d.0 as int, n.0 as int);
    lemma_parallel_component(d.2 as int, n.2 as int, d.0 as int, n.0 as int, d.1 as int, n.1 as int);
    assert(dn * n.0 == d.0 * nn);
    assert(dn * n.1 == d.1 * nn);
    assert(dn * n.2 == d.2 * nn);
    lemma_double_quotient(dn, n.0 as int, d.0 as int, nn);
    lemma_double_quotient(dn, n.1 as int, d.1 as int, nn);
    lemma_double_quotient(dn, n.2 as int, d.2 as int, nn);
}

/// For `d` parallel to `n`: `(d · n) n_i == d_i (n · n)`, component `i`
/// first and the other two after it.
proof fn lemma_parallel_component(di: int, ni: int, dj: int, nj: int, dk: int, nk: int)
    requires
        dj * ni == di * nj,
        dk * ni == di * nk,
    ensures
        (di * ni + dj * nj + dk * nk) * ni == di * (ni * ni + nj * nj + nk * nk),
        (dk * nk + di * ni + dj * nj) * ni == di * (nk * nk + ni * ni + nj * nj),
        (dj * nj + dk * nk + di * ni) * ni == di * (nj * nj + nk * nk + ni * ni),
{
    assert((di * ni + dj * nj + dk * nk) * ni == di * ni * ni + dj * nj * ni + dk * nk * ni)
        by (nonlinear_arith);
    assert(di * (ni * ni + nj * nj + nk * nk) == di * ni * ni + di * nj * nj + di * nk * nk)
        by (nonlinear_arith);
    assert(dj * nj * ni == di * nj * nj) by (nonlinear_arith)
        requires
            dj * ni == di * nj,
    ;
    assert(dk * nk * ni == di * nk * nk) by (nonlinear_arith)
        requires
            dk * ni == di * nk,
    ;
    assert((dk * nk + di * ni + dj * nj) * ni == (di * ni + dj * nj + dk * nk) * ni);
    assert((dj * nj + dk * nk + di * ni) * ni == (di * ni + dj * nj + dk * nk) * ni);
    assert(di * (nk * nk + ni * ni + nj * nj) == di * (ni * ni + nj * nj + nk * nk));
    assert(di * (nj * nj + nk * nk + ni * ni) == di * (ni * ni + nj * nj + nk * nk));
}

proof fn lemma_double_quotient(dn: int, ni: int, di: int, nn: int)
    requires
        nn > 0,
        dn * ni == di * nn,
    ensures
        (2 * dn * ni) / nn == 2 * di,
{
    assert(2 * dn * ni == (2 * di) * nn) by (nonlinear_arith)
        requires
            dn * ni == di * nn,
    ;
    vstd::arithmetic::div_mod::lemma_div_multiples_vanish(2 * di, nn);
    assert((2 * di) * nn == nn * (2 * di)) by (nonlinear_arith);
}

/// A sound that reflects at normal incidence off a mirror goes on in exactly
/// the opposite direction.
pub proof fn law_mirror_reverses(sound: Sound, hit: Hit, reflectance: u64)
    requires
        !hit.unit_normal.is_zero(),
        sound.ray.direction.cross_x(hit.unit_normal) == 0,
        sound.ray.direction.cross_y(hit.unit_normal) == 0,
        sound.ray.direction.cross_z(hit.unit_normal) == 0,
        reflected(sound, hit, reflectance) is Some,
    ensures
        reflected(sound, hit, reflectance)->0.ray.direction == sound.ray.direction.negated(),
{
    law_normal_incidence(sound.ray.direction, hit.unit_normal);
}

/// The intensity left after `n` reflections off surfaces of reflectance `r`,
/// starting from `intensity`.
pub open spec fn intensity_after(intensity: int, r: int, n: nat) -> int
    decreases n,
{
    if n == 0 {
        intensity
    } else {
        decayed(intensity_after(intensity, r, (n - 1) as nat), r)
    }
}

/// With a reflectance below `FULL_INTENSITY`, every reflection strictly lowers
/// a positive intensity.
pub proof fn law_decay_strictly_decreases(intensity: int, r: int, n: nat)
    requires
        0 <= intensity,
        0 <= r < FULL_INTENSITY,
        intensity_after(intensity, r, n) > 0,
    ensures
        intensity_after(intensity, r, n + 1) < intensity_after(intensity, r, n),
{
    lemma_intensity_nonnegative(intensity, r, n);
    lemma_decay_bounds(intensity_after(intensity, r, n), r);
    assert(intensity_after(intensity, r, n + 1) == decayed(intensity_after(intensity, r, n), r));
}

proof fn lemma_intensity_nonnegative(intensity: int, r: int, n: nat)
    requires
        0 <= intensity,
        0 <= r <= FULL_INTENSITY,
    ensures
        0 <= intensity_after(intensity, r, n) <= intensity,
    decreases n,
{
    if n > 0 {
        lemma_intensity_nonnegative(intensity, r, (n - 1) as nat);
        lemma_decay_bounds(intensity_after(intensity, r, (n - 1) as nat), r);
    }
}

/// After `n` reflections the intensity is `intensity (r / F)^n` (with
/// `F = FULL_INTENSITY`) up to rounding: it is at most that value and falls
/// short of it by less than one unit per reflection.
pub proof fn law_decay_after_n(intensity: int, r: int, n: nat)
    requires
        0 <= intensity,
        0 <= r <= FULL_INTENSITY,
    ensures
        intensity_after(intensity, r, n) * pow(FULL_INTENSITY as int, n) <= intensity * pow(r, n),
        intensity * pow(r, n) - n * pow(FULL_INTENSITY as int, n) <= intensity_after(
            intensity,
            r,
            n,
        ) * pow(FULL_INTENSITY as int, n),
    decreases n,
{
    let f = FULL_INTENSITY as int;
    reveal(pow);
    if n > 0 {
        let m = (n - 1) as nat;
        law_decay_after_n(intensity, r, m);
        lemma_intensity_nonnegative(intensity, r, m);
        let i = intensity_after(intensity, r, m);
        let x = intensity_after(intensity, r, n);
        let fm = pow(f, m);
        let rm = pow(r, m);
        lemma_pow_positive(f, m);
        assert(pow(f, n) == f * fm);
        assert(pow(r, n) == r * rm);
        assert(x == (i * r) / f);
        vstd::arithmetic::div_mod::lemma_fundamental_div_mod(i * r, f);
        let rem = (i * r) % f;
        assert(f * x + rem == i * r);
        assert(0 <= rem < f);
        // Upper bound.
        assert(x * (f * fm) <= intensity * (r * rm)) by (nonlinear_arith)
            requires
                f * x + rem == i * r,
                0 <= rem,
                fm > 0,
                i * fm <= intensity * rm,
                r >= 0,
        ;
        // Lower bound.
        assert(x * (f * fm) + f * fm > (i * fm) * r) by (nonlinear_arith)
            requires
                f * x + rem == i * r,
                rem < f,
                fm > 0,
        ;
        assert((i * fm) * r >= (intensity * rm - m * fm) * r) by (nonlinear_arith)
            requires
                intensity * rm - m * fm <= i * fm,
                r >= 0,
        ;
        assert((intensity * rm - m * fm) * r == intensity * (r * rm) - m * (fm * r))
            by (nonlinear_arith);
        assert(m * (fm * r) <= m * (f * fm)) by (nonlinear_arith)
            requires
                0 <= r <= f,
                fm > 0,
                m >= 0,
        ;
        assert(n * (f * fm) == m * (f * fm) + f * fm) by (nonlinear_arith)
            requires
                n == m + 1,
        ;
        assert(intensity * pow(r, n) - n * pow(f, n) <= x * pow(f, n));
        assert(x * pow(f, n) <= intensity * pow(r, n));
    } else {
        assert(pow(f, 0) == 1);
        assert(pow(r, 0) == 1);
    }
}

/// A ray that passes the sphere's center at a distance greater than the
/// radius (`d2 > r^2`, with `d2 = oc · oc - tca^2`) has no hit.
pub proof fn law_sphere_miss(ray: Ray, sphere: Sphere)
    requires
        ({
            let oc = sphere.origin.minus(ray.origin);
            let tca = oc.dot_int(ray.direction);
            let s2 = SCALE as int * SCALE as int;
            oc.norm_sq() * s2 - tca * tca > sphere.radius * sphere.radius * s2
        }),
    ensures
        ray.sphere_hits(sphere) is None,
{
}

/// A ray exactly tangent to the sphere (`d2 == r^2`) has exactly one hit, at
/// `tca`.
pub proof fn law_sphere_tangent(ray: Ray, sphere: Sphere)
    requires
        ray.sphere_terms(sphere).1 == 0,
    ensures
        ray.sphere_hits(sphere) == Some(
            seq![ray.sphere_hit_at(sphere, ray.sphere_terms(sphere).0 / SCALE as int, false)],
        ),
{
    lemma_int_sqrt(0, 0);
}

/// A ray of unit speed (`|direction| == SCALE`) aimed through the center of a
/// sphere of positive radius `r` has exactly two hits, at `tca - r` and
/// `tca + r`.
pub proof fn law_sphere_through_center(ray: Ray, sphere: Sphere)
    requires
        ray.well_formed(),
        sphere.well_formed(),
        ray.direction.norm_sq() == SCALE as int * SCALE as int,
        sphere.radius > 0,
        ({
            let oc = sphere.origin.minus(ray.origin);
            oc.cross_x(ray.direction) == 0 && oc.cross_y(ray.direction) == 0 && oc.cross_z(
                ray.direction,
            ) == 0
        }),
    ensures
        ({
            let tca = ray.sphere_terms(sphere).0 / SCALE as int;
            ray.sphere_hits(sphere) == Some(
                seq![
                    ray.sphere_hit_at(sphere, tca - sphere.radius, false),
                    ray.sphere_hit_at(sphere, tca + sphere.radius, true),
                ],
            )
        }),
{
    let oc = sphere.origin.minus(ray.origin);
    let d = ray.direction;
    let s = SCALE as int;
    let r = sphere.radius as int;
    lemma_parallel_dot_square(
        oc.0 as int, oc.1 as int, oc.2 as int,
        d.0 as int, d.1 as int, d.2 as int,
    );
    let tca = oc.dot_int(d);
    assert(tca * tca == oc.norm_sq() * (s * s));
    let disc = ray.sphere_terms(sphere).1;
    assert(oc.norm_sq() * (s * s) == oc.norm_sq() * s * s) by (nonlinear_arith);
    assert(r * r * (s * s) == r * r * s * s) by (nonlinear_arith);
    assert(disc == r * r * (s * s));
    assert(is_isqrt(disc, r * s)) by (nonlinear_arith)
        requires
            disc == r * r * (s * s),
            r > 0,
            s > 0,
    ;
    lemma_int_sqrt(disc, r * s);
    assert((r * s) / s == r) by (nonlinear_arith)
        requires
            s > 0,
    ;
}

/// For parallel vectors `a` and `b` (zero cross product),
/// `(a · b)^2 == |a|^2 |b|^2`.
proof fn lemma_parallel_dot_square(a0: int, a1: int, a2: int, b0: int, b1: int, b2: int)
    requires
        a1 * b2 - a2 * b1 == 0,
        a2 * b0 - a0 * b2 == 0,
        a0 * b1 - a1 * b0 == 0,
    ensures
        (a0 * b0 + a1 * b1 + a2 * b2) * (a0 * b0 + a1 * b1 + a2 * b2) == (a0 * a0 + a1 * a1 + a2
            * a2) * (b0 * b0 + b1 * b1 + b2 * b2),
{
    let x = a0 * b0;
    let y = a1 * b1;
    let z = a2 * b2;
    assert((x + y + z) * (x + y + z) == x * x + y * y + z * z + 2 * (x * y) + 2 * (x * z) + 2 * (
    y * z)) by (nonlinear_arith);
    let p = a0 * a0;
    let q = a1 * a1;
    let w = a2 * a2;
    assert((p + q + w) * (b0 * b0 + b1 * b1 + b2 * b2) == p * (b0 * b0) + p * (b1 * b1) + p * (b2
        * b2) + q * (b0 * b0) + q * (b1 * b1) + q * (b2 * b2) + w * (b0 * b0) + w * (b1 * b1) + w
        * (b2 * b2)) by (nonlinear_arith);
    assert(x * x == p * (b0 * b0)) by (nonlinear_arith)
        requires
            x == a0 * b0,
            p == a0 * a0,
    ;
    assert(y * y == q * (b1 * b1)) by (nonlinear_arith)
        requires
            y == a1 * b1,
            q == a1 * a1,
    ;
    assert(z * z == w * (b2 * b2)) by (nonlinear_arith)
        requires
            z == a2 * b2,
            w == a2 * a2,
    ;
    lemma_parallel_pair(a0, b0, a1, b1);
    lemma_parallel_pair(a0, b0, a2, b2);
    lemma_parallel_pair(a1, b1, a2, b2);
}

/// With `ai bj == aj bi`: `(ai bi)(aj bj) == ai^2 bj^2 == aj^2 bi^2`.
proof fn lemma_parallel_pair(ai: int, bi: int, aj: int, bj: int)
    requires
        ai * bj == aj * bi || aj * bi - ai * bj == 0 || ai * bj - aj * bi == 0,
    ensures
        2 * ((ai * bi) * (aj * bj)) == (ai * ai) * (bj * bj) + (aj * aj) * (bi * bi),
{
    assert(ai * bj == aj * bi);
    assert((ai * bi) * (aj * bj) == (ai * bj) * (aj * bi)) by (nonlinear_arith);
    assert((ai * bj) * (aj * bi) == (ai * bj) * (ai * bj)) by (nonlinear_arith)
        requires
            ai * bj == aj * bi,
    ;
    assert((ai * bj) * (ai * bj) == (ai * ai) * (bj * bj)) by (nonlinear_arith);
    assert((aj * bi) * (aj * bi) == (aj * aj) * (bi * bi)) by (nonlinear_arith);
}

/// Every population dies out: whatever the scene and the reflectances, after
/// `pending(pop)` rounds no sound is left; each one has been captured or has
/// decayed.
pub proof fn law_population_dies_out(objects: Seq<Object>, pop: Seq<Sound>, n: nat)
    requires
        objects_well_formed(objects),
        population_well_formed(pop),
        n >= pending(pop),
    ensures
        run(objects, pop, n).1.len() == 0,
    decreases pending(pop),
{
    lemma_pending_nonnegative(pop);
    if pop.len() > 0 && n > 0 {
        lemma_round(objects, pop);
        let next = crate::scene::round(objects, pop).1;
        lemma_pending_nonnegative(next);
        law_population_dies_out(objects, next, (n - 1) as nat);
    } else if pop.len() > 0 {
        // n == 0 would need pending(pop) <= 0, but every sound adds at least one.
        assert(pending(pop) >= 1) by {
            let p = pop.drop_last();
            assert forall|i: int| 0 <= i < p.len() implies (#[trigger] p[i]).well_formed() by {
                assert(p[i] == pop[i]);
            }
            lemma_pending_nonnegative(p);
            assert(pop[pop.len() - 1] == pop.last());
        }
    }
}

} // verus!
