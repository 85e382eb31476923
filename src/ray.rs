//! Rays and the ray–primitive intersection kernel.
use vstd::prelude::*;

use crate::algebra::{lemma_cramer, lemma_triple};
use crate::fixed::{floor_div, int_sqrt, isqrt, MAX_COORD, MAX_TIME, SCALE};
use crate::intersect::{Hit, Intersect};
use crate::products::{CrossProduct, DotProduct};
use crate::sphere::Sphere;
use crate::triangle::Triangle;
use crate::vec3::{
    fits_i64, lemma_cross_bound, lemma_cross_within, lemma_dot_bound, lemma_dot_within,
    lemma_length_bounds, lemma_product_within, Vec3,
};

verus! {

/// A ray segment: it starts at `origin` at time `t_offset` and moves by
/// `direction` per second. The direction need not have unit length: its length
/// is the speed of propagation.
#[derive(Clone, Copy, Debug, PartialEq, Eq, Structural)]
pub struct Ray {
    pub origin: Vec3,
    pub direction: Vec3,
    pub t_offset: i64,
}

impl Ray {
    /// Origin and direction lie within the kernel's coordinate range and the
    /// time offset within the time range.
    pub open spec fn well_formed(self) -> bool {
        &&& self.origin.within(MAX_COORD as int)
        &&& self.direction.within(MAX_COORD as int)
        &&& -MAX_TIME <= self.t_offset <= MAX_TIME
    }

    /// The position after travelling for `t` microseconds from the origin.
    pub open spec fn at_spec(self, t: int) -> Vec3 {
        self.origin.plus(self.direction.scaled(t))
    }

    /// `at_spec(t)` is representable.
    pub open spec fn at_defined(self, t: int) -> bool {
        &&& fits_i64(self.origin.0 + (self.direction.0 * t) / SCALE as int)
        &&& fits_i64(self.origin.1 + (self.direction.1 * t) / SCALE as int)
        &&& fits_i64(self.origin.2 + (self.direction.2 * t) / SCALE as int)
        &&& fits_i64((self.direction.0 * t) / SCALE as int)
        &&& fits_i64((self.direction.1 * t) / SCALE as int)
        &&& fits_i64((self.direction.2 * t) / SCALE as int)
    }

    /// The position after travelling for `t` microseconds from the origin,
    /// rounded down.
    pub fn at(&self, t: i64) -> (r: Vec3)
        requires
            self.at_defined(t as int),
        ensures
            r == self.at_spec(t as int),
            r.0 == self.origin.0 + (self.direction.0 * t) / SCALE as int,
            r.1 == self.origin.1 + (self.direction.1 * t) / SCALE as int,
            r.2 == self.origin.2 + (self.direction.2 * t) / SCALE as int,
    {
        self.origin.add(self.direction.mul(t))
    }

    /// A ray that starts at time zero.
    pub fn new(origin: Vec3, direction: Vec3) -> (r: Ray)
        ensures
            r == (Ray { origin, direction, t_offset: 0 }),
    {
        Ray { origin, direction, t_offset: 0 }
    }

    /// The Möller–Trumbore quantities for `tri`: the determinant and the
    /// numerators of the barycentric `u`, `v` and of the ray parameter `t`,
    /// all with their sign flipped when the determinant is negative, so that
    /// the determinant is non-negative.
    pub open spec fn triangle_terms(self, tri: Triangle<Vec3>) -> (int, int, int, int) {
        let ab = tri.1.minus(tri.0);
        let ac = tri.2.minus(tri.0);
        let norm = self.direction.spec_cross(&ac);
        let angle = ab.dot_int(norm);
        let offset = self.origin.minus(tri.0);
        let qvec = offset.spec_cross(&ab);
        let u = offset.dot_int(norm);
        let v = self.direction.dot_int(qvec);
        let t = ac.dot_int(qvec);
        if angle < 0 {
            (-angle, -u, -v, -t)
        } else {
            (angle, u, v, t)
        }
    }

    /// The outward unit normal of `tri`: `unit(ac × ab)`.
    pub open spec fn triangle_normal(tri: Triangle<Vec3>) -> Vec3 {
        let ab = tri.1.minus(tri.0);
        let ac = tri.2.minus(tri.0);
        ac.spec_cross(&ab).unit_spec()
    }

    /// Ray–triangle intersection: no hit when the ray is parallel to the
    /// triangle's plane (zero determinant) or meets the plane outside the
    /// closed triangle; otherwise the hit at the ray parameter `t` (rounded
    /// down to a microsecond), whether in front of the origin or behind it.
    pub open spec fn triangle_hit(self, tri: Triangle<Vec3>) -> Option<Hit> {
        let (det, u, v, t) = self.triangle_terms(tri);
        if det == 0 || u < 0 || u > det || v < 0 || u + v > det {
            None
        } else {
            let local = (t * SCALE as int) / det;
            Some(
                Hit {
                    time: (local + self.t_offset) as i64,
                    point: self.at_spec(local),
                    unit_normal: Self::triangle_normal(tri),
                },
            )
        }
    }

    /// Möller–Trumbore ray–triangle intersection.
    pub fn intersect_triangle(&self, tri: &Triangle<Vec3>) -> (r: Option<Hit>)
        requires
            self.well_formed(),
            tri.well_formed(),
        ensures
            r == self.triangle_hit(*tri),
    {
        let ghost c = MAX_COORD as int;
        let ab: Vec3 = tri.1.sub(tri.0);
        let ac: Vec3 = tri.2.sub(tri.0);
        let offset: Vec3 = self.origin.sub(tri.0);
        proof {
            lemma_cross_bound(self.direction, ac);
            lemma_cross_within(self.direction, ac, c, 2 * c);
        }
        let norm: Vec3 = self.direction.cross(&ac);
        proof {
            lemma_dot_bound(ab, norm);
            lemma_dot_within(ab, norm, 2 * c, 4 * c * c);
            lemma_dot_bound(offset, norm);
            lemma_dot_within(offset, norm, 2 * c, 4 * c * c);
        }
        let angle: i128 = ab.dot(&norm);
        if angle == 0 {
            return None;
        }
        let u0: i128 = offset.dot(&norm);
        let det: i128 = if angle < 0 {
            -angle
        } else {
            angle
        };
        let u: i128 = if angle < 0 {
            -u0
        } else {
            u0
        };
        if u < 0 || u > det {
            return None;
        }
        proof {
            lemma_cross_bound(offset, ab);
            lemma_cross_within(offset, ab, 2 * c, 2 * c);
        }
        let qvec: Vec3 = offset.cross(&ab);
        proof {
            lemma_dot_bound(self.direction, qvec);
            lemma_dot_within(self.direction, qvec, c, 8 * c * c);
            lemma_dot_bound(ac, qvec);
            lemma_dot_within(ac, qvec, 2 * c, 8 * c * c);
        }
        let v0: i128 = self.direction.dot(&qvec);
        let t0: i128 = ac.dot(&qvec);
        let v: i128 = if angle < 0 {
            -v0
        } else {
            v0
        };
        let t: i128 = if angle < 0 {
            -t0
        } else {
            t0
        };
        if v < 0 || u + v > det {
            return None;
        }
        proof {
            lemma_triangle_time_bound(*self, *tri);
        }
        let local: i64 = floor_div(t * SCALE as i128, det) as i64;
        proof {
            lemma_at_bound(*self, local as int);
            lemma_triangle_normal_nonzero(*self, *tri);
            lemma_cross_bound(ac, ab);
        }
        let unit_normal: Vec3 = ac.cross(&ab).unit();
        Some(Hit { time: local + self.t_offset, point: self.at(local), unit_normal })
    }
}

impl Ray {
    /// The ray–sphere quantities: `tca = oc · direction` scaled by `SCALE^2`,
    /// and `r^2 - d2` with `d2 = oc · oc - tca^2`, scaled by `SCALE^4`, where
    /// `oc` runs from the ray's origin to the sphere's center.
    pub open spec fn sphere_terms(self, sphere: Sphere) -> (int, int) {
        let oc = sphere.origin.minus(self.origin);
        let tca = oc.dot_int(self.direction);
        let s2 = SCALE as int * SCALE as int;
        (tca, sphere.radius * sphere.radius * s2 - oc.norm_sq() * s2 + tca * tca)
    }

    /// The sphere hit at local time `t`: the normal is the unit vector from the
    /// center to the point (the zero vector when the point is the center),
    /// negated on the far side.
    pub open spec fn sphere_hit_at(self, sphere: Sphere, t: int, far: bool) -> Hit {
        let point = self.at_spec(t);
        let outward = point.minus(sphere.origin);
        let n = if outward.is_zero() {
            outward
        } else {
            outward.unit_spec()
        };
        Hit {
            time: (t + self.t_offset) as i64,
            point,
            unit_normal: if far {
                n.negated()
            } else {
                n
            },
        }
    }

    /// Ray–sphere intersection: no hit when the ray passes farther from the
    /// center than the radius; one tangential hit at `tca` when the half chord
    /// `thc = sqrt(r^2 - d2)` rounds to zero; otherwise the hits at
    /// `tca - thc` and `tca + thc`, in that order.
    pub open spec fn sphere_hits(self, sphere: Sphere) -> Option<Seq<Hit>> {
        let (tca2, disc) = self.sphere_terms(sphere);
        if disc < 0 {
            None
        } else {
            let tca = tca2 / SCALE as int;
            let thc = int_sqrt(disc) / SCALE as int;
            if thc == 0 {
                Some(seq![self.sphere_hit_at(sphere, tca, false)])
            } else {
                Some(
                    seq![
                        self.sphere_hit_at(sphere, tca - thc, false),
                        self.sphere_hit_at(sphere, tca + thc, true),
                    ],
                )
            }
        }
    }

    /// Ray–sphere intersection.
    pub fn intersect_sphere(&self, sphere: &Sphere) -> (r: Option<Vec<Hit>>)
        requires
            self.well_formed(),
            sphere.well_formed(),
        ensures
            r is None <==> self.sphere_hits(*sphere) is None,
            r is Some ==> self.sphere_hits(*sphere) == Some(r->0@),
    {
        let ghost c = MAX_COORD as int;
        let oc: Vec3 = sphere.origin.sub(self.origin);
        proof {
            lemma_dot_bound(oc, self.direction);
            lemma_dot_within(oc, self.direction, 2 * c, c);
            lemma_dot_bound(oc, oc);
            lemma_dot_within(oc, oc, 2 * c, 2 * c);
            lemma_product_within(sphere.radius as int, sphere.radius as int, c, c);
        }
        let tca2: i128 = oc.dot(&self.direction);
        let oc2: i128 = oc.dot(&oc);
        let s2: i128 = SCALE as i128 * SCALE as i128;
        let radius: i128 = sphere.radius as i128;
        let r2: i128 = radius * radius;
        proof {
            assert(c * c == 0x0400_0000_0000_0000);
            assert(s2 == 1_000_000_000_000);
            lemma_product_within(r2 as int, s2 as int, c * c, s2 as int);
            lemma_product_within(oc2 as int, s2 as int, 12 * c * c, s2 as int);
            assert(-0x2000_0000_0000_0000 <= tca2 <= 0x2000_0000_0000_0000);
            lemma_product_within(
                tca2 as int,
                tca2 as int,
                0x2000_0000_0000_0000int,
                0x2000_0000_0000_0000int,
            );
            assert(tca2 * tca2 <= 0x0400_0000_0000_0000_0000_0000_0000_0000);
            assert(-0x0100_0000_0000_0000_0000_0000_0000 <= r2 * s2 <= 0x0100_0000_0000_0000_0000_0000_0000);
            assert(-0x0100_0000_0000_0000_0000_0000_0000 <= oc2 * s2 <= 0x0100_0000_0000_0000_0000_0000_0000);
        }
        let disc: i128 = r2 * s2 - oc2 * s2 + tca2 * tca2;
        if disc < 0 {
            return None;
        }
        let root: u64 = isqrt(disc as u128);
        proof {
            lemma_sphere_root_bound(disc as int, root as int);
        }
        let tca: i64 = floor_div(tca2, SCALE as i128) as i64;
        let thc: i64 = (root / (SCALE as u64)) as i64;
        proof {
            lemma_sphere_time_bounds(tca2 as int, root as int);
        }
        if thc == 0 {
            let h = self.hit_sphere_at(sphere, tca, false);
            let v: Vec<Hit> = vec![h];
            proof {
                assert(v@ =~= seq![h]);
            }
            Some(v)
        } else {
            let near = self.hit_sphere_at(sphere, tca - thc, false);
            let far = self.hit_sphere_at(sphere, tca + thc, true);
            let v: Vec<Hit> = vec![near, far];
            proof {
                assert(v@ =~= seq![near, far]);
            }
            Some(v)
        }
    }

    fn hit_sphere_at(&self, sphere: &Sphere, t: i64, far: bool) -> (h: Hit)
        requires
            self.well_formed(),
            sphere.well_formed(),
            -0x1000_0000_0000 <= t <= 0x1000_0000_0000,
        ensures
            h == self.sphere_hit_at(*sphere, t as int, far),
    {
        proof {
            lemma_at_bound(*self, t as int);
        }
        let point: Vec3 = self.at(t);
        let outward: Vec3 = point.sub(sphere.origin);
        let n: Vec3 = if outward.0 == 0 && outward.1 == 0 && outward.2 == 0 {
            outward
        } else {
            outward.unit()
        };
        let unit_normal: Vec3 = if far {
            n.neg()
        } else {
            n
        };
        Hit { time: t + self.t_offset, point, unit_normal }
    }
}

impl<'a> Intersect<&'a Triangle<Vec3>> for Ray {
    type Record = Hit;

    open spec fn intersect_defined(&self, tri: &'a Triangle<Vec3>) -> bool {
        self.well_formed() && tri.well_formed()
    }

    open spec fn intersect_result(&self, tri: &'a Triangle<Vec3>, r: Option<Hit>) -> bool {
        r == self.triangle_hit(*tri)
    }

    fn intersect(&self, tri: &'a Triangle<Vec3>) -> (r: Option<Hit>) {
        self.intersect_triangle(tri)
    }
}

impl<'a> Intersect<&'a Sphere> for Ray {
    type Record = Vec<Hit>;

    open spec fn intersect_defined(&self, sphere: &'a Sphere) -> bool {
        self.well_formed() && sphere.well_formed()
    }

    open spec fn intersect_result(&self, sphere: &'a Sphere, r: Option<Vec<Hit>>) -> bool {
        match r {
            None => self.sphere_hits(*sphere) is None,
            Some(v) => self.sphere_hits(*sphere) == Some(v@),
        }
    }

    fn intersect(&self, sphere: &'a Sphere) -> (r: Option<Vec<Hit>>) {
        self.intersect_sphere(sphere)
    }
}

/// The square root of a ray–sphere discriminant is below `2^62`.
proof fn lemma_sphere_root_bound(disc: int, root: int)
    requires
        0 <= disc < 0x1000_0000_0000_0000_0000_0000_0000_0000,
        crate::fixed::is_isqrt(disc, root),
    ensures
        root < 0x4000_0000_0000_0000,
{
    let b = 0x4000_0000_0000_0000int;
    if root >= b {
        assert(root * root >= b * b) by (nonlinear_arith)
            requires
                root >= b,
                b > 0,
        ;
    }
}

/// The local times of sphere hits are within `2^44` microseconds.
proof fn lemma_sphere_time_bounds(tca2: int, root: int)
    requires
        -0x2000_0000_0000_0000 <= tca2 <= 0x2000_0000_0000_0000,
        0 <= root < 0x4000_0000_0000_0000,
    ensures
        -0x0800_0000_0000 <= tca2 / SCALE as int <= 0x0800_0000_0000,
        0 <= root / SCALE as int <= 0x0800_0000_0000,
{
}

/// Bound on the local time of a triangle hit, in microseconds (2^31 seconds).
pub open spec fn local_time_bound() -> int {
    0x8000_0000 * SCALE as int
}

/// A hit inside a triangle lies within the coordinate range, so its ray
/// parameter is bounded: `|t| <= 2^31 det`, and the rounded local time is
/// within `local_time_bound()`.
pub proof fn lemma_triangle_time_bound(ray: Ray, tri: Triangle<Vec3>)
    requires
        ray.well_formed(),
        tri.well_formed(),
        ({
            let (det, u, v, t) = ray.triangle_terms(tri);
            det != 0 && 0 <= u && 0 <= v && u + v <= det
        }),
    ensures
        ({
            let (det, u, v, t) = ray.triangle_terms(tri);
            &&& -(0x8000_0000 * det) <= t <= 0x8000_0000 * det
            &&& -local_time_bound() <= (t * SCALE as int) / det <= local_time_bound()
        }),
{
    let c = MAX_COORD as int;
    let ab = tri.1.minus(tri.0);
    let ac = tri.2.minus(tri.0);
    let d = ray.direction;
    let s = ray.origin.minus(tri.0);
    lemma_cross_bound(d, ac);
    lemma_cross_bound(s, ab);
    lemma_cramer(
        s.0 as int, s.1 as int, s.2 as int,
        d.0 as int, d.1 as int, d.2 as int,
        ab.0 as int, ab.1 as int, ab.2 as int,
        ac.0 as int, ac.1 as int, ac.2 as int,
    );
    let (det, u, v, t) = ray.triangle_terms(tri);
    let norm = d.spec_cross(&ac);
    let angle = ab.dot_int(norm);
    // The determinant is `d · (ac × ab)`, so a zero direction has none.
    lemma_triple(
        d.0 as int, d.1 as int, d.2 as int,
        ab.0 as int, ab.1 as int, ab.2 as int,
        ac.0 as int, ac.1 as int, ac.2 as int,
    );
    let k = 0x8000_0000int;
    if d.0 != 0 {
        lemma_parameter_bound(det, u, v, t, s.0 as int, d.0 as int, ab.0 as int, ac.0 as int, angle);
    } else if d.1 != 0 {
        lemma_parameter_bound(det, u, v, t, s.1 as int, d.1 as int, ab.1 as int, ac.1 as int, angle);
    } else {
        if d.2 == 0 {
            assert(norm.0 == 0 && norm.1 == 0 && norm.2 == 0) by (nonlinear_arith)
                requires
                    d.0 == 0 && d.1 == 0 && d.2 == 0,
                    norm.0 == d.1 * ac.2 - d.2 * ac.1,
                    norm.1 == d.2 * ac.0 - d.0 * ac.2,
                    norm.2 == d.0 * ac.1 - d.1 * ac.0,
            ;
            assert(angle == 0) by (nonlinear_arith)
                requires
                    norm.0 == 0 && norm.1 == 0 && norm.2 == 0,
                    angle == ab.0 * norm.0 + ab.1 * norm.1 + ab.2 * norm.2,
            ;
        }
        lemma_parameter_bound(det, u, v, t, s.2 as int, d.2 as int, ab.2 as int, ac.2 as int, angle);
    }
    let sc = SCALE as int;
    assert(-(k * det) * sc <= t * sc <= (k * det) * sc) by (nonlinear_arith)
        requires
            -(k * det) <= t <= k * det,
            sc > 0,
    ;
    assert((k * det * sc) / det == k * sc) by (nonlinear_arith)
        requires
            det > 0,
    ;
    assert((-(k * det) * sc) / det == -(k * sc)) by (nonlinear_arith)
        requires
            det > 0,
    ;
    vstd::arithmetic::div_mod::lemma_div_is_ordered(t * sc, (k * det) * sc, det);
    vstd::arithmetic::div_mod::lemma_div_is_ordered(-(k * det) * sc, t * sc, det);
}

/// One component of Cramer's identity bounds the ray parameter of a hit
/// inside the triangle by `2^31` times the determinant.
proof fn lemma_parameter_bound(
    det: int,
    u: int,
    v: int,
    t: int,
    s: int,
    d: int,
    a: int,
    b: int,
    angle: int,
)
    requires
        det > 0,
        det == angle || det == -angle,
        0 <= u,
        0 <= v,
        u + v <= det,
        d != 0,
        -0x4000_0000 <= s <= 0x4000_0000,
        -0x4000_0000 <= a <= 0x4000_0000,
        -0x4000_0000 <= b <= 0x4000_0000,
        det == angle ==> angle * s + t * d == u * a + v * b,
        det == -angle ==> angle * s + (-t) * d == (-u) * a + (-v) * b,
    ensures
        -(0x8000_0000 * det) <= t <= 0x8000_0000 * det,
{
    let m = 0x4000_0000int;
    assert(det * s + t * d == u * a + v * b) by (nonlinear_arith)
        requires
            det == angle || det == -angle,
            det == angle ==> angle * s + t * d == u * a + v * b,
            det == -angle ==> angle * s + (-t) * d == (-u) * a + (-v) * b,
    ;
    assert(-(u * m) <= u * a <= u * m) by (nonlinear_arith)
        requires
            0 <= u,
            -m <= a <= m,
    ;
    assert(-(v * m) <= v * b <= v * m) by (nonlinear_arith)
        requires
            0 <= v,
            -m <= b <= m,
    ;
    assert(-(det * m) <= det * s <= det * m) by (nonlinear_arith)
        requires
            0 < det,
            -m <= s <= m,
    ;
    assert(u * m + v * m <= det * m) by (nonlinear_arith)
        requires
            u + v <= det,
            m > 0,
    ;
    assert(-(2 * det * m) <= t * d <= 2 * det * m);
    assert(-(2 * det * m) <= t <= 2 * det * m) by (nonlinear_arith)
        requires
            -(2 * det * m) <= t * d <= 2 * det * m,
            d != 0,
            det > 0,
            m > 0,
    ;
}

/// A local time within `local_time_bound()` gives a representable position.
pub proof fn lemma_at_bound(ray: Ray, t: int)
    requires
        ray.well_formed(),
        -local_time_bound() <= t <= local_time_bound(),
    ensures
        ray.at_defined(t),
        ray.at_spec(t).within(MAX_COORD + MAX_COORD as int * 0x8000_0000),
{
    let c = MAX_COORD as int;
    let b = local_time_bound();
    let sc = SCALE as int;
    let d = ray.direction;
    lemma_product_within(d.0 as int, t, c, b);
    lemma_product_within(d.1 as int, t, c, b);
    lemma_product_within(d.2 as int, t, c, b);
    assert((c * b) / sc == c * 0x8000_0000);
    assert((-(c * b)) / sc == -(c * 0x8000_0000));
    vstd::arithmetic::div_mod::lemma_div_is_ordered(d.0 * t, c * b, sc);
    vstd::arithmetic::div_mod::lemma_div_is_ordered(-(c * b), d.0 * t, sc);
    vstd::arithmetic::div_mod::lemma_div_is_ordered(d.1 * t, c * b, sc);
    vstd::arithmetic::div_mod::lemma_div_is_ordered(-(c * b), d.1 * t, sc);
    vstd::arithmetic::div_mod::lemma_div_is_ordered(d.2 * t, c * b, sc);
    vstd::arithmetic::div_mod::lemma_div_is_ordered(-(c * b), d.2 * t, sc);
}

/// A triangle that a ray hits is not degenerate: its normal `ac × ab` is not
/// the zero vector, since the determinant equals `direction · (ac × ab)`.
pub proof fn lemma_triangle_normal_nonzero(ray: Ray, tri: Triangle<Vec3>)
    requires
        ray.well_formed(),
        tri.well_formed(),
        ray.triangle_terms(tri).0 != 0,
    ensures
        !tri.2.minus(tri.0).spec_cross(&tri.1.minus(tri.0)).is_zero(),
{
    let ab = tri.1.minus(tri.0);
    let ac = tri.2.minus(tri.0);
    let d = ray.direction;
    lemma_cross_bound(d, ac);
    lemma_cross_bound(ac, ab);
    lemma_triple(
        d.0 as int, d.1 as int, d.2 as int,
        ab.0 as int, ab.1 as int, ab.2 as int,
        ac.0 as int, ac.1 as int, ac.2 as int,
    );
    let n = ac.spec_cross(&ab);
    if n.is_zero() {
        assert(d.0 * n.0 + d.1 * n.1 + d.2 * n.2 == 0) by (nonlinear_arith)
            requires
                n.0 == 0 && n.1 == 0 && n.2 == 0,
        ;
    }
}

} // verus!
