//! A sphere, the closed-form ray-sphere intersection, and the outward
//! surface normal at a point.
//!
//! The intersection solves the full quadratic `a*t^2 + b*t + c = 0` with
//! `a = dir . dir`, `b = 2 * (dir . diff)`, `c = diff . diff - radius^2`
//! (where `diff = origin - center`), and reports the hit at the
//! algebraically smaller root `t = (-(dir . diff) - sqrt(disc)) / a`.
//! Because `a` is carried through rather than assumed to be one, the
//! reported hit does not depend on the direction being unit-length.

use vstd::prelude::*;
use crate::num::{
    floor_sqrt, isqrt, lemma_floor_sqrt_bounds, lemma_floor_sqrt_exact, lemma_tdiv_magnitude,
    lemma_tdiv_scale, tdiv,
};
use crate::ray::Ray;
use crate::vector::{
    add3, dot3, in_range, lemma_dot_range, lemma_dot_scale_left, lemma_dot_scale_self,
    lemma_dot_self_nonneg, lemma_dot_self_pos, lemma_mul_bound, scale3, sub3, unit3, Vector,
    COORD_BOUND,
};

verus! {

/// The quantity under the square root of the quadratic solve:
/// `(dir . diff)^2 - (dir . dir) * (diff . diff - radius^2)`, four times
/// smaller than the textbook `b^2 - 4ac`. Its sign decides whether the
/// ray meets the sphere.
pub open spec fn discriminant3(
    c: (int, int, int),
    r: int,
    o: (int, int, int),
    d: (int, int, int),
) -> int {
    let diff = sub3(o, c);
    dot3(d, diff) * dot3(d, diff) - dot3(d, d) * (dot3(diff, diff) - r * r)
}

/// The hit point of the ray `o + t * d` against the sphere of center `c`
/// and radius `r`: none when the discriminant is negative, otherwise the
/// point at the algebraically smaller root of the quadratic, every
/// division truncating as the executable arithmetic does.
pub open spec fn intersect3(
    c: (int, int, int),
    r: int,
    o: (int, int, int),
    d: (int, int, int),
) -> Option<(int, int, int)> {
    let diff = sub3(o, c);
    let a = dot3(d, d);
    let hb = dot3(d, diff);
    let disc = discriminant3(c, r, o, d);
    if disc < 0 {
        None
    } else {
        let root = floor_sqrt(disc as nat) as int;
        let tn = -hb - root;
        Some(add3(o, (tdiv(d.0 * tn, a), tdiv(d.1 * tn, a), tdiv(d.2 * tn, a))))
    }
}

/// The view of a returned hit, for stating contracts.
pub open spec fn hit_view(h: Option<Vector>) -> Option<(int, int, int)> {
    match h {
        Some(v) => Some(v@),
        None => None,
    }
}

/// The discriminant's square root is exact.
pub open spec fn exact_root(disc: int) -> bool {
    disc >= 0 && floor_sqrt(disc as nat) * floor_sqrt(disc as nat) == disc
}

/// Every intermediate value of the quadratic solve, bounded for
/// coordinates within `COORD_BOUND`.
proof fn lemma_quadratic_bounds(c: (int, int, int), r: int, o: (int, int, int), d: (int, int, int))
    requires
        in_range(c, 16000),
        in_range(o, 16000),
        in_range(d, 16000),
        -16000 <= r <= 16000,
    ensures
        -768000000 <= dot3(d, d) <= 768000000,
        -1536000000 <= dot3(d, sub3(o, c)) <= 1536000000,
        0 <= dot3(sub3(o, c), sub3(o, c)) <= 3072000000,
        0 <= r * r <= 256000000,
        -4915200000000000000 <= discriminant3(c, r, o, d) <= 4915200000000000000,
{
    let diff = sub3(o, c);
    lemma_dot_range(d, d, 16000, 16000);
    assert(3 * 16000int * 16000int == 768000000int) by (nonlinear_arith);
    lemma_dot_range(d, diff, 16000, 32000);
    assert(3 * 16000int * 32000int == 1536000000int) by (nonlinear_arith);
    lemma_dot_range(diff, diff, 32000, 32000);
    assert(3 * 32000int * 32000int == 3072000000int) by (nonlinear_arith);
    lemma_dot_self_nonneg(diff);
    lemma_mul_bound(r, r, 16000, 16000);
    assert(16000int * 16000int == 256000000int) by (nonlinear_arith);
    assert(r * r >= 0) by (nonlinear_arith);
    lemma_mul_bound(dot3(d, diff), dot3(d, diff), 1536000000, 1536000000);
    assert(1536000000int * 1536000000int == 2359296000000000000int) by (nonlinear_arith);
    lemma_mul_bound(dot3(d, d), dot3(diff, diff) - r * r, 768000000, 3328000000);
    assert(768000000int * 3328000000int == 2555904000000000000int) by (nonlinear_arith);
}

/// The ring identity behind the discriminant's behavior under scaling of
/// the direction.
proof fn lemma_disc_scale_ring(hb: int, a: int, cterm: int, k: int)
    by (nonlinear_arith)
    ensures
        (k * hb) * (k * hb) - ((k * k) * a) * cterm == k * k * (hb * hb - a * cterm),
{
}

/// A sphere: a center point plus a radius. The radius is stored
/// unchecked; zero or negative values simply flow through the algebra.
#[derive(Clone, Copy, PartialEq, Eq, Structural, Debug)]
pub struct Sphere {
    pub center: Vector,
    pub radius: i64,
}

impl Sphere {
    /// Builds the sphere with the given center and radius, stored verbatim.
    pub fn new(center: Vector, radius: i64) -> (s: Sphere)
        ensures
            s.center == center,
            s.radius == radius,
    {
        Sphere { center, radius }
    }

    /// The hit point of the ray against this sphere, or `None` when the
    /// ray misses it. The ray meets the sphere exactly when the
    /// discriminant is nonnegative; the reported point sits at the
    /// algebraically smaller root of the quadratic, which may lie behind
    /// the ray's origin (no filtering of negative parameters is done).
    pub fn intersect(&self, ray: &Ray) -> (hit: Option<Vector>)
        requires
            in_range(self.center@, COORD_BOUND as int),
            -COORD_BOUND <= self.radius <= COORD_BOUND,
            in_range(ray.origin@, COORD_BOUND as int),
            in_range(ray.direction@, COORD_BOUND as int),
            ray.direction@ != (0int, 0int, 0int),
        ensures
            hit_view(hit) == intersect3(
                self.center@,
                self.radius as int,
                ray.origin@,
                ray.direction@,
            ),
            hit is Some <==> discriminant3(
                self.center@,
                self.radius as int,
                ray.origin@,
                ray.direction@,
            ) >= 0,
    {
        proof {
            lemma_quadratic_bounds(self.center@, self.radius as int, ray.origin@, ray.direction@);
            lemma_dot_self_pos(ray.direction@);
        }
        let diff = ray.origin.subtract(&self.center);
        let a = ray.direction.dot(&ray.direction);
        let hb = ray.direction.dot(&diff);
        let cc = diff.dot(&diff);
        let rr = self.radius * self.radius;
        proof {
            lemma_mul_bound(hb as int, hb as int, 1536000000, 1536000000);
            assert(1536000000int * 1536000000int == 2359296000000000000int) by (nonlinear_arith);
            lemma_mul_bound(a as int, cc - rr, 768000000, 3328000000);
            assert(768000000int * 3328000000int == 2555904000000000000int) by (nonlinear_arith);
        }
        let disc = hb * hb - a * (cc - rr);
        if disc < 0 {
            return None;
        }
        let root64 = isqrt(disc as u64);
        proof {
            lemma_floor_sqrt_bounds(disc as nat);
            assert(floor_sqrt(disc as nat) <= 2300000000nat) by (nonlinear_arith)
                requires
                    floor_sqrt(disc as nat) * floor_sqrt(disc as nat) <= disc as nat,
                    disc as nat <= 4915200000000000000nat,
            ;
        }
        let root = root64 as i64;
        let tn = -hb - root;
        proof {
            lemma_mul_bound(ray.direction@.0, tn as int, 16000, 3836000000);
            lemma_mul_bound(ray.direction@.1, tn as int, 16000, 3836000000);
            lemma_mul_bound(ray.direction@.2, tn as int, 16000, 3836000000);
            assert(16000int * 3836000000int == 61376000000000int) by (nonlinear_arith);
            lemma_tdiv_magnitude(ray.direction@.0 * tn, a as int);
            lemma_tdiv_magnitude(ray.direction@.1 * tn, a as int);
            lemma_tdiv_magnitude(ray.direction@.2 * tn, a as int);
        }
        let qx = (ray.direction.x * tn) / a;
        let qy = (ray.direction.y * tn) / a;
        let qz = (ray.direction.z * tn) / a;
        Some(Vector { x: ray.origin.x + qx, y: ray.origin.y + qy, z: ray.origin.z + qz })
    }

    /// The outward unit normal of the sphere's surface at the given
    /// point: the normalized direction from the center to the point.
    pub fn normal_at(&self, pos: &Vector) -> (n: Vector)
        requires
            in_range(self.center@, 400000000),
            in_range(pos@, 400000000),
            pos@ != self.center@,
        ensures
            n@ == unit3(sub3(pos@, self.center@)),
    {
        let diff = pos.subtract(&self.center);
        diff.normalize()
    }
}

/// Scaling the direction by a positive factor never changes whether the
/// ray hits the sphere: the discriminant is multiplied by the square of
/// the factor, which leaves its sign alone.
pub proof fn lemma_intersect_scale_decision(
    c: (int, int, int),
    r: int,
    o: (int, int, int),
    d: (int, int, int),
    k: int,
)
    requires
        k >= 1,
    ensures
        discriminant3(c, r, o, scale3(d, k)) == k * k * discriminant3(c, r, o, d),
        intersect3(c, r, o, scale3(d, k)) is Some <==> intersect3(c, r, o, d) is Some,
{
    let diff = sub3(o, c);
    lemma_dot_scale_left(d, diff, k);
    lemma_dot_scale_self(d, k);
    lemma_disc_scale_ring(dot3(d, diff), dot3(d, d), dot3(diff, diff) - r * r, k);
    let disc = discriminant3(c, r, o, d);
    let disc2 = discriminant3(c, r, o, scale3(d, k));
    assert(disc2 >= 0 <==> disc >= 0) by (nonlinear_arith)
        requires
            k >= 1,
            disc2 == k * k * disc,
    ;
}

/// When the discriminant's square root is exact -- every tangent hit,
/// and every scenario whose arithmetic comes out even -- the reported
/// hit point is exactly the same for every positive multiple of the
/// direction: the quadratic solve is scale-invariant.
pub proof fn lemma_intersect_scale_exact(
    c: (int, int, int),
    r: int,
    o: (int, int, int),
    d: (int, int, int),
    k: int,
)
    requires
        k >= 1,
        dot3(d, d) >= 1,
        exact_root(discriminant3(c, r, o, d)),
    ensures
        intersect3(c, r, o, scale3(d, k)) == intersect3(c, r, o, d),
{
    let diff = sub3(o, c);
    let a = dot3(d, d);
    let hb = dot3(d, diff);
    let disc = discriminant3(c, r, o, d);
    let rt = floor_sqrt(disc as nat) as int;
    lemma_intersect_scale_decision(c, r, o, d, k);
    let disc2 = discriminant3(c, r, o, scale3(d, k));
    lemma_dot_scale_left(d, diff, k);
    lemma_dot_scale_self(d, k);
    assert(k * rt >= 0 && disc2 == (k * rt) * (k * rt)) by (nonlinear_arith)
        requires
            k >= 1,
            rt >= 0,
            disc2 == k * k * disc,
            disc == rt * rt,
    ;
    lemma_floor_sqrt_exact(disc2, k * rt);
    let tn = -hb - rt;
    let tn2 = -(k * hb) - k * rt;
    assert(tn2 == k * tn) by (nonlinear_arith)
        requires
            tn == -hb - rt,
            tn2 == -(k * hb) - k * rt,
    ;
    assert(k * k >= 1) by (nonlinear_arith)
        requires
            k >= 1,
    ;
    assert((d.0 * k) * tn2 == (k * k) * (d.0 * tn) && (d.1 * k) * tn2 == (k * k) * (d.1 * tn) && (
    d.2 * k) * tn2 == (k * k) * (d.2 * tn)) by (nonlinear_arith)
        requires
            tn2 == k * tn,
    ;
    lemma_tdiv_scale(d.0 * tn, a, k * k);
    lemma_tdiv_scale(d.1 * tn, a, k * k);
    lemma_tdiv_scale(d.2 * tn, a, k * k);
}

} // verus!
