//! The 3-component vector type and its operations: componentwise
//! arithmetic, dot product, magnitude and normalization, each specified
//! exactly over the mathematical integers.

use vstd::prelude::*;
use crate::num::{
    floor_sqrt, isqrt, lemma_floor_sqrt_bounds, lemma_tdiv_fundamental, lemma_tdiv_magnitude,
    tdiv,
};

verus! {

/// One unit of length: coordinates are fixed-point values counted in
/// thousandths, so the value `1000` stands for a length of one.
pub const UNIT: i64 = 1000;

/// The largest coordinate magnitude that the intersection routine accepts;
/// every intermediate product of the quadratic solve stays inside `i64`
/// for coordinates within this bound.
pub const COORD_BOUND: i64 = 16000;

/// The largest coordinate magnitude for which a dot product of two
/// vectors stays inside `i64`.
pub const DOT_BOUND: i64 = 1000000000;

/// A vector (or point) with three exact `i64` coordinates.
#[derive(Clone, Copy, PartialEq, Eq, Structural, Debug)]
pub struct Vector {
    pub x: i64,
    pub y: i64,
    pub z: i64,
}

impl View for Vector {
    type V = (int, int, int);

    open spec fn view(&self) -> (int, int, int) {
        (self.x as int, self.y as int, self.z as int)
    }
}

/// Componentwise sum.
pub open spec fn add3(a: (int, int, int), b: (int, int, int)) -> (int, int, int) {
    (a.0 + b.0, a.1 + b.1, a.2 + b.2)
}

/// Componentwise difference.
pub open spec fn sub3(a: (int, int, int), b: (int, int, int)) -> (int, int, int) {
    (a.0 - b.0, a.1 - b.1, a.2 - b.2)
}

/// Componentwise multiple.
pub open spec fn scale3(a: (int, int, int), k: int) -> (int, int, int) {
    (a.0 * k, a.1 * k, a.2 * k)
}

/// Dot product.
pub open spec fn dot3(a: (int, int, int), b: (int, int, int)) -> int {
    a.0 * b.0 + a.1 * b.1 + a.2 * b.2
}

/// Magnitude: the floor of the square root of the dot product of a vector
/// with itself.
pub open spec fn mag3(a: (int, int, int)) -> int {
    floor_sqrt(dot3(a, a) as nat) as int
}

/// The normalized vector: each coordinate rescaled by `UNIT / magnitude`,
/// with the division truncating toward zero.
pub open spec fn unit3(a: (int, int, int)) -> (int, int, int) {
    (
        tdiv(a.0 * UNIT, mag3(a)),
        tdiv(a.1 * UNIT, mag3(a)),
        tdiv(a.2 * UNIT, mag3(a)),
    )
}

/// All three coordinates lie within `m` of zero.
pub open spec fn in_range(a: (int, int, int), m: int) -> bool {
    &&& -m <= a.0 <= m
    &&& -m <= a.1 <= m
    &&& -m <= a.2 <= m
}

/// The value fits in an `i64`.
pub open spec fn fits_i64(n: int) -> bool {
    i64::MIN <= n <= i64::MAX
}

/// A product of values bounded by `m` and `n` is bounded by `m * n`.
pub proof fn lemma_mul_bound(a: int, b: int, m: int, n: int)
    by (nonlinear_arith)
    requires
        -m <= a <= m,
        -n <= b <= n,
    ensures
        -(m * n) <= a * b <= m * n,
{
}

/// A dot product of vectors whose coordinates are bounded by `m` and `n`
/// is bounded by `3 * m * n`.
pub proof fn lemma_dot_range(a: (int, int, int), b: (int, int, int), m: int, n: int)
    by (nonlinear_arith)
    requires
        in_range(a, m),
        in_range(b, n),
    ensures
        -(3 * m * n) <= dot3(a, b) <= 3 * m * n,
{
}

/// Multiplication by a common factor moves freely across a product.
proof fn lemma_mul_shuffle(x: int, y: int, k: int)
    by (nonlinear_arith)
    ensures
        (x * k) * y == k * (x * y),
        (x * k) * (y * k) == (k * k) * (x * y),
{
}

/// Multiplication distributes over a three-part sum.
proof fn lemma_mul_distrib3(k: int, p: int, q: int, s: int)
    by (nonlinear_arith)
    ensures
        k * (p + q + s) == k * p + k * q + k * s,
        (p + q + s) * k == k * p + k * q + k * s,
{
}

/// A square of a product regrouped as a product of squares.
proof fn lemma_square_factor(a: int, m: int)
    by (nonlinear_arith)
    ensures
        (a * m) * (a * m) == (m * m) * (a * a),
{
}

/// Scaling the left operand scales the dot product.
pub proof fn lemma_dot_scale_left(a: (int, int, int), b: (int, int, int), k: int)
    ensures
        dot3(scale3(a, k), b) == k * dot3(a, b),
{
    lemma_mul_shuffle(a.0, b.0, k);
    lemma_mul_shuffle(a.1, b.1, k);
    lemma_mul_shuffle(a.2, b.2, k);
    lemma_mul_distrib3(k, a.0 * b.0, a.1 * b.1, a.2 * b.2);
}

/// Scaling a vector scales its dot product with itself by the square of
/// the factor.
pub proof fn lemma_dot_scale_self(a: (int, int, int), k: int)
    ensures
        dot3(scale3(a, k), scale3(a, k)) == (k * k) * dot3(a, a),
{
    lemma_mul_shuffle(a.0, a.0, k);
    lemma_mul_shuffle(a.1, a.1, k);
    lemma_mul_shuffle(a.2, a.2, k);
    lemma_mul_distrib3(k * k, a.0 * a.0, a.1 * a.1, a.2 * a.2);
}

/// A dot product of a vector with itself is a sum of squares, hence
/// nonnegative.
pub proof fn lemma_dot_self_nonneg(a: (int, int, int))
    by (nonlinear_arith)
    ensures
        dot3(a, a) >= 0,
{
}

/// A nonzero vector has a strictly positive dot product with itself.
pub proof fn lemma_dot_self_pos(a: (int, int, int))
    by (nonlinear_arith)
    requires
        a != (0int, 0int, 0int),
    ensures
        dot3(a, a) >= 1,
{
}

/// A nonzero vector has magnitude at least one.
pub proof fn lemma_mag_pos(v: (int, int, int))
    requires
        v != (0int, 0int, 0int),
    ensures
        mag3(v) >= 1,
{
    lemma_dot_self_pos(v);
    lemma_floor_sqrt_bounds(dot3(v, v) as nat);
    let m = mag3(v);
    assert(m >= 1) by (nonlinear_arith)
        requires
            m >= 0,
            dot3(v, v) < ((m + 1) * (m + 1)),
            dot3(v, v) >= 1,
    ;
}

impl Vector {
    /// Builds the vector with the given coordinates.
    pub fn new(x: i64, y: i64, z: i64) -> (v: Vector)
        ensures
            v@ == (x as int, y as int, z as int),
    {
        Vector { x, y, z }
    }

    /// Componentwise sum.
    pub fn add(&self, other: &Vector) -> (r: Vector)
        requires
            fits_i64(self@.0 + other@.0),
            fits_i64(self@.1 + other@.1),
            fits_i64(self@.2 + other@.2),
        ensures
            r@ == add3(self@, other@),
    {
        Vector { x: self.x + other.x, y: self.y + other.y, z: self.z + other.z }
    }

    /// Componentwise difference.
    pub fn subtract(&self, other: &Vector) -> (r: Vector)
        requires
            fits_i64(self@.0 - other@.0),
            fits_i64(self@.1 - other@.1),
            fits_i64(self@.2 - other@.2),
        ensures
            r@ == sub3(self@, other@),
    {
        Vector { x: self.x - other.x, y: self.y - other.y, z: self.z - other.z }
    }

    /// Componentwise multiple by the factor.
    pub fn scale(&self, factor: i64) -> (r: Vector)
        requires
            fits_i64(self@.0 * factor),
            fits_i64(self@.1 * factor),
            fits_i64(self@.2 * factor),
        ensures
            r@ == scale3(self@, factor as int),
    {
        Vector { x: self.x * factor, y: self.y * factor, z: self.z * factor }
    }

    /// Dot product.
    pub fn dot(&self, other: &Vector) -> (r: i64)
        requires
            in_range(self@, DOT_BOUND as int),
            in_range(other@, DOT_BOUND as int),
        ensures
            r == dot3(self@, other@),
    {
        proof {
            lemma_mul_bound(self@.0, other@.0, DOT_BOUND as int, DOT_BOUND as int);
            lemma_mul_bound(self@.1, other@.1, DOT_BOUND as int, DOT_BOUND as int);
            lemma_mul_bound(self@.2, other@.2, DOT_BOUND as int, DOT_BOUND as int);
            assert(1000000000int * 1000000000int == 1000000000000000000int) by (nonlinear_arith);
        }
        self.x * other.x + self.y * other.y + self.z * other.z
    }

    /// Magnitude: the floor of the square root of `self . self`.
    pub fn magnitude(&self) -> (r: i64)
        requires
            in_range(self@, DOT_BOUND as int),
        ensures
            r == mag3(self@),
            r >= 0,
    {
        let d = self.dot(self);
        proof {
            lemma_dot_self_nonneg(self@);
            lemma_floor_sqrt_bounds(d as nat);
            let s = floor_sqrt(d as nat);
            assert(s <= d) by (nonlinear_arith)
                requires
                    s * s <= d as int,
                    d >= 0,
            ;
        }
        let r = isqrt(d as u64);
        r as i64
    }

    /// The vector rescaled to magnitude `UNIT` (up to the truncation of
    /// the division): the outward direction of `self`, one unit long.
    pub fn normalize(&self) -> (r: Vector)
        requires
            in_range(self@, DOT_BOUND as int),
            self@ != (0int, 0int, 0int),
        ensures
            r@ == unit3(self@),
            in_range(r@, UNIT as int),
    {
        let m = self.magnitude();
        proof {
            lemma_mag_pos(self@);
            lemma_coord_le_mag(self@);
            lemma_tdiv_magnitude(self@.0 * UNIT, m as int);
            lemma_tdiv_magnitude(self@.1 * UNIT, m as int);
            lemma_tdiv_magnitude(self@.2 * UNIT, m as int);
            lemma_mul_bound(self@.0, UNIT as int, m as int, UNIT as int);
            lemma_mul_bound(self@.1, UNIT as int, m as int, UNIT as int);
            lemma_mul_bound(self@.2, UNIT as int, m as int, UNIT as int);
            crate::num::lemma_tdiv_quotient_bound(self@.0 * UNIT, m as int, UNIT as int);
            crate::num::lemma_tdiv_quotient_bound(self@.1 * UNIT, m as int, UNIT as int);
            crate::num::lemma_tdiv_quotient_bound(self@.2 * UNIT, m as int, UNIT as int);
        }
        let qx = (self.x * UNIT) / m;
        let qy = (self.y * UNIT) / m;
        let qz = (self.z * UNIT) / m;
        Vector { x: qx, y: qy, z: qz }
    }
}

/// Subtracting a vector after adding it gives back the original vector,
/// exactly.
pub proof fn lemma_subtract_undoes_add(v: (int, int, int), w: (int, int, int))
    ensures
        sub3(add3(v, w), w) == v,
{
}

/// The dot product of a vector with itself is its magnitude squared, up to
/// the floor taken by the integer square root.
pub proof fn lemma_dot_self_vs_magnitude(v: (int, int, int))
    ensures
        mag3(v) * mag3(v) <= dot3(v, v),
        dot3(v, v) < (mag3(v) + 1) * (mag3(v) + 1),
{
    lemma_dot_self_nonneg(v);
    lemma_floor_sqrt_bounds(dot3(v, v) as nat);
}

/// Scaling by one gives the vector back; scaling by zero gives the zero
/// vector.
pub proof fn lemma_scale_one_and_zero(v: (int, int, int))
    ensures
        scale3(v, 1) == v,
        scale3(v, 0) == (0int, 0int, 0int),
{
    assert(v.0 * 1 == v.0 && v.1 * 1 == v.1 && v.2 * 1 == v.2) by (nonlinear_arith);
    assert(v.0 * 0 == 0 && v.1 * 0 == 0 && v.2 * 0 == 0) by (nonlinear_arith);
}

/// One coordinate's contribution to the squared magnitude of the
/// normalized vector, bracketed by the exact value: `q` is the truncated
/// quotient of `y` by `m`, and `e` the part the truncation dropped.
proof fn lemma_unit_component_square(y: int, q: int, e: int, m: int, b: int)
    by (nonlinear_arith)
    requires
        m >= 1,
        0 <= b,
        e == y - q * m,
        y >= 0 ==> 0 <= e < m && q >= 0,
        y < 0 ==> -m < e <= 0 && q <= 0,
        -b <= y <= b,
    ensures
        (q * m) * (q * m) <= y * y + m * m,
        y * y - 2 * (b * m) <= (q * m) * (q * m),
{
}

/// A common factor comes out of a sum of squares, squared.
proof fn lemma_sum_squares_factor(a0: int, a1: int, a2: int, m: int)
    ensures
        (a0 * m) * (a0 * m) + (a1 * m) * (a1 * m) + (a2 * m) * (a2 * m) == (a0 * a0 + a1 * a1 + a2
            * a2) * (m * m),
{
    lemma_square_factor(a0, m);
    lemma_square_factor(a1, m);
    lemma_square_factor(a2, m);
    lemma_mul_distrib3(m * m, a0 * a0, a1 * a1, a2 * a2);
}

/// Each coordinate of a vector is bounded by the vector's magnitude.
proof fn lemma_coord_le_mag(v: (int, int, int))
    ensures
        -mag3(v) <= v.0 <= mag3(v),
        -mag3(v) <= v.1 <= mag3(v),
        -mag3(v) <= v.2 <= mag3(v),
{
    lemma_dot_self_vs_magnitude(v);
    let m = mag3(v);
    assert(v.0 * v.0 <= dot3(v, v) && v.1 * v.1 <= dot3(v, v) && v.2 * v.2 <= dot3(v, v))
        by (nonlinear_arith);
    assert(-m <= v.0 <= m && -m <= v.1 <= m && -m <= v.2 <= m) by (nonlinear_arith)
        requires
            m >= 0,
            v.0 * v.0 <= dot3(v, v),
            v.1 * v.1 <= dot3(v, v),
            v.2 * v.2 <= dot3(v, v),
            dot3(v, v) < (m + 1) * (m + 1),
    ;
}

/// Normalizing a vector at least one unit long yields a vector one unit
/// long, up to a small absolute tolerance fixed by the truncating
/// arithmetic: the magnitude of the normalized vector lies within
/// `[UNIT - 4, UNIT + 1]`. (For vectors much shorter than one unit the
/// floor taken by the integer square root dominates and no such bound
/// holds, so those stay outside this statement.)
pub proof fn lemma_normalize_magnitude(v: (int, int, int))
    requires
        mag3(v) >= UNIT,
    ensures
        UNIT - 4 <= mag3(unit3(v)) <= UNIT + 1,
{
    let m = mag3(v);
    let u = unit3(v);
    let uu = dot3(u, u);
    let vv = dot3(v, v);
    lemma_dot_self_vs_magnitude(v);
    lemma_coord_le_mag(v);
    lemma_mul_bound(v.0, UNIT as int, m, UNIT as int);
    lemma_mul_bound(v.1, UNIT as int, m, UNIT as int);
    lemma_mul_bound(v.2, UNIT as int, m, UNIT as int);
    lemma_tdiv_fundamental(v.0 * UNIT, m);
    lemma_tdiv_fundamental(v.1 * UNIT, m);
    lemma_tdiv_fundamental(v.2 * UNIT, m);
    let b = m * (UNIT as int);
    lemma_unit_component_square(v.0 * UNIT, u.0, v.0 * UNIT - u.0 * m, m, b);
    lemma_unit_component_square(v.1 * UNIT, u.1, v.1 * UNIT - u.1 * m, m, b);
    lemma_unit_component_square(v.2 * UNIT, u.2, v.2 * UNIT - u.2 * m, m, b);
    lemma_sum_squares_factor(u.0, u.1, u.2, m);
    lemma_sum_squares_factor(v.0, v.1, v.2, UNIT as int);
    assert(uu * (m * m) <= vv * (UNIT * UNIT) + 3 * (m * m));
    assert(vv * (UNIT * UNIT) - 6 * (b * m) <= uu * (m * m));
    assert(uu < 1002 * 1002) by (nonlinear_arith)
        requires
            m >= 1000,
            uu * (m * m) <= vv * (1000 * 1000) + 3 * (m * m),
            vv < (m + 1) * (m + 1),
    ;
    assert(996 * 996 <= uu) by (nonlinear_arith)
        requires
            m >= 1000,
            vv * (1000 * 1000) - 6 * ((m * 1000) * m) <= uu * (m * m),
            m * m <= vv,
    ;
    lemma_dot_self_nonneg(u);
    crate::num::lemma_floor_sqrt_below(uu, 1002);
    crate::num::lemma_floor_sqrt_at_least(uu, 996);
}

/// Normalizing is exact up to the truncation of one division per
/// coordinate: scaled back by the magnitude, each coordinate of the
/// normalized vector differs from the coordinate of `v * UNIT` by less
/// than the magnitude.
pub proof fn lemma_normalize_componentwise(v: (int, int, int))
    requires
        v != (0int, 0int, 0int),
    ensures
        mag3(v) >= 1,
        -mag3(v) < unit3(v).0 * mag3(v) - v.0 * UNIT < mag3(v),
        -mag3(v) < unit3(v).1 * mag3(v) - v.1 * UNIT < mag3(v),
        -mag3(v) < unit3(v).2 * mag3(v) - v.2 * UNIT < mag3(v),
{
    lemma_mag_pos(v);
    let m = mag3(v);
    lemma_tdiv_fundamental(v.0 * UNIT, m);
    lemma_tdiv_fundamental(v.1 * UNIT, m);
    lemma_tdiv_fundamental(v.2 * UNIT, m);
}

} // verus!
