//! Exact integer arithmetic underlying the geometry kernel: truncating
//! division (the semantics of Rust's `/` on signed integers) and the floor
//! of the integer square root.

use vstd::prelude::*;
use vstd::arithmetic::div_mod::{
    lemma_fundamental_div_mod, lemma_fundamental_div_mod_converse_div, lemma_mod_bound,
};

verus! {

/// Truncating (round-toward-zero) division: what Rust's `/` computes on
/// signed integers. Meaningful only for `d > 0`, which is all this crate
/// ever divides by.
pub open spec fn tdiv(x: int, d: int) -> int {
    if x >= 0 {
        x / d
    } else {
        -((-x) / d)
    }
}

/// Floor of the square root of `n`.
pub open spec fn floor_sqrt(n: nat) -> nat
    decreases n,
{
    if n == 0 {
        0
    } else {
        let r = floor_sqrt((n - 1) as nat);
        if (r + 1) * (r + 1) <= n {
            r + 1
        } else {
            r
        }
    }
}

/// `floor_sqrt(n)` squares to at most `n`, and the next integer squares to
/// more than `n`.
pub proof fn lemma_floor_sqrt_bounds(n: nat)
    ensures
        floor_sqrt(n) * floor_sqrt(n) <= n,
        n < (floor_sqrt(n) + 1) * (floor_sqrt(n) + 1),
    decreases n,
{
    if n > 0 {
        let m = (n - 1) as nat;
        lemma_floor_sqrt_bounds(m);
        let r = floor_sqrt(m);
        if (r + 1) * (r + 1) <= n {
            assert((r + 1) * (r + 1) < (r + 1 + 1) * (r + 1 + 1)) by (nonlinear_arith);
        }
    } else {
        assert((floor_sqrt(n) + 1) * (floor_sqrt(n) + 1) == 1) by (nonlinear_arith)
            requires
                floor_sqrt(n) == 0,
        ;
    }
}

/// No integer other than `floor_sqrt(n)` satisfies the two bounds above.
pub proof fn lemma_floor_sqrt_is_unique(n: nat, r: nat)
    requires
        r * r <= n,
        n < (r + 1) * (r + 1),
    ensures
        r == floor_sqrt(n),
{
    let s = floor_sqrt(n);
    lemma_floor_sqrt_bounds(n);
    if r < s {
        assert((r + 1) * (r + 1) <= s * s) by (nonlinear_arith)
            requires
                r + 1 <= s,
        ;
        assert(false);
    }
    if s < r {
        assert((s + 1) * (s + 1) <= r * r) by (nonlinear_arith)
            requires
                s + 1 <= r,
        ;
        assert(false);
    }
}

/// The square root of a perfect square is exact.
pub proof fn lemma_floor_sqrt_of_square(m: nat)
    ensures
        floor_sqrt(m * m) == m,
{
    assert(m * m < (m + 1) * (m + 1)) by (nonlinear_arith);
    lemma_floor_sqrt_is_unique(m * m, m);
}

/// The floor square root of `m * m` is `m` itself, stated over `int`
/// values for use where the square arises from integer arithmetic.
pub proof fn lemma_floor_sqrt_exact(n: int, m: int)
    requires
        m >= 0,
        n == m * m,
    ensures
        floor_sqrt(n as nat) == m,
{
    assert((m as nat) * (m as nat) == n as nat) by (nonlinear_arith)
        requires
            m >= 0,
            n == m * m,
    ;
    lemma_floor_sqrt_of_square(m as nat);
}

/// A number below a square has a floor square root below the square's
/// base.
pub proof fn lemma_floor_sqrt_below(n: int, b: int)
    requires
        0 <= n,
        1 <= b,
        n < b * b,
    ensures
        (floor_sqrt(n as nat) as int) < b,
{
    lemma_floor_sqrt_bounds(n as nat);
    let f = floor_sqrt(n as nat) as int;
    if f >= b {
        assert(b * b <= f * f) by (nonlinear_arith)
            requires
                1 <= b <= f,
        ;
        assert(f * f <= n) by (nonlinear_arith)
            requires
                floor_sqrt(n as nat) * floor_sqrt(n as nat) <= n as nat,
                f == floor_sqrt(n as nat) as int,
                n >= 0,
        ;
        assert(false);
    }
}

/// A number at least a square has a floor square root at least the
/// square's base.
pub proof fn lemma_floor_sqrt_at_least(n: int, b: int)
    requires
        0 <= b,
        b * b <= n,
    ensures
        b <= (floor_sqrt(n as nat) as int),
{
    lemma_floor_sqrt_bounds(n as nat);
    let f = floor_sqrt(n as nat) as int;
    if f < b {
        assert((f + 1) * (f + 1) <= b * b) by (nonlinear_arith)
            requires
                0 <= f + 1 <= b,
        ;
        assert(n < (f + 1) * (f + 1)) by (nonlinear_arith)
            requires
                (n as nat) < (floor_sqrt(n as nat) + 1) * (floor_sqrt(n as nat) + 1),
                f == floor_sqrt(n as nat) as int,
                n >= 0,
        ;
        assert(false);
    }
}

/// The defining property of truncating division by a positive divisor:
/// the quotient times the divisor falls short of the dividend by less than
/// the divisor, on the dividend's side of zero.
pub proof fn lemma_tdiv_fundamental(x: int, d: int)
    requires
        d >= 1,
    ensures
        x >= 0 ==> 0 <= x - tdiv(x, d) * d < d && tdiv(x, d) >= 0,
        x < 0 ==> -d < x - tdiv(x, d) * d <= 0 && tdiv(x, d) <= 0,
{
    if x >= 0 {
        lemma_fundamental_div_mod(x, d);
        lemma_mod_bound(x, d);
        assert(0 <= x - tdiv(x, d) * d < d && tdiv(x, d) >= 0) by (nonlinear_arith)
            requires
                d >= 1,
                x >= 0,
                x == d * (x / d) + x % d,
                0 <= x % d < d,
                tdiv(x, d) == x / d,
        ;
    } else {
        lemma_fundamental_div_mod(-x, d);
        lemma_mod_bound(-x, d);
        assert(-d < x - tdiv(x, d) * d <= 0 && tdiv(x, d) <= 0) by (nonlinear_arith)
            requires
                d >= 1,
                x < 0,
                -x == d * ((-x) / d) + (-x) % d,
                0 <= (-x) % d < d,
                tdiv(x, d) == -((-x) / d),
        ;
    }
}

/// A dividend within `d * c` of zero has a truncated quotient within `c`
/// of zero.
pub proof fn lemma_tdiv_quotient_bound(x: int, d: int, c: int)
    requires
        d >= 1,
        c >= 0,
        -(d * c) <= x <= d * c,
    ensures
        -c <= tdiv(x, d) <= c,
{
    lemma_tdiv_fundamental(x, d);
    if x >= 0 {
        assert(tdiv(x, d) <= c) by (nonlinear_arith)
            requires
                d >= 1,
                c >= 0,
                tdiv(x, d) * d <= x,
                x <= d * c,
        ;
    } else {
        assert(-c <= tdiv(x, d)) by (nonlinear_arith)
            requires
                d >= 1,
                c >= 0,
                x <= tdiv(x, d) * d,
                -(d * c) <= x,
        ;
    }
}

/// The truncated quotient never exceeds the dividend in magnitude.
pub proof fn lemma_tdiv_magnitude(x: int, d: int)
    requires
        d >= 1,
    ensures
        x >= 0 ==> tdiv(x, d) <= x,
        x < 0 ==> x <= tdiv(x, d),
{
    lemma_tdiv_fundamental(x, d);
    if x >= 0 {
        assert(tdiv(x, d) <= x) by (nonlinear_arith)
            requires
                d >= 1,
                tdiv(x, d) >= 0,
                tdiv(x, d) * d <= x,
        ;
    } else {
        assert(x <= tdiv(x, d)) by (nonlinear_arith)
            requires
                d >= 1,
                tdiv(x, d) <= 0,
                x <= tdiv(x, d) * d,
        ;
    }
}

/// Scaling dividend and divisor by the same positive factor leaves the
/// truncated quotient unchanged.
pub proof fn lemma_tdiv_scale(x: int, d: int, k: int)
    requires
        d >= 1,
        k >= 1,
    ensures
        tdiv(k * x, k * d) == tdiv(x, d),
{
    if x >= 0 {
        lemma_div_scale_nonneg(x, d, k);
        assert(k * x >= 0) by (nonlinear_arith)
            requires
                k >= 1,
                x >= 0,
        ;
    } else {
        lemma_div_scale_nonneg(-x, d, k);
        assert(k * x < 0) by (nonlinear_arith)
            requires
                k >= 1,
                x < 0,
        ;
        assert(k * (-x) == -(k * x)) by (nonlinear_arith);
    }
}

/// Euclidean division of a nonnegative dividend is invariant under scaling
/// dividend and divisor by the same positive factor.
proof fn lemma_div_scale_nonneg(x: int, d: int, k: int)
    requires
        x >= 0,
        d >= 1,
        k >= 1,
    ensures
        (k * x) / (k * d) == x / d,
{
    let q = x / d;
    let r = x % d;
    lemma_fundamental_div_mod(x, d);
    lemma_mod_bound(x, d);
    assert(k * x == q * (k * d) + k * r) by (nonlinear_arith)
        requires
            x == d * q + r,
    ;
    assert(0 <= k * r < k * d) by (nonlinear_arith)
        requires
            k >= 1,
            0 <= r < d,
    ;
    lemma_fundamental_div_mod_converse_div(k * x, k * d, q, k * r);
}

/// Floor of the square root of `n`, found by binary search.
pub fn isqrt(n: u64) -> (r: u64)
    ensures
        r == floor_sqrt(n as nat),
{
    let mut lo: u64 = 0;
    let mut hi: u64 = 4294967296;
    proof {
        assert(4294967296int * 4294967296int > u64::MAX as int) by (nonlinear_arith);
    }
    while hi - lo > 1
        invariant
            lo < hi <= 4294967296,
            (lo as int) * (lo as int) <= n as int,
            ((hi as int) * (hi as int)) > n as int,
        decreases hi - lo,
    {
        let mid = lo + (hi - lo) / 2;
        proof {
            assert((mid as int) * (mid as int) <= u64::MAX as int) by (nonlinear_arith)
                requires
                    mid as int <= 4294967295int,
            ;
        }
        if mid * mid <= n {
            lo = mid;
        } else {
            hi = mid;
        }
    }
    proof {
        lemma_floor_sqrt_is_unique(n as nat, lo as nat);
    }
    lo
}

} // verus!
