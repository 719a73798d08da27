//! Fixed-point 2D vectors and the arithmetic the flocking rules need.
//!
//! A coordinate is an `i64` count of sub-units, `SCALE` of them to one world
//! unit. Magnitudes are compared through squared norms, so every geometric
//! test in the crate is exact integer arithmetic. "Set magnitude" and "limit
//! magnitude" scale a vector through an integer ceiling square root; on the
//! zero vector they return the zero vector, the mandatory guard against a
//! directionless normalization.

use vstd::arithmetic::div_mod::{
    lemma_div_is_ordered, lemma_div_multiples_vanish, lemma_div_nonincreasing,
    lemma_div_pos_is_pos, lemma_fundamental_div_mod, lemma_mod_division_less_than_divisor,
};
use vstd::arithmetic::mul::{lemma_mul_inequality, lemma_mul_nonnegative};
use vstd::prelude::*;

verus! {

/// Sub-units per world unit; every fixed-point quantity in the crate uses this scale.
pub const SCALE: i64 = 1000;

/// `SCALE * SCALE`; the reciprocal of a distance `d` in sub-units is `SCALE_SQ / d` sub-units.
pub const SCALE_SQ: i64 = 1_000_000;

/// Bound on any single coordinate, velocity component or query radius.
pub const COORD_LIMIT: i64 = 1_000_000_000;

/// Domain bound of the vector operations: wide enough for sums of bounded
/// per-neighbor contributions over the largest admitted population.
pub const VEC_LIMIT: i64 = 1_000_000_000_000_000;

/// Upper end of the square-root search; its square bounds every squared norm
/// the crate can form (`2 * VEC_LIMIT * VEC_LIMIT` and below).
pub const SQRT_HI: u64 = 0x8_0000_0000_0000;

/// A 2D point or vector in fixed-point sub-units.
#[derive(Clone, Copy, PartialEq, Eq, Structural, Debug)]
pub struct Vec2 {
    pub x: i64,
    pub y: i64,
}

impl View for Vec2 {
    type V = (int, int);

    open spec fn view(&self) -> (int, int) {
        (self.x as int, self.y as int)
    }
}

pub open spec fn sq(x: int) -> int {
    x * x
}

pub open spec fn iabs(x: int) -> int {
    if x >= 0 {
        x
    } else {
        -x
    }
}

/// Squared Euclidean norm of a vector, the crate's measure of magnitude.
pub open spec fn norm_sq(v: (int, int)) -> int {
    sq(v.0) + sq(v.1)
}

/// Both components within `[-b, b]`.
pub open spec fn in_bound(v: (int, int), b: int) -> bool {
    -b <= v.0 <= b && -b <= v.1 <= b
}

/// `d` is the ceiling square root of `n`: the least `d >= 0` with `d * d >= n`.
pub open spec fn is_sqrt_ceil(n: int, d: int) -> bool {
    &&& 0 <= d
    &&& n <= d * d
    &&& d == 0 || (d - 1) * (d - 1) < n
}

/// The ceiling square root as a function; `lemma_sqrt_ceil` relates it to
/// `is_sqrt_ceil`, which pins it uniquely.
pub closed spec fn sqrt_ceil(n: int) -> int {
    choose|d: int| #[trigger] is_sqrt_ceil(n, d)
}

pub proof fn lemma_sqrt_ceil_exists(n: int)
    requires
        n >= 0,
    ensures
        exists|d: int| #[trigger] is_sqrt_ceil(n, d),
    decreases n,
{
    if n == 0 {
        assert(is_sqrt_ceil(0, 0));
    } else {
        lemma_sqrt_ceil_exists(n - 1);
        let d0 = choose|d: int| #[trigger] is_sqrt_ceil(n - 1, d);
        if d0 * d0 >= n {
            if d0 == 0 {
                assert(d0 * d0 == 0) by (nonlinear_arith)
                    requires
                        d0 == 0,
                ;
            }
            assert(is_sqrt_ceil(n, d0));
        } else {
            assert((d0 + 1) * (d0 + 1) == d0 * d0 + 2 * d0 + 1) by (nonlinear_arith);
            assert(is_sqrt_ceil(n, d0 + 1));
        }
    }
}

pub proof fn lemma_sqrt_ceil_unique(n: int, d1: int, d2: int)
    requires
        is_sqrt_ceil(n, d1),
        is_sqrt_ceil(n, d2),
    ensures
        d1 == d2,
{
    if d1 < d2 {
        assert(d1 * d1 <= (d2 - 1) * (d2 - 1)) by (nonlinear_arith)
            requires
                0 <= d1 <= d2 - 1,
        ;
    }
    if d2 < d1 {
        assert(d2 * d2 <= (d1 - 1) * (d1 - 1)) by (nonlinear_arith)
            requires
                0 <= d2 <= d1 - 1,
        ;
    }
}

/// The ceiling square root satisfies its characterization on non-negative input.
pub proof fn lemma_sqrt_ceil(n: int)
    requires
        n >= 0,
    ensures
        is_sqrt_ceil(n, sqrt_ceil(n)),
{
    lemma_sqrt_ceil_exists(n);
}

/// `x * m / d` with the quotient truncated toward zero, the scaling step of
/// "set magnitude": the direction of `x` is kept and the magnitude can only
/// round inward.
pub open spec fn scale_div(x: int, m: int, d: int) -> int {
    if x >= 0 {
        (x * m) / d
    } else {
        -((-x * m) / d)
    }
}

/// The vector scaled to magnitude at most `m` (and as close to `m` as the
/// rounding allows); the zero vector stays zero.
pub open spec fn with_mag_spec(v: (int, int), m: int) -> (int, int) {
    if v.0 == 0 && v.1 == 0 {
        (0int, 0int)
    } else {
        let d = sqrt_ceil(norm_sq(v));
        (scale_div(v.0, m, d), scale_div(v.1, m, d))
    }
}

/// The vector unchanged when its norm is within `m`, otherwise rescaled to `m`.
pub open spec fn limit_mag_spec(v: (int, int), m: int) -> (int, int) {
    if norm_sq(v) <= sq(m) {
        v
    } else {
        with_mag_spec(v, m)
    }
}

/// A square is bounded by the square of a bound.
pub proof fn lemma_comp_le(x: int, m: int)
    requires
        m >= 0,
        sq(x) <= sq(m),
    ensures
        iabs(x) <= m,
{
    assert(iabs(x) <= m) by (nonlinear_arith)
        requires
            m >= 0,
            x * x <= m * m,
    ;
}

/// Division by `c` keeps a value under `k` when the value is under `c * k`.
pub proof fn lemma_div_le_factor(a: int, c: int, k: int)
    requires
        0 <= a,
        1 <= c,
        0 <= k,
        a <= c * k,
    ensures
        0 <= a / c <= k,
    {
    lemma_div_pos_is_pos(a, c);
    lemma_div_is_ordered(a, c * k, c);
    lemma_div_multiples_vanish(k, c);
}

/// Scaling through `scale_div` is monotone in the magnitude of the input.
pub proof fn lemma_scale_div_le(x: int, m: int, d: int, a: int)
    requires
        1 <= d,
        0 <= m,
        iabs(x) <= a,
    ensures
        iabs(scale_div(x, m, d)) == (iabs(x) * m) / d,
        iabs(scale_div(x, m, d)) <= (a * m) / d,
        scale_div(x, m, d) == if x >= 0 {
            (iabs(x) * m) / d
        } else {
            -((iabs(x) * m) / d)
        },
{
    lemma_mul_nonnegative(iabs(x), m);
    lemma_div_pos_is_pos(iabs(x) * m, d);
    lemma_mul_inequality(iabs(x), a, m);
    lemma_div_is_ordered(iabs(x) * m, a * m, d);
}

/// The central magnitude bound: scaling a vector by `m / d`, where `d` is at
/// least the vector's norm, yields a vector of norm at most `m`.
pub proof fn lemma_scale_div_norm(x: int, y: int, m: int, d: int)
    requires
        d >= 1,
        m >= 0,
        sq(x) + sq(y) <= sq(d),
    ensures
        sq(scale_div(x, m, d)) + sq(scale_div(y, m, d)) <= sq(m),
        0 <= (iabs(x) * m) / d <= m,
        0 <= (iabs(y) * m) / d <= m,
        iabs(scale_div(x, m, d)) <= m,
        iabs(scale_div(y, m, d)) <= m,
{
    let a = iabs(x);
    let b = iabs(y);
    let qa = (a * m) / d;
    let qb = (b * m) / d;
    lemma_scale_div_le(x, m, d, a);
    lemma_scale_div_le(y, m, d, b);
    lemma_mul_nonnegative(a, m);
    lemma_mul_nonnegative(b, m);
    lemma_div_pos_is_pos(a * m, d);
    lemma_div_pos_is_pos(b * m, d);
    lemma_fundamental_div_mod(a * m, d);
    lemma_fundamental_div_mod(b * m, d);
    lemma_mod_division_less_than_divisor(a * m, d);
    lemma_mod_division_less_than_divisor(b * m, d);
    assert(qa * d <= a * m) by (nonlinear_arith)
        requires
            a * m == d * qa + (a * m) % d,
            (a * m) % d >= 0,
    ;
    assert(qb * d <= b * m) by (nonlinear_arith)
        requires
            b * m == d * qb + (b * m) % d,
            (b * m) % d >= 0,
    ;
    assert(sq(x) == sq(a) && sq(y) == sq(b)) by (nonlinear_arith)
        requires
            a == iabs(x),
            b == iabs(y),
    ;
    assert(qa * qa + qb * qb <= m * m) by (nonlinear_arith)
        requires
            qa >= 0,
            qb >= 0,
            a >= 0,
            b >= 0,
            d >= 1,
            m >= 0,
            qa * d <= a * m,
            qb * d <= b * m,
            a * a + b * b <= d * d,
    ;
    assert(sq(scale_div(x, m, d)) == sq(qa) && sq(scale_div(y, m, d)) == sq(qb))
        by (nonlinear_arith)
        requires
            scale_div(x, m, d) == qa || scale_div(x, m, d) == -qa,
            scale_div(y, m, d) == qb || scale_div(y, m, d) == -qb,
    ;
    lemma_comp_le(qa, m);
    lemma_comp_le(qb, m);
}

/// "Set magnitude" never overshoots the requested magnitude.
pub proof fn lemma_with_mag_norm(v: (int, int), m: int)
    requires
        m >= 0,
    ensures
        norm_sq(with_mag_spec(v, m)) <= sq(m),
        in_bound(with_mag_spec(v, m), m),
{
    lemma_mul_nonnegative(m, m);
    if v.0 == 0 && v.1 == 0 {
    } else {
        assert(norm_sq(v) >= 1) by (nonlinear_arith)
            requires
                v.0 != 0 || v.1 != 0,
        ;
        lemma_sqrt_ceil(norm_sq(v));
        let d = sqrt_ceil(norm_sq(v));
        if d == 0 {
            assert(d * d == 0) by (nonlinear_arith)
                requires
                    d == 0,
            ;
        }
        lemma_scale_div_norm(v.0, v.1, m, d);
    }
}

/// "Limit magnitude" never exceeds the cap.
pub proof fn lemma_limit_mag_norm(v: (int, int), m: int)
    requires
        m >= 0,
    ensures
        norm_sq(limit_mag_spec(v, m)) <= sq(m),
        in_bound(limit_mag_spec(v, m), m),
{
    if norm_sq(v) <= sq(m) {
        assert(sq(v.0) >= 0 && sq(v.1) >= 0) by (nonlinear_arith);
        lemma_comp_le(v.0, m);
        lemma_comp_le(v.1, m);
    } else {
        lemma_with_mag_norm(v, m);
    }
}

/// Absolute value of an `i64` as a `u64`.
fn abs_u(a: i64) -> (r: u64)
    requires
        a != i64::MIN,
    ensures
        r as int == iabs(a as int),
{
    if a < 0 {
        (-a) as u64
    } else {
        a as u64
    }
}

/// The integer ceiling square root, by binary search.
pub fn isqrt_ceil(n: u128) -> (d: u64)
    requires
        n as int <= (SQRT_HI as int) * (SQRT_HI as int),
    ensures
        is_sqrt_ceil(n as int, d as int),
        d as int == sqrt_ceil(n as int),
        d <= SQRT_HI,
{
    let mut lo: u64 = 0;
    let mut hi: u64 = SQRT_HI;
    while lo < hi
        invariant
            lo <= hi <= SQRT_HI,
            (hi as int) * (hi as int) >= n as int,
            lo == 0 || ((lo - 1) as int) * ((lo - 1) as int) < n as int,
        decreases hi - lo,
    {
        let mid: u64 = lo + (hi - lo) / 2;
        assert((mid as int) * (mid as int) <= (SQRT_HI as int) * (SQRT_HI as int))
            by (nonlinear_arith)
            requires
                0 <= mid as int <= SQRT_HI as int,
        ;
        let msq: u128 = (mid as u128) * (mid as u128);
        if msq >= n {
            hi = mid;
        } else {
            lo = mid + 1;
        }
    }
    proof {
        lemma_sqrt_ceil(n as int);
        lemma_sqrt_ceil_unique(n as int, lo as int, sqrt_ceil(n as int));
    }
    lo
}

impl Vec2 {
    /// The zero vector.
    pub fn zero() -> (r: Vec2)
        ensures
            r@ == (0int, 0int),
    {
        Vec2 { x: 0, y: 0 }
    }

    pub fn new(x: i64, y: i64) -> (r: Vec2)
        ensures
            r@ == (x as int, y as int),
    {
        Vec2 { x, y }
    }

    /// Componentwise sum.
    pub fn add(self, o: Vec2) -> (r: Vec2)
        requires
            i64::MIN <= self.x + o.x <= i64::MAX,
            i64::MIN <= self.y + o.y <= i64::MAX,
        ensures
            r@ == (self.x + o.x, self.y + o.y),
    {
        Vec2 { x: self.x + o.x, y: self.y + o.y }
    }

    /// Componentwise difference.
    pub fn sub(self, o: Vec2) -> (r: Vec2)
        requires
            i64::MIN <= self.x - o.x <= i64::MAX,
            i64::MIN <= self.y - o.y <= i64::MAX,
        ensures
            r@ == (self.x - o.x, self.y - o.y),
    {
        Vec2 { x: self.x - o.x, y: self.y - o.y }
    }

    /// Squared norm, exact in `u128`.
    pub fn norm_sq_u(self) -> (n: u128)
        requires
            in_bound(self@, VEC_LIMIT as int),
        ensures
            n as int == norm_sq(self@),
            n as int <= 2 * (VEC_LIMIT as int) * (VEC_LIMIT as int),
    {
        let ax: u64 = abs_u(self.x);
        let ay: u64 = abs_u(self.y);
        proof {
            assert(iabs(self.x as int) * iabs(self.x as int) == (self.x as int) * (self.x as int))
                by (nonlinear_arith);
            assert(iabs(self.y as int) * iabs(self.y as int) == (self.y as int) * (self.y as int))
                by (nonlinear_arith);
            assert((ax as int) * (ax as int) <= (VEC_LIMIT as int) * (VEC_LIMIT as int))
                by (nonlinear_arith)
                requires
                    0 <= ax as int <= VEC_LIMIT as int,
            ;
            assert((ay as int) * (ay as int) <= (VEC_LIMIT as int) * (VEC_LIMIT as int))
                by (nonlinear_arith)
                requires
                    0 <= ay as int <= VEC_LIMIT as int,
            ;
        }
        (ax as u128) * (ax as u128) + (ay as u128) * (ay as u128)
    }

    /// Scale this vector to magnitude `m` (rounding inward; the zero vector
    /// stays zero, never a division by zero).
    pub fn with_magnitude(self, m: i64) -> (r: Vec2)
        requires
            in_bound(self@, VEC_LIMIT as int),
            0 <= m <= VEC_LIMIT,
        ensures
            r@ == with_mag_spec(self@, m as int),
            norm_sq(r@) <= sq(m as int),
            in_bound(r@, m as int),
    {
        proof {
            lemma_with_mag_norm(self@, m as int);
        }
        if self.x == 0 && self.y == 0 {
            return Vec2 { x: 0, y: 0 };
        }
        let n = self.norm_sq_u();
        let d = isqrt_ceil(n);
        proof {
            if d == 0 {
                assert((d as int) * (d as int) == 0) by (nonlinear_arith)
                    requires
                        d == 0,
                ;
                assert(norm_sq(self@) >= 1) by (nonlinear_arith)
                    requires
                        self@.0 != 0 || self@.1 != 0,
                ;
            }
            lemma_scale_div_norm(self@.0, self@.1, m as int, d as int);
        }
        let rx = scale_div_exec(self.x, m, d as i64);
        let ry = scale_div_exec(self.y, m, d as i64);
        Vec2 { x: rx, y: ry }
    }

    /// Leave the vector alone when its norm is within `m`, otherwise rescale
    /// it to magnitude `m`.
    pub fn limit_magnitude(self, m: i64) -> (r: Vec2)
        requires
            in_bound(self@, VEC_LIMIT as int),
            0 <= m <= VEC_LIMIT,
        ensures
            r@ == limit_mag_spec(self@, m as int),
            norm_sq(r@) <= sq(m as int),
            in_bound(r@, m as int),
    {
        proof {
            lemma_limit_mag_norm(self@, m as int);
            assert((m as int) * (m as int) <= (VEC_LIMIT as int) * (VEC_LIMIT as int))
                by (nonlinear_arith)
                requires
                    0 <= m as int <= VEC_LIMIT as int,
            ;
        }
        let n = self.norm_sq_u();
        let msq: u128 = (m as u128) * (m as u128);
        if n <= msq {
            self
        } else {
            self.with_magnitude(m)
        }
    }

    /// Componentwise division by a positive count, truncated toward zero.
    pub fn div_count(self, c: i64) -> (r: Vec2)
        requires
            in_bound(self@, VEC_LIMIT as int),
            1 <= c,
        ensures
            r@ == (scale_div(self@.0, 1, c as int), scale_div(self@.1, 1, c as int)),
            iabs(r@.0) <= iabs(self@.0),
            iabs(r@.1) <= iabs(self@.1),
    {
        proof {
            lemma_scale_div_le(self@.0, 1, c as int, iabs(self@.0));
            lemma_scale_div_le(self@.1, 1, c as int, iabs(self@.1));
            lemma_div_nonincreasing(iabs(self@.0) * 1, c as int);
            lemma_div_nonincreasing(iabs(self@.1) * 1, c as int);
        }
        let rx = scale_div_exec(self.x, 1, c);
        let ry = scale_div_exec(self.y, 1, c);
        Vec2 { x: rx, y: ry }
    }

    /// Componentwise scaling by a per-mille factor `s` (a strength of `SCALE`
    /// means one), truncated toward zero.
    pub fn scale_milli(self, s: i64) -> (r: Vec2)
        requires
            in_bound(self@, COORD_LIMIT as int),
            0 <= s <= SCALE_SQ,
        ensures
            r@ == (scale_div(self@.0, s as int, SCALE as int), scale_div(
                self@.1,
                s as int,
                SCALE as int,
            )),
            iabs(r@.0) <= (iabs(self@.0) * s) / (SCALE as int),
            iabs(r@.1) <= (iabs(self@.1) * s) / (SCALE as int),
    {
        proof {
            lemma_scale_div_le(self@.0, s as int, SCALE as int, COORD_LIMIT as int);
            lemma_scale_div_le(self@.1, s as int, SCALE as int, COORD_LIMIT as int);
            lemma_div_le_factor(
                (COORD_LIMIT as int) * (s as int),
                SCALE as int,
                (COORD_LIMIT as int) * (SCALE_SQ as int),
            );
            assert((COORD_LIMIT as int) * (s as int) <= (SCALE as int) * ((COORD_LIMIT as int)
                * (SCALE_SQ as int))) by (nonlinear_arith)
                requires
                    0 <= s as int <= SCALE_SQ as int,
            ;
        }
        let rx = scale_div_exec(self.x, s, SCALE);
        let ry = scale_div_exec(self.y, s, SCALE);
        Vec2 { x: rx, y: ry }
    }
}

/// `x * m / d` truncated toward zero, exact per `scale_div`.
fn scale_div_exec(x: i64, m: i64, d: i64) -> (r: i64)
    requires
        x != i64::MIN,
        iabs(x as int) <= VEC_LIMIT as int,
        0 <= m <= VEC_LIMIT,
        1 <= d,
        (iabs(x as int) * (m as int)) / (d as int) <= i64::MAX,
    ensures
        r as int == scale_div(x as int, m as int, d as int),
{
    proof {
        lemma_scale_div_le(x as int, m as int, d as int, iabs(x as int));
        assert(iabs(x as int) * (m as int) <= (VEC_LIMIT as int) * (VEC_LIMIT as int))
            by (nonlinear_arith)
            requires
                0 <= iabs(x as int) <= VEC_LIMIT as int,
                0 <= m as int <= VEC_LIMIT as int,
        ;
    }
    let a: u64 = abs_u(x);
    let q: u128 = (a as u128) * (m as u128) / (d as u128);
    let qi: i64 = q as i64;
    if x < 0 {
        -qi
    } else {
        qi
    }
}

} // verus!
