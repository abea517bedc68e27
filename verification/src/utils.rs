//! Utility functions: exact axial rounding of rational coordinates, linear
//! interpolation over rationals, clamping, neighbor enumeration, and a
//! hexagonal bound.
//!
//! Continuous axial points are represented exactly as rationals with a
//! common positive denominator, so rounding and interpolation carry no
//! floating-point error and are reproducible bit for bit.

use vstd::prelude::*;

use crate::position::direction_index;
use crate::position::direction_vector;
use crate::position::hex_dist;
use crate::position::hex_norm;
use crate::position::in_bounds;
use crate::position::pos_add;
use crate::position::COORD_BOUND;
use crate::position::HexDirection;
use crate::position::HexPosition;

verus! {

/// The integer nearest to `n / d` for `d >= 1`, with halves rounded away
/// from zero, as `f32::round` rounds.
pub open spec fn round_div(n: int, d: int) -> int
    recommends
        d >= 1,
{
    if n >= 0 {
        (2 * n + d) / (2 * d)
    } else {
        -((2 * -n + d) / (2 * d))
    }
}

/// Rounding an exact multiple of the denominator returns the quotient
/// unchanged.
pub proof fn lemma_round_div_exact(c: int, d: int)
    requires
        d >= 1,
    ensures
        round_div(c * d, d) == c,
{
    if c >= 0 {
        assert(c * d >= 0) by (nonlinear_arith)
            requires
                c >= 0 && d >= 1,
        ;
        assert(2 * (c * d) + d == c * (2 * d) + d) by (nonlinear_arith);
        vstd::arithmetic::div_mod::lemma_fundamental_div_mod_converse(
            2 * (c * d) + d,
            2 * d,
            c,
            d,
        );
    } else {
        assert(c * d < 0) by (nonlinear_arith)
            requires
                c < 0 && d >= 1,
        ;
        assert(2 * -(c * d) + d == (-c) * (2 * d) + d) by (nonlinear_arith);
        vstd::arithmetic::div_mod::lemma_fundamental_div_mod_converse(
            2 * -(c * d) + d,
            2 * d,
            -c,
            d,
        );
    }
}

/// The rounding error is at most half the denominator:
/// `2 * |n - round_div(n, d) * d| <= d`.
pub proof fn lemma_round_div_error(n: int, d: int)
    requires
        d >= 1,
    ensures
        2 * vstd::math::abs(n - round_div(n, d) * d) <= d,
{
    if n >= 0 {
        let q = (2 * n + d) / (2 * d);
        let r = (2 * n + d) % (2 * d);
        vstd::arithmetic::div_mod::lemma_fundamental_div_mod(2 * n + d, 2 * d);
        vstd::arithmetic::div_mod::lemma_mod_bound(2 * n + d, 2 * d);
        assert(2 * n + d == (2 * d) * q + r);
        assert(2 * (n - q * d) == r - d) by (nonlinear_arith)
            requires
                2 * n + d == (2 * d) * q + r,
        ;
    } else {
        let m = -n;
        let q = (2 * m + d) / (2 * d);
        let r = (2 * m + d) % (2 * d);
        vstd::arithmetic::div_mod::lemma_fundamental_div_mod(2 * m + d, 2 * d);
        vstd::arithmetic::div_mod::lemma_mod_bound(2 * m + d, 2 * d);
        assert(2 * (m - q * d) == r - d) by (nonlinear_arith)
            requires
                2 * m + d == (2 * d) * q + r,
        ;
        assert(n - round_div(n, d) * d == -(m - q * d)) by (nonlinear_arith)
            requires
                n == -m && round_div(n, d) == -q,
        ;
    }
}

/// A rational within `[lo, hi]` rounds to an integer within `[lo, hi]`.
pub proof fn lemma_round_div_range(n: int, d: int, lo: int, hi: int)
    requires
        d >= 1,
        lo * d <= n <= hi * d,
    ensures
        lo <= round_div(n, d) <= hi,
{
    lemma_round_div_error(n, d);
    let q = round_div(n, d);
    assert(lo <= q && q <= hi) by (nonlinear_arith)
        requires
            d >= 1,
            lo * d <= n <= hi * d,
            2 * vstd::math::abs(n - q * d) <= d,
    ;
}

/// Integer division of non-negative `i128` values, used by the exact
/// rounding below; matches the specification-level Euclidean division.
fn div_i128(n: i128, d: i128) -> (q: i128)
    requires
        n >= 0,
        d >= 1,
    ensures
        q == n as int / d as int,
{
    n / d
}

/// Rounds the rational `n / d` to the nearest integer, halves away from
/// zero.
fn round_div_exec(n: i128, d: i128) -> (q: i128)
    requires
        d >= 1,
        2 * d <= i128::MAX,
        2 * vstd::math::abs(n as int) + d <= i128::MAX,
    ensures
        q == round_div(n as int, d as int),
{
    if n >= 0 {
        div_i128(2 * n + d, 2 * d)
    } else {
        -div_i128(2 * -n + d, 2 * d)
    }
}

/// Axial rounding of an exact rational axial point `(qn / d, rn / d)`:
/// each of `q`, `r` and the implied cube coordinate `s = -q - r` is rounded
/// to the nearest integer, then the component with the largest rounding
/// error is recomputed from the other two, so the cube constraint
/// `q + r + s == 0` is preserved exactly.  Ties fix `s`, then `r`, then `q`.
pub open spec fn axial_round_spec(qn: int, rn: int, d: int) -> HexPosition
    recommends
        d >= 1,
{
    let sn = -qn - rn;
    let rq = round_div(qn, d);
    let rr = round_div(rn, d);
    let rs = round_div(sn, d);
    let q_diff = vstd::math::abs(qn - rq * d);
    let r_diff = vstd::math::abs(rn - rr * d);
    let s_diff = vstd::math::abs(sn - rs * d);
    if q_diff > r_diff && q_diff > s_diff {
        HexPosition((-rr - rs) as i64, rr as i64)
    } else if r_diff > s_diff {
        HexPosition(rq as i64, (-rq - rs) as i64)
    } else {
        HexPosition(rq as i64, rr as i64)
    }
}

/// Rounding an exact integer-valued axial coordinate returns that
/// coordinate unchanged.  The cube constraint holds of every output of
/// axial rounding by construction, since the third cube coordinate of an
/// axial pair is always `-q - r`.
pub proof fn lemma_axial_round_exact(q: int, r: int, d: int)
    requires
        d >= 1,
        hex_norm(q, r) <= COORD_BOUND as int,
    ensures
        axial_round_spec(q * d, r * d, d) == HexPosition(q as i64, r as i64),
{
    lemma_round_div_exact(q, d);
    lemma_round_div_exact(r, d);
    assert(-(q * d) - r * d == (-q - r) * d) by (nonlinear_arith);
    lemma_round_div_exact(-q - r, d);
    assert(q * d - q * d == 0);
    assert(r * d - r * d == 0);
    assert((-q - r) * d - (-q - r) * d == 0);
}

/// Exact axial rounding of the rational axial point `(qn / den, rn / den)`.
/// The point must lie within the coordinate ball the crate's arithmetic
/// accepts, and the denominator within twice that bound.
pub fn axial_round(qn: i128, rn: i128, den: i128) -> (p: HexPosition)
    requires
        1 <= den <= 4 * COORD_BOUND as int,
        vstd::math::abs(qn as int) <= den * COORD_BOUND as int,
        vstd::math::abs(rn as int) <= den * COORD_BOUND as int,
    ensures
        p == axial_round_spec(qn as int, rn as int, den as int),
        hex_norm(p.0 as int, p.1 as int) <= 3 * COORD_BOUND as int + 3,
{
    let ghost b = COORD_BOUND as int;
    proof {
        assert(den * b <= 4 * b * b) by (nonlinear_arith)
            requires
                1 <= den <= 4 * b && b >= 1,
        ;
        assert((-b) * den <= qn <= b * den && (-b) * den <= rn <= b * den) by (nonlinear_arith)
            requires
                den >= 1 && vstd::math::abs(qn as int) <= den * b && vstd::math::abs(rn as int)
                    <= den * b,
        ;
        assert((-2 * b) * den <= -qn - rn <= (2 * b) * den) by (nonlinear_arith)
            requires
                den >= 1 && (-b) * den <= qn <= b * den && (-b) * den <= rn <= b * den,
        ;
    }
    let sn = -qn - rn;
    let rq = round_div_exec(qn, den);
    let rr = round_div_exec(rn, den);
    let rs = round_div_exec(sn, den);
    proof {
        lemma_round_div_range(qn as int, den as int, -b, b);
        lemma_round_div_range(rn as int, den as int, -b, b);
        lemma_round_div_range(sn as int, den as int, -2 * b, 2 * b);
        assert(vstd::math::abs(rq * den) <= den * b && vstd::math::abs(rr * den) <= den * b
            && vstd::math::abs(rs * den) <= den * (2 * b)) by (nonlinear_arith)
            requires
                den >= 1 && -b <= rq <= b && -b <= rr <= b && -2 * b <= rs <= 2 * b,
        ;
    }
    let qd = qn - rq * den;
    let rd = rn - rr * den;
    let sd = sn - rs * den;
    let q_diff = if qd < 0 { -qd } else { qd };
    let r_diff = if rd < 0 { -rd } else { rd };
    let s_diff = if sd < 0 { -sd } else { sd };
    if q_diff > r_diff && q_diff > s_diff {
        HexPosition((-rr - rs) as i64, rr as i64)
    } else if r_diff > s_diff {
        HexPosition(rq as i64, (-rq - rs) as i64)
    } else {
        HexPosition(rq as i64, rr as i64)
    }
}

/// Numerator of the linear interpolation between `a` and `b` at parameter
/// `t = t_num / t_den`: the exact value of `a + (b - a) * t`, scaled by
/// `t_den`.
pub open spec fn lerp_num(a: int, b: int, t_num: int, t_den: int) -> int {
    a * (t_den - t_num) + b * t_num
}

/// Linear interpolation between `a` and `b` at the rational parameter
/// `t = t_num / t_den`, returned as the exact numerator over `t_den`.
pub fn lerp(a: i64, b: i64, t_num: i64, t_den: i64) -> (r: i128)
    requires
        0 <= t_num <= t_den,
        t_den <= 4 * COORD_BOUND as int,
        vstd::math::abs(a as int) <= 2 * COORD_BOUND as int,
        vstd::math::abs(b as int) <= 2 * COORD_BOUND as int,
    ensures
        r == lerp_num(a as int, b as int, t_num as int, t_den as int),
        vstd::math::abs(r as int) <= t_den * (2 * COORD_BOUND as int),
        a <= b ==> (a as int) * t_den <= r <= (b as int) * t_den,
        b <= a ==> (b as int) * t_den <= r <= (a as int) * t_den,
{
    let ghost b2 = 2 * COORD_BOUND as int;
    proof {
        assert(vstd::math::abs(a * (t_den - t_num) + b * t_num) <= t_den * b2 && vstd::math::abs(
            a * (t_den - t_num),
        ) <= b2 * t_den && vstd::math::abs(b * t_num) <= b2 * t_den) by (nonlinear_arith)
            requires
                0 <= t_num <= t_den && vstd::math::abs(a as int) <= b2 && vstd::math::abs(b as int)
                    <= b2 && b2 >= 0,
        ;
        assert(b2 * t_den <= i128::MAX / 2) by (nonlinear_arith)
            requires
                0 <= t_den <= 4 * COORD_BOUND as int && b2 == 2 * COORD_BOUND as int,
        ;
        if a <= b {
            assert((a as int) * t_den <= a * (t_den - t_num) + b * t_num <= (b as int) * t_den)
                by (nonlinear_arith)
                requires
                    a <= b && 0 <= t_num <= t_den,
            ;
        } else {
            assert((b as int) * t_den <= a * (t_den - t_num) + b * t_num <= (a as int) * t_den)
                by (nonlinear_arith)
                requires
                    b <= a && 0 <= t_num <= t_den,
            ;
        }
    }
    (a as i128) * ((t_den - t_num) as i128) + (b as i128) * (t_num as i128)
}

/// The interpolation numerators of both axial coordinates between two
/// positions at the rational parameter `t = t_num / t_den`.
pub fn hexagonal_lerp(a: HexPosition, b: HexPosition, t_num: i64, t_den: i64) -> (r: (i128, i128))
    requires
        0 <= t_num <= t_den,
        t_den <= 4 * COORD_BOUND as int,
        in_bounds(a),
        in_bounds(b),
    ensures
        r.0 == lerp_num(a.0 as int, b.0 as int, t_num as int, t_den as int),
        r.1 == lerp_num(a.1 as int, b.1 as int, t_num as int, t_den as int),
        vstd::math::abs(r.0 as int) <= t_den * (2 * COORD_BOUND as int),
        vstd::math::abs(r.1 as int) <= t_den * (2 * COORD_BOUND as int),
        a.0 <= b.0 ==> (a.0 as int) * t_den <= r.0 <= (b.0 as int) * t_den,
        b.0 <= a.0 ==> (b.0 as int) * t_den <= r.0 <= (a.0 as int) * t_den,
        a.1 <= b.1 ==> (a.1 as int) * t_den <= r.1 <= (b.1 as int) * t_den,
        b.1 <= a.1 ==> (b.1 as int) * t_den <= r.1 <= (a.1 as int) * t_den,
{
    (lerp(a.0, b.0, t_num, t_den), lerp(a.1, b.1, t_num, t_den))
}

/// Clamps a value to the interval `[min, max]`.
pub fn clamp(value: i64, min: i64, max: i64) -> (r: i64)
    ensures
        value < min ==> r == min,
        value >= min && value > max ==> r == max,
        min <= value <= max ==> r == value,
{
    if value < min {
        min
    } else if value > max {
        max
    } else {
        value
    }
}

/// The six positions adjacent to `pos`, one per direction, in the fixed
/// rotational order right, up-right, up-left, left, down-left, down-right.
/// Purely geometric: every position has six neighbors, each at hex
/// distance one.
pub fn neighbors(pos: HexPosition) -> (r: Vec<HexPosition>)
    requires
        in_bounds(pos),
    ensures
        r@.len() == 6,
        forall|i: int| 0 <= i < 6 ==> #[trigger] r@[i] == pos_add(pos, direction_vector(i)),
        forall|i: int| 0 <= i < 6 ==> hex_dist(pos, #[trigger] r@[i]) == 1,
{
    let mut result: Vec<HexPosition> = Vec::new();
    result.push(pos.plus(HexDirection::Right.to_vector()));
    result.push(pos.plus(HexDirection::UpRight.to_vector()));
    result.push(pos.plus(HexDirection::UpLeft.to_vector()));
    result.push(pos.plus(HexDirection::Left.to_vector()));
    result.push(pos.plus(HexDirection::DownLeft.to_vector()));
    result.push(pos.plus(HexDirection::DownRight.to_vector()));
    result
}

/// A hexagonal area: every position within a given hex distance of a
/// center.
pub struct HexBound(pub HexPosition, pub usize);

impl HexBound {
    /// Creates a new hexagonal area with the given center and radius.
    pub fn new(center: HexPosition, radius: usize) -> (b: Self)
        ensures
            b.0 == center,
            b.1 == radius,
    {
        HexBound(center, radius)
    }

    /// The radius of the area.
    pub fn radius(&self) -> (r: usize)
        ensures
            r == self.1,
    {
        self.1
    }

    /// The central position of the area.
    pub fn center(&self) -> (c: HexPosition)
        ensures
            c == self.0,
    {
        self.0
    }

    /// Whether a position lies within the area: its hex distance from the
    /// center is at most the radius.
    pub fn contains(&self, pos: HexPosition) -> (r: bool)
        requires
            in_bounds(self.0),
            in_bounds(pos),
        ensures
            r == (hex_dist(self.0, pos) <= self.1),
    {
        let d = self.0.distance(pos);
        if (d as u64) > (self.1 as u64) {
            false
        } else {
            true
        }
    }
}

} // verus!
