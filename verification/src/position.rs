//! Axial coordinates for a hexagonal grid: positions, the six unit
//! directions, distance, rotation and reflection.
//!
//! A position is a pair `(q, r)` in the axial convention; the implicit third
//! cube coordinate is `s = -q - r`, so `q + r + s == 0` holds by
//! construction for every position.

use vstd::prelude::*;

verus! {

/// Bound on the hex norm of a position that the arithmetic in this crate
/// accepts.  Keeping every coordinate triple within this ball leaves ample
/// headroom in `i64` for differences, sums and the cube coordinate.
pub const COORD_BOUND: i64 = 0x0800_0000_0000_0000;

/// A position in a hexagonal grid, in axial coordinates `(q, r)`.
#[derive(Debug, Clone, Copy, PartialEq, Eq, Hash, Structural)]
pub struct HexPosition(pub i64, pub i64);

/// The six unit directions of the hexagonal grid, in the fixed rotational
/// order that ring and spiral traversal and neighbor enumeration rely on.
#[derive(Debug, Clone, Copy, PartialEq, Eq, Hash, Structural)]
pub enum HexDirection {
    /// The direction right.
    Right,
    /// The direction up-right.
    UpRight,
    /// The direction up-left.
    UpLeft,
    /// The direction left.
    Left,
    /// The direction down-left.
    DownLeft,
    /// The direction down-right.
    DownRight,
}

/// The unit vector of the direction with the given index in the fixed
/// rotational order: right, up-right, up-left, left, down-left, down-right.
pub open spec fn direction_vector(d: int) -> HexPosition {
    if d == 0 {
        HexPosition(1i64, 0i64)
    } else if d == 1 {
        HexPosition(1i64, -1i64)
    } else if d == 2 {
        HexPosition(0i64, -1i64)
    } else if d == 3 {
        HexPosition(-1i64, 0i64)
    } else if d == 4 {
        HexPosition(-1i64, 1i64)
    } else {
        HexPosition(0i64, 1i64)
    }
}

/// Index of a direction in the fixed rotational order.
pub open spec fn direction_index(d: HexDirection) -> int {
    match d {
        HexDirection::Right => 0,
        HexDirection::UpRight => 1,
        HexDirection::UpLeft => 2,
        HexDirection::Left => 3,
        HexDirection::DownLeft => 4,
        HexDirection::DownRight => 5,
    }
}

impl HexDirection {
    /// Returns the unit vector of the direction.
    pub fn to_vector(self) -> (v: HexPosition)
        ensures
            v == direction_vector(direction_index(self)),
    {
        match self {
            HexDirection::Right => HexPosition(1, 0),
            HexDirection::UpRight => HexPosition(1, -1),
            HexDirection::UpLeft => HexPosition(0, -1),
            HexDirection::Left => HexPosition(-1, 0),
            HexDirection::DownLeft => HexPosition(-1, 1),
            HexDirection::DownRight => HexPosition(0, 1),
        }
    }
}

/// Hex norm of an integer pair: the distance from the origin of the
/// position it denotes, `max(|q|, |r|, |q + r|)`.
pub open spec fn hex_norm(q: int, r: int) -> int {
    vstd::math::max3(
        vstd::math::abs(q) as int,
        vstd::math::abs(r) as int,
        vstd::math::abs(q + r) as int,
    )
}

/// Hex distance between two positions:
/// `max(|dq|, |dr|, |dq + dr|)` for the coordinate differences.
pub open spec fn hex_dist(a: HexPosition, b: HexPosition) -> int {
    hex_norm(a.0 - b.0, a.1 - b.1)
}

/// A position whose coordinate triple stays within [`COORD_BOUND`];
/// arithmetic on such positions cannot overflow `i64`.
pub open spec fn in_bounds(p: HexPosition) -> bool {
    hex_norm(p.0 as int, p.1 as int) <= COORD_BOUND as int
}

/// Component-wise sum of two positions, as a specification value.
pub open spec fn pos_add(a: HexPosition, b: HexPosition) -> HexPosition {
    HexPosition((a.0 + b.0) as i64, (a.1 + b.1) as i64)
}

/// One counter-clockwise rotation by 60 degrees about the origin:
/// `(q, r)` maps to `(-r, q + r)`.
pub open spec fn rotate_once(p: HexPosition) -> HexPosition {
    HexPosition((-p.1) as i64, (p.0 + p.1) as i64)
}

/// Central symmetry about the origin: `(q, r)` maps to `(-q, -r)`.
pub open spec fn reflect_spec(p: HexPosition) -> HexPosition {
    HexPosition((-p.0) as i64, (-p.1) as i64)
}

/// The quotient of `a` divided by `b`, truncated toward zero, as machine
/// division of signed integers truncates.
pub open spec fn trunc_div(a: int, b: int) -> int
    recommends
        b != 0,
{
    let m = vstd::math::abs(a) as int / vstd::math::abs(b) as int;
    if (a < 0) != (b < 0) {
        -m
    } else {
        m
    }
}

/// The remainder of `a` divided by `b` under truncating division; it
/// carries the sign of `a`.
pub open spec fn trunc_rem(a: int, b: int) -> int
    recommends
        b != 0,
{
    a - b * trunc_div(a, b)
}

/// `n` counter-clockwise rotations by 60 degrees about the origin.
pub open spec fn rotate_times(p: HexPosition, n: nat) -> HexPosition
    decreases n,
{
    if n == 0 {
        p
    } else {
        rotate_times(rotate_once(p), (n - 1) as nat)
    }
}

/// Truncating division of two machine integers.
fn trunc_div_i64(a: i64, b: i64) -> (q: i64)
    requires
        b != 0,
        !(a == i64::MIN && b == -1),
    ensures
        q == trunc_div(a as int, b as int),
{
    let aw = a as i128;
    let bw = b as i128;
    let am = if aw < 0 {
        -aw
    } else {
        aw
    };
    let bm = if bw < 0 {
        -bw
    } else {
        bw
    };
    let mag = am / bm;
    proof {
        vstd::arithmetic::div_mod::lemma_fundamental_div_mod(am as int, bm as int);
        vstd::arithmetic::div_mod::lemma_mod_bound(am as int, bm as int);
        assert(0 <= mag as int && mag as int <= am as int) by (nonlinear_arith)
            requires
                am as int == (bm as int) * (mag as int) + (am as int) % (bm as int) && 0 <= (
                am as int) % (bm as int) < bm as int && bm as int >= 1 && am as int >= 0,
        ;
        if a == i64::MIN && (a < 0) == (b < 0) {
            assert(bm as int >= 2);
            assert(2 * (mag as int) <= am as int) by (nonlinear_arith)
                requires
                    am as int == (bm as int) * (mag as int) + (am as int) % (bm as int) && 0 <= (
                    am as int) % (bm as int) && bm as int >= 2 && mag as int >= 0,
            ;
        }
    }
    let res = if (a < 0) != (b < 0) {
        -mag
    } else {
        mag
    };
    res as i64
}

/// Truncating remainder of two machine integers.
fn trunc_rem_i64(a: i64, b: i64) -> (r: i64)
    requires
        b != 0,
        !(a == i64::MIN && b == -1),
    ensures
        r == trunc_rem(a as int, b as int),
{
    let q = trunc_div_i64(a, b);
    proof {
        let ai = a as int;
        let bi = b as int;
        let qi = q as int;
        let ami = vstd::math::abs(ai) as int;
        let bmi = vstd::math::abs(bi) as int;
        vstd::arithmetic::div_mod::lemma_fundamental_div_mod(ami, bmi);
        vstd::arithmetic::div_mod::lemma_mod_bound(ami, bmi);
        let mi = ami / bmi;
        let r0 = ami % bmi;
        if ai >= 0 && bi > 0 {
            assert(ai - bi * qi == r0) by (nonlinear_arith)
                requires
                    ai == ami && bi == bmi && qi == mi && ami == bmi * mi + r0,
            ;
        } else if ai >= 0 && bi < 0 {
            assert(ai - bi * qi == r0) by (nonlinear_arith)
                requires
                    ai == ami && bi == -bmi && qi == -mi && ami == bmi * mi + r0,
            ;
        } else if ai < 0 && bi > 0 {
            assert(ai - bi * qi == -r0) by (nonlinear_arith)
                requires
                    ai == -ami && bi == bmi && qi == -mi && ami == bmi * mi + r0,
            ;
        } else {
            assert(ai - bi * qi == -r0) by (nonlinear_arith)
                requires
                    ai == -ami && bi == -bmi && qi == mi && ami == bmi * mi + r0,
            ;
        }
    }
    let rw = (a as i128) - (b as i128) * (q as i128);
    rw as i64
}

impl HexPosition {
    /// Creates a new position from its axial coordinates.
    pub fn new(q: i64, r: i64) -> (p: Self)
        ensures
            p == HexPosition(q, r),
    {
        HexPosition(q, r)
    }

    /// The origin of the grid, `(0, 0)`.
    pub fn origin() -> (p: Self)
        ensures
            p == HexPosition(0i64, 0i64),
    {
        HexPosition(0, 0)
    }

    /// Component-wise addition.
    pub fn plus(self, rhs: Self) -> (r: Self)
        requires
            i64::MIN <= self.0 + rhs.0 <= i64::MAX,
            i64::MIN <= self.1 + rhs.1 <= i64::MAX,
        ensures
            r == pos_add(self, rhs),
    {
        HexPosition(self.0 + rhs.0, self.1 + rhs.1)
    }

    /// Component-wise subtraction.
    pub fn minus(self, rhs: Self) -> (r: Self)
        requires
            i64::MIN <= self.0 - rhs.0 <= i64::MAX,
            i64::MIN <= self.1 - rhs.1 <= i64::MAX,
        ensures
            r.0 == self.0 - rhs.0,
            r.1 == self.1 - rhs.1,
    {
        HexPosition(self.0 - rhs.0, self.1 - rhs.1)
    }

    /// Adding a scalar to both coordinates.
    pub fn plus_scalar(self, k: i64) -> (r: Self)
        requires
            i64::MIN <= self.0 + k <= i64::MAX,
            i64::MIN <= self.1 + k <= i64::MAX,
        ensures
            r.0 == self.0 + k,
            r.1 == self.1 + k,
    {
        HexPosition(self.0 + k, self.1 + k)
    }

    /// Subtracting a scalar from both coordinates.
    pub fn minus_scalar(self, k: i64) -> (r: Self)
        requires
            i64::MIN <= self.0 - k <= i64::MAX,
            i64::MIN <= self.1 - k <= i64::MAX,
        ensures
            r.0 == self.0 - k,
            r.1 == self.1 - k,
    {
        HexPosition(self.0 - k, self.1 - k)
    }

    /// Component-wise multiplication.
    pub fn times_pos(self, rhs: Self) -> (r: Self)
        requires
            i64::MIN <= self.0 * rhs.0 <= i64::MAX,
            i64::MIN <= self.1 * rhs.1 <= i64::MAX,
        ensures
            r.0 == self.0 * rhs.0,
            r.1 == self.1 * rhs.1,
    {
        HexPosition(self.0 * rhs.0, self.1 * rhs.1)
    }

    /// Component-wise truncating division.
    pub fn div_pos(self, rhs: Self) -> (r: Self)
        requires
            rhs.0 != 0,
            rhs.1 != 0,
            !(self.0 == i64::MIN && rhs.0 == -1),
            !(self.1 == i64::MIN && rhs.1 == -1),
        ensures
            r.0 == trunc_div(self.0 as int, rhs.0 as int),
            r.1 == trunc_div(self.1 as int, rhs.1 as int),
    {
        HexPosition(trunc_div_i64(self.0, rhs.0), trunc_div_i64(self.1, rhs.1))
    }

    /// Component-wise truncating remainder.
    pub fn rem_pos(self, rhs: Self) -> (r: Self)
        requires
            rhs.0 != 0,
            rhs.1 != 0,
            !(self.0 == i64::MIN && rhs.0 == -1),
            !(self.1 == i64::MIN && rhs.1 == -1),
        ensures
            r.0 == trunc_rem(self.0 as int, rhs.0 as int),
            r.1 == trunc_rem(self.1 as int, rhs.1 as int),
    {
        HexPosition(trunc_rem_i64(self.0, rhs.0), trunc_rem_i64(self.1, rhs.1))
    }

    /// Truncating division of both coordinates by a scalar.
    pub fn div_scalar(self, k: i64) -> (r: Self)
        requires
            k != 0,
            !(self.0 == i64::MIN && k == -1),
            !(self.1 == i64::MIN && k == -1),
        ensures
            r.0 == trunc_div(self.0 as int, k as int),
            r.1 == trunc_div(self.1 as int, k as int),
    {
        HexPosition(trunc_div_i64(self.0, k), trunc_div_i64(self.1, k))
    }

    /// Truncating remainder of both coordinates by a scalar.
    pub fn rem_scalar(self, k: i64) -> (r: Self)
        requires
            k != 0,
            !(self.0 == i64::MIN && k == -1),
            !(self.1 == i64::MIN && k == -1),
        ensures
            r.0 == trunc_rem(self.0 as int, k as int),
            r.1 == trunc_rem(self.1 as int, k as int),
    {
        HexPosition(trunc_rem_i64(self.0, k), trunc_rem_i64(self.1, k))
    }

    /// Scaling by an integer factor.
    pub fn times(self, k: i64) -> (r: Self)
        requires
            i64::MIN <= self.0 * k <= i64::MAX,
            i64::MIN <= self.1 * k <= i64::MAX,
        ensures
            r.0 == self.0 * k,
            r.1 == self.1 * k,
    {
        HexPosition(self.0 * k, self.1 * k)
    }

    /// Returns the hex distance between two positions,
    /// `max(|dq|, |dr|, |dq + dr|)` on the coordinate differences; this is
    /// the length of a shortest walk between them along the six directions.
    pub fn distance(self, other: Self) -> (d: i64)
        requires
            in_bounds(self),
            in_bounds(other),
        ensures
            d == hex_dist(self, other),
            0 <= d <= 2 * COORD_BOUND,
    {
        let dq = self.0 - other.0;
        let dr = self.1 - other.1;
        let ds = (-self.0 - self.1) - (-other.0 - other.1);
        let aq = if dq < 0 { -dq } else { dq };
        let ar = if dr < 0 { -dr } else { dr };
        let a2 = if ds < 0 { -ds } else { ds };
        let m = if aq > ar { aq } else { ar };
        if m > a2 { m } else { a2 }
    }

    /// Rotates the position counter-clockwise by 60 degrees, `n` times.
    /// `n` must be non-negative; callers normalize a negative turn count
    /// modulo 6 first.
    pub fn rotation(self, n: i32) -> (r: Self)
        requires
            n >= 0,
            in_bounds(self),
        ensures
            r == rotate_times(self, n as nat),
            in_bounds(r),
        decreases n,
    {
        proof {
            lemma_rotate_once_preserves_norm(self);
        }
        if n == 0 {
            self
        } else {
            let turned = HexPosition(-self.1, self.0 + self.1);
            turned.rotation(n - 1)
        }
    }

    /// Central symmetry about the origin: `(q, r)` maps to `(-q, -r)`.
    pub fn reflect(self) -> (r: Self)
        requires
            in_bounds(self),
        ensures
            r == reflect_spec(self),
            r.0 == -self.0,
            r.1 == -self.1,
            in_bounds(r),
    {
        HexPosition(-self.0, -self.1)
    }
}

/// Rotating by 60 degrees permutes the cube coordinates up to sign, so the
/// hex norm is unchanged.
pub proof fn lemma_rotate_once_preserves_norm(p: HexPosition)
    requires
        in_bounds(p),
    ensures
        hex_norm(rotate_once(p).0 as int, rotate_once(p).1 as int) == hex_norm(
            p.0 as int,
            p.1 as int,
        ),
        in_bounds(rotate_once(p)),
{
}

/// The distance from a position to itself is zero.
pub proof fn lemma_distance_self(p: HexPosition)
    ensures
        hex_dist(p, p) == 0,
{
}

/// Hex distance is symmetric.
pub proof fn lemma_distance_symmetric(a: HexPosition, b: HexPosition)
    ensures
        hex_dist(a, b) == hex_dist(b, a),
{
}

/// Six rotations by 60 degrees bring a position back to itself.
pub proof fn lemma_rotation_six_identity(p: HexPosition)
    requires
        in_bounds(p),
    ensures
        rotate_times(p, 6) == p,
{
    let p1 = rotate_once(p);
    let p2 = rotate_once(p1);
    let p3 = rotate_once(p2);
    let p4 = rotate_once(p3);
    let p5 = rotate_once(p4);
    lemma_rotate_once_preserves_norm(p);
    lemma_rotate_once_preserves_norm(p1);
    lemma_rotate_once_preserves_norm(p2);
    lemma_rotate_once_preserves_norm(p3);
    lemma_rotate_once_preserves_norm(p4);
    assert(rotate_times(p, 6) == rotate_times(p1, 5));
    assert(rotate_times(p1, 5) == rotate_times(p2, 4));
    assert(rotate_times(p2, 4) == rotate_times(p3, 3));
    assert(rotate_times(p3, 3) == rotate_times(p4, 2));
    assert(rotate_times(p4, 2) == rotate_times(p5, 1));
    assert(rotate_times(p5, 1) == rotate_times(rotate_once(p5), 0));
    assert(rotate_times(rotate_once(p5), 0) == rotate_once(p5));
    assert(p3 == reflect_spec(p));
}

/// Reflection is an involution: reflecting twice returns the original
/// position.
pub proof fn lemma_reflect_involution(p: HexPosition)
    requires
        in_bounds(p),
    ensures
        reflect_spec(reflect_spec(p)) == p,
{
}

} // verus!
