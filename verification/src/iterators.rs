//! Ring, spiral and line enumeration over hexagonal positions.
//!
//! Each producer is a restartable cursor: construction captures the
//! parameters, and `next` yields the elements of a fixed specification
//! sequence one at a time, or `None` once the sequence is exhausted.

use vstd::prelude::*;

use crate::position::hex_dist;
use crate::position::hex_norm;
use crate::position::in_bounds;
use crate::position::COORD_BOUND;
use crate::position::HexPosition;
use crate::utils::axial_round;
use crate::utils::axial_round_spec;
use crate::utils::hexagonal_lerp;
use crate::utils::lerp_num;

verus! {

/// Number of positions in the ring of the given radius: `6 * radius`, or 1
/// for the degenerate ring of radius 0, which is the center alone.
pub open spec fn ring_len(radius: nat) -> nat {
    if radius == 0 {
        1
    } else {
        6 * radius
    }
}

/// The `k`-th position of the ring of the given radius around `c`.  The
/// walk starts at the corner reached by moving `radius` steps down-left
/// from `c` and takes `radius` steps in each of the six directions, in the
/// fixed rotational order right, up-right, up-left, left, down-left,
/// down-right.
pub open spec fn ring_pos(c: HexPosition, radius: int, k: int) -> HexPosition
    recommends
        radius >= 1,
        0 <= k < 6 * radius,
{
    let d = k / radius;
    let j = k % radius;
    if d == 0 {
        HexPosition((c.0 - radius + j) as i64, (c.1 + radius) as i64)
    } else if d == 1 {
        HexPosition((c.0 + j) as i64, (c.1 + radius - j) as i64)
    } else if d == 2 {
        HexPosition((c.0 + radius) as i64, (c.1 - j) as i64)
    } else if d == 3 {
        HexPosition((c.0 + radius - j) as i64, (c.1 - radius) as i64)
    } else if d == 4 {
        HexPosition((c.0 - j) as i64, (c.1 - radius + j) as i64)
    } else {
        HexPosition((c.0 - radius) as i64, (c.1 + j) as i64)
    }
}

/// The ring of the given radius around `c`, as a sequence.
pub open spec fn ring_seq(c: HexPosition, radius: nat) -> Seq<HexPosition> {
    if radius == 0 {
        seq![c]
    } else {
        Seq::new(6 * radius, |k: int| ring_pos(c, radius as int, k))
    }
}

/// Every position of a ring of radius at least 1 lies at hex distance
/// exactly `radius` from the center, and stays within the coordinate ball
/// enlarged by `radius`.
#[verifier::rlimit(100)]
pub proof fn lemma_ring_distance(c: HexPosition, radius: int, k: int)
    requires
        radius >= 1,
        0 <= k < 6 * radius,
        hex_norm(c.0 as int, c.1 as int) + radius <= COORD_BOUND as int,
    ensures
        hex_dist(c, ring_pos(c, radius, k)) == radius,
        hex_norm(ring_pos(c, radius, k).0 as int, ring_pos(c, radius, k).1 as int) <= hex_norm(
            c.0 as int,
            c.1 as int,
        ) + radius,
{
    let d = k / radius;
    let j = k % radius;
    vstd::arithmetic::div_mod::lemma_fundamental_div_mod(k, radius);
    vstd::arithmetic::div_mod::lemma_mod_bound(k, radius);
    assert(0 <= d < 6) by (nonlinear_arith)
        requires
            radius >= 1 && 0 <= k < 6 * radius && k == radius * d + j && 0 <= j < radius,
    ;
    let p = ring_pos(c, radius, k);
    let nc = hex_norm(c.0 as int, c.1 as int);
    if d == 0 {
        assert(p == HexPosition((c.0 - radius + j) as i64, (c.1 + radius) as i64));
        assert(hex_dist(c, p) == radius);
        assert(hex_norm(p.0 as int, p.1 as int) <= nc + radius);
    } else if d == 1 {
        assert(p == HexPosition((c.0 + j) as i64, (c.1 + radius - j) as i64));
        assert(hex_dist(c, p) == radius);
        assert(hex_norm(p.0 as int, p.1 as int) <= nc + radius);
    } else if d == 2 {
        assert(p == HexPosition((c.0 + radius) as i64, (c.1 - j) as i64));
        assert(hex_dist(c, p) == radius);
        assert(hex_norm(p.0 as int, p.1 as int) <= nc + radius);
    } else if d == 3 {
        assert(p == HexPosition((c.0 + radius - j) as i64, (c.1 - radius) as i64));
        assert(hex_dist(c, p) == radius);
        assert(hex_norm(p.0 as int, p.1 as int) <= nc + radius);
    } else if d == 4 {
        assert(p == HexPosition((c.0 - j) as i64, (c.1 - radius + j) as i64));
        assert(hex_dist(c, p) == radius);
        assert(hex_norm(p.0 as int, p.1 as int) <= nc + radius);
    } else {
        assert(p == HexPosition((c.0 - radius) as i64, (c.1 + j) as i64));
        assert(hex_dist(c, p) == radius);
        assert(hex_norm(p.0 as int, p.1 as int) <= nc + radius);
    }
}

/// Distinct indices of a ring map to distinct positions, so a ring of
/// radius `r >= 1` has exactly `6 * r` distinct members.
#[verifier::rlimit(100)]
pub proof fn lemma_ring_injective(c: HexPosition, radius: int, k1: int, k2: int)
    requires
        radius >= 1,
        0 <= k1 < 6 * radius,
        0 <= k2 < 6 * radius,
        k1 != k2,
        hex_norm(c.0 as int, c.1 as int) + radius <= COORD_BOUND as int,
    ensures
        ring_pos(c, radius, k1) != ring_pos(c, radius, k2),
{
    let d1 = k1 / radius;
    let j1 = k1 % radius;
    let d2 = k2 / radius;
    let j2 = k2 % radius;
    vstd::arithmetic::div_mod::lemma_fundamental_div_mod(k1, radius);
    vstd::arithmetic::div_mod::lemma_mod_bound(k1, radius);
    vstd::arithmetic::div_mod::lemma_fundamental_div_mod(k2, radius);
    vstd::arithmetic::div_mod::lemma_mod_bound(k2, radius);
    assert(0 <= d1 < 6 && 0 <= d2 < 6) by (nonlinear_arith)
        requires
            radius >= 1 && 0 <= k1 < 6 * radius && 0 <= k2 < 6 * radius && k1 == radius * d1 + j1
                && k2 == radius * d2 + j2 && 0 <= j1 < radius && 0 <= j2 < radius,
    ;
    lemma_ring_distance(c, radius, k1);
    lemma_ring_distance(c, radius, k2);
    if d1 == d2 {
        assert(j1 != j2);
    }
}

/// Every position at hex distance exactly `radius` from the center
/// appears in the ring of that radius.
#[verifier::rlimit(100)]
pub proof fn lemma_ring_complete(c: HexPosition, radius: int, p: HexPosition)
    requires
        radius >= 1,
        hex_dist(c, p) == radius,
        hex_norm(c.0 as int, c.1 as int) + radius <= COORD_BOUND as int,
        hex_norm(p.0 as int, p.1 as int) <= COORD_BOUND as int,
    ensures
        exists|k: int| 0 <= k < 6 * radius && #[trigger] ring_pos(c, radius, k) == p,
{
    let dq = p.0 - c.0;
    let dr = p.1 - c.1;
    let dj: int = if dr == radius && dq < 0 {
        dq + radius
    } else if dq >= 0 && dr > 0 {
        dq
    } else if dq > 0 && dr <= 0 {
        if dr == -radius {
            radius - dq
        } else {
            -dr
        }
    } else if dq <= 0 && dr < 0 {
        -dq
    } else {
        dr
    };
    let dd: int = if dr == radius && dq < 0 {
        0
    } else if dq >= 0 && dr > 0 {
        1
    } else if dq > 0 && dr <= 0 {
        if dr == -radius {
            3
        } else {
            2
        }
    } else if dq <= 0 && dr < 0 {
        4
    } else {
        5
    };
    if dq >= 0 && dr > 0 && !(dr == radius && dq < 0) {
        assert(dq + dr == radius);
    }
    if dq > 0 && dr <= 0 && dr != -radius {
        assert(dq == radius);
    }
    if dq <= 0 && dr < 0 && !(dq > 0) {
        assert(dq + dr == -radius);
    }
    if !(dr == radius && dq < 0) && !(dq >= 0 && dr > 0) && !(dq > 0 && dr <= 0) && !(dq <= 0
        && dr < 0) {
        assert(dq < 0 && dr >= 0);
        assert(dq == -radius && dr < radius);
    }
    assert(0 <= dj < radius);
    let k = dd * radius + dj;
    vstd::arithmetic::div_mod::lemma_fundamental_div_mod_converse(k, radius, dd, dj);
    assert(0 <= k < 6 * radius) by (nonlinear_arith)
        requires
            radius >= 1 && 0 <= dd < 6 && 0 <= dj < radius && k == dd * radius + dj,
    ;
    assert(ring_pos(c, radius, k) == p);
}

/// The ring of radius `r >= 1` is exactly the set of positions at hex
/// distance `r` from the center, with `6 * r` distinct members.
pub proof fn lemma_ring_set(c: HexPosition, radius: int)
    requires
        radius >= 1,
        hex_norm(c.0 as int, c.1 as int) + radius <= COORD_BOUND as int,
    ensures
        ring_seq(c, radius as nat).to_set() =~= Set::new(
            |p: HexPosition| hex_dist(c, p) == radius,
        ),
        ring_seq(c, radius as nat).to_set().finite(),
        ring_seq(c, radius as nat).to_set().len() == 6 * radius,
{
    let s = ring_seq(c, radius as nat);
    assert(s.len() == 6 * radius);
    assert forall|k1: int, k2: int| 0 <= k1 < k2 < s.len() implies s[k1] != s[k2] by {
        lemma_ring_injective(c, radius, k1, k2);
    }
    assert(s.no_duplicates());
    assert forall|p: HexPosition|
        s.to_set().contains(p) == Set::new(|p2: HexPosition| hex_dist(c, p2) == radius).contains(
            p,
        ) by {
        if s.contains(p) {
            let k = choose|k: int| 0 <= k < s.len() && s[k] == p;
            lemma_ring_distance(c, radius, k);
        }
        if hex_dist(c, p) == radius {
            assert(hex_norm(p.0 as int, p.1 as int) <= COORD_BOUND as int);
            lemma_ring_complete(c, radius, p);
            let k = choose|k: int| 0 <= k < 6 * radius && #[trigger] ring_pos(c, radius, k) == p;
            assert(s[k] == p);
        }
    }
    vstd::seq_lib::seq_to_set_is_finite::<HexPosition>(s);
    s.unique_seq_to_set();
}

/// The positions within a given hex distance of a center.
pub open spec fn hex_ball(c: HexPosition, radius: int) -> Set<HexPosition> {
    Set::new(|p: HexPosition| hex_dist(c, p) <= radius)
}

/// A hexagonal ball of radius `r` has exactly `1 + 3 * r * (r + 1)`
/// members: the center plus the rings of radius 1 up to `r`.
pub proof fn lemma_ball_cardinality(c: HexPosition, radius: int)
    requires
        radius >= 0,
        hex_norm(c.0 as int, c.1 as int) + radius <= COORD_BOUND as int,
    ensures
        hex_ball(c, radius).finite(),
        hex_ball(c, radius).len() == 1 + 3 * radius * (radius + 1),
    decreases radius,
{
    if radius == 0 {
        assert forall|p: HexPosition|
            hex_ball(c, 0).contains(p) == set![c].contains(p) by {
            if hex_dist(c, p) <= 0 {
                assert(vstd::math::abs(c.0 - p.0) == 0 && vstd::math::abs(c.1 - p.1) == 0);
                assert(p == c);
            }
        }
        assert(hex_ball(c, 0) =~= set![c]);
        assert(set![c].len() == 1) by {
            assert(set![c] =~= Set::empty().insert(c));
        }
    } else {
        lemma_ball_cardinality(c, radius - 1);
        lemma_ring_set(c, radius);
        let inner = hex_ball(c, radius - 1);
        let ring = ring_seq(c, radius as nat).to_set();
        assert(hex_ball(c, radius) =~= inner + ring);
        assert(inner.disjoint(ring)) by {
            assert forall|p: HexPosition| inner.contains(p) implies !ring.contains(p) by {
                assert(hex_dist(c, p) <= radius - 1);
            }
        }
        vstd::set_lib::lemma_set_disjoint_lens(inner, ring);
        assert(1 + 3 * (radius - 1) * radius + 6 * radius == 1 + 3 * radius * (radius + 1))
            by (nonlinear_arith);
    }
}

/// Total number of positions of a spiral of the given radius: the center
/// plus the rings of radius 1 up to `radius`.
pub open spec fn spiral_len(radius: nat) -> nat
    decreases radius,
{
    if radius == 0 {
        1
    } else {
        spiral_len((radius - 1) as nat) + 6 * radius
    }
}

/// The spiral of the given radius around `c`: the center first, then the
/// rings of radius 1 up to `radius` in increasing order.
pub open spec fn spiral_seq(c: HexPosition, radius: nat) -> Seq<HexPosition>
    decreases radius,
{
    if radius == 0 {
        seq![c]
    } else {
        spiral_seq(c, (radius - 1) as nat) + ring_seq(c, radius)
    }
}

/// A spiral of radius `r` has exactly `1 + 3 * r * (r + 1)` positions.
pub proof fn lemma_spiral_len(c: HexPosition, radius: nat)
    ensures
        spiral_seq(c, radius).len() == spiral_len(radius),
        spiral_len(radius) == 1 + 3 * radius * (radius + 1),
    decreases radius,
{
    if radius == 0 {
        assert(spiral_len(0) == 1);
        assert(spiral_seq(c, 0).len() == 1);
        assert(1 + 3 * radius * (radius + 1) == 1) by (nonlinear_arith)
            requires
                radius == 0,
        ;
    } else {
        let rm = (radius - 1) as nat;
        lemma_spiral_len(c, rm);
        assert(rm + 1 == radius);
        assert(3 * rm * (rm + 1) == 3 * (radius - 1) * radius) by (nonlinear_arith)
            requires
                rm == radius - 1 && radius >= 1,
        ;
        assert(spiral_len(radius) == spiral_len(rm) + 6 * radius);
        assert(3 * (radius - 1) * radius + 6 * radius == 3 * radius * (radius + 1))
            by (nonlinear_arith)
            requires
                radius >= 1,
        ;
    }
}

/// A spiral contains exactly the center and the members of the rings of
/// radius 1 up to its radius.
pub proof fn lemma_spiral_members(c: HexPosition, radius: nat, p: HexPosition)
    ensures
        spiral_seq(c, radius).contains(p) <==> (p == c || exists|i: nat|
            1 <= i <= radius && #[trigger] ring_seq(c, i).contains(p)),
    decreases radius,
{
    if radius == 0 {
        assert(spiral_seq(c, 0) == seq![c]);
        assert(spiral_seq(c, 0).contains(c)) by {
            assert(spiral_seq(c, 0)[0] == c);
        }
        if exists|i: nat| 1 <= i <= 0 && #[trigger] ring_seq(c, i).contains(p) {
            assert(false);
        }
        if spiral_seq(c, 0).contains(p) {
            assert(p == c);
        }
    } else {
        lemma_spiral_members(c, (radius - 1) as nat, p);
        let prev = spiral_seq(c, (radius - 1) as nat);
        let ring = ring_seq(c, radius);
        assert(spiral_seq(c, radius) == prev + ring);
        if spiral_seq(c, radius).contains(p) {
            let n = choose|n: int| 0 <= n < (prev + ring).len() && (prev + ring)[n] == p;
            if n < prev.len() {
                assert(prev[n] == p);
                assert(prev.contains(p));
            } else {
                assert(ring[n - prev.len()] == p);
                assert(ring.contains(p));
                assert(1 <= radius <= radius && ring_seq(c, radius).contains(p));
            }
        }
        if p == c || exists|i: nat| 1 <= i <= radius && #[trigger] ring_seq(c, i).contains(p) {
            if p == c || exists|i: nat| 1 <= i <= radius - 1 && #[trigger] ring_seq(c, i).contains(
                p,
            ) {
                assert(prev.contains(p));
                let n = choose|n: int| 0 <= n < prev.len() && prev[n] == p;
                assert((prev + ring)[n] == p);
                assert(spiral_seq(c, radius).contains(p));
            } else {
                let i = choose|i: nat|
                    1 <= i <= radius && #[trigger] ring_seq(c, i).contains(p);
                assert(i == radius);
                let n = choose|n: int| 0 <= n < ring.len() && ring[n] == p;
                assert((prev + ring)[prev.len() + n] == p);
                assert(spiral_seq(c, radius).contains(p));
            }
        }
    }
}

/// Within a spiral of radius at least `r`, the segment contributed by the
/// ring of radius `r` starts at index `spiral_len(r - 1)`.
pub proof fn lemma_spiral_index(c: HexPosition, radius: nat, r: nat, k: int)
    requires
        1 <= r <= radius,
        0 <= k < ring_len(r),
    ensures
        spiral_len((r - 1) as nat) + k < spiral_len(radius),
        spiral_seq(c, radius)[spiral_len((r - 1) as nat) + k] == ring_seq(c, r)[k],
    decreases radius,
{
    lemma_spiral_len(c, radius);
    lemma_spiral_len(c, (radius - 1) as nat);
    lemma_spiral_len(c, (r - 1) as nat);
    if r == radius {
        assert(spiral_seq(c, radius) == spiral_seq(c, (radius - 1) as nat) + ring_seq(c, radius));
    } else {
        lemma_spiral_index(c, (radius - 1) as nat, r, k);
        assert(spiral_seq(c, radius) == spiral_seq(c, (radius - 1) as nat) + ring_seq(c, radius));
        assert(3 * ((r - 1) as nat) * r + 6 * r <= 3 * ((radius - 1) as nat) * radius)
            by (nonlinear_arith)
            requires
                1 <= r <= radius - 1,
        ;
    }
}

/// The first element of a spiral is its center.
pub proof fn lemma_spiral_first(c: HexPosition, radius: nat)
    ensures
        spiral_seq(c, radius).len() >= 1,
        spiral_seq(c, radius)[0] == c,
    decreases radius,
{
    if radius == 0 {
    } else {
        lemma_spiral_first(c, (radius - 1) as nat);
    }
}

/// The line from `a` to `b`: `hex_dist(a, b) + 1` positions, obtained by
/// sampling the straight segment between the two axial points at evenly
/// spaced rational parameters and axially rounding each sample.  The
/// degenerate line from a position to itself is that position alone.
pub open spec fn line_seq(a: HexPosition, b: HexPosition) -> Seq<HexPosition> {
    let n = hex_dist(a, b);
    if n == 0 {
        seq![a]
    } else {
        Seq::new(
            (n + 1) as nat,
            |i: int|
                axial_round_spec(
                    lerp_num(a.0 as int, b.0 as int, i, n),
                    lerp_num(a.1 as int, b.1 as int, i, n),
                    n,
                ),
        )
    }
}

/// A line starts at its start position and ends at its end position.
pub proof fn lemma_line_endpoints(a: HexPosition, b: HexPosition)
    requires
        in_bounds(a),
        in_bounds(b),
    ensures
        line_seq(a, b).len() == hex_dist(a, b) + 1,
        line_seq(a, b)[0] == a,
        line_seq(a, b)[line_seq(a, b).len() - 1] == b,
{
    let n = hex_dist(a, b);
    if n == 0 {
        assert(vstd::math::abs(a.0 - b.0) == 0 && vstd::math::abs(a.1 - b.1) == 0);
        assert(a == b);
    } else {
        assert(lerp_num(a.0 as int, b.0 as int, 0, n) == a.0 * n);
        assert(lerp_num(a.1 as int, b.1 as int, 0, n) == a.1 * n);
        crate::utils::lemma_axial_round_exact(a.0 as int, a.1 as int, n);
        assert(lerp_num(a.0 as int, b.0 as int, n, n) == b.0 * n);
        assert(lerp_num(a.1 as int, b.1 as int, n, n) == b.1 * n);
        crate::utils::lemma_axial_round_exact(b.0 as int, b.1 as int, n);
    }
}

/// The position at index `i` along the line from `a` to `b`.
pub fn line_point(a: HexPosition, b: HexPosition, i: i64) -> (p: HexPosition)
    requires
        in_bounds(a),
        in_bounds(b),
        0 <= i < line_seq(a, b).len(),
    ensures
        p == line_seq(a, b)[i as int],
{
    let n = a.distance(b);
    if n == 0 {
        proof {
            assert(vstd::math::abs(a.0 - b.0) == 0 && vstd::math::abs(a.1 - b.1) == 0);
            assert(a == b);
        }
        a
    } else {
        let (qn, rn) = hexagonal_lerp(a, b, i, n);
        proof {
            let bb = COORD_BOUND as int;
            assert(vstd::math::abs(qn as int) <= (n as int) * bb && vstd::math::abs(rn as int) <= (
            n as int) * bb) by (nonlinear_arith)
                requires
                    n as int >= 1,
                    vstd::math::abs(a.0 as int) <= bb,
                    vstd::math::abs(b.0 as int) <= bb,
                    vstd::math::abs(a.1 as int) <= bb,
                    vstd::math::abs(b.1 as int) <= bb,
                    bb >= 0,
                    (a.0 as int) * (n as int) <= qn <= (b.0 as int) * (n as int) || (b.0 as int) * (
                    n as int) <= qn <= (a.0 as int) * (n as int),
                    (a.1 as int) * (n as int) <= rn <= (b.1 as int) * (n as int) || (b.1 as int) * (
                    n as int) <= rn <= (a.1 as int) * (n as int),
            ;
        }
        axial_round(qn, rn, n as i128)
    }
}

/// A cursor over the ring of a given radius around a center position.
pub struct HexRing {
    /// The center of the ring.
    center: HexPosition,
    /// The radius of the ring.
    radius: u64,
    /// The index of the next position to produce.
    index: u64,
}

impl HexRing {
    /// The cursor's parameters stay within the coordinate ball, and the
    /// cursor never runs past the end of the ring.
    pub closed spec fn wf(self) -> bool {
        &&& hex_norm(self.center.0 as int, self.center.1 as int) + self.radius <= COORD_BOUND as int
        &&& self.index <= ring_len(self.radius as nat)
    }

    /// The ring this cursor enumerates.
    pub closed spec fn seq(self) -> Seq<HexPosition> {
        ring_seq(self.center, self.radius as nat)
    }

    /// How many positions have already been produced.
    pub closed spec fn produced(self) -> int {
        self.index as int
    }

    /// How many positions are left to produce.
    pub fn remaining(&self) -> (r: u64)
        requires
            self.wf(),
        ensures
            r == self.seq().len() - self.produced(),
    {
        if self.radius == 0 {
            1 - self.index
        } else {
            6 * self.radius - self.index
        }
    }

    /// Produces the next position of the ring, or `None` once all
    /// `6 * radius` (1 when the radius is 0) positions have been produced.
    pub fn next(&mut self) -> (r: Option<HexPosition>)
        requires
            old(self).wf(),
        ensures
            final(self).wf(),
            final(self).seq() == old(self).seq(),
            old(self).produced() < old(self).seq().len() ==> r == Some(
                old(self).seq()[old(self).produced()],
            ) && final(self).produced() == old(self).produced() + 1,
            old(self).produced() >= old(self).seq().len() ==> r == None::<HexPosition>
                && final(self).produced() == old(self).produced(),
            r matches Some(p) ==> in_bounds(p),
    {
        if self.radius == 0 {
            if self.index >= 1 {
                return None;
            }
            self.index = 1;
            return Some(self.center);
        }
        let len64 = 6u64 * self.radius;
        if self.index >= len64 {
            return None;
        }
        let d = self.index / self.radius;
        let j = self.index % self.radius;
        proof {
            vstd::arithmetic::div_mod::lemma_fundamental_div_mod(
                self.index as int,
                self.radius as int,
            );
            vstd::arithmetic::div_mod::lemma_mod_bound(self.index as int, self.radius as int);
            assert((d as int) < 6) by (nonlinear_arith)
                requires
                    self.radius as int >= 1 && 0 <= (self.index as int) < 6 * (self.radius as int)
                        && self.index as int == (self.radius as int) * (d as int) + (j as int) && 0
                        <= (j as int) < self.radius as int,
            ;
            lemma_ring_distance(self.center, self.radius as int, self.index as int);
        }
        let c = self.center;
        let rad = self.radius as i64;
        let ji = j as i64;
        let p = if d == 0 {
            HexPosition(c.0 - rad + ji, c.1 + rad)
        } else if d == 1 {
            HexPosition(c.0 + ji, c.1 + rad - ji)
        } else if d == 2 {
            HexPosition(c.0 + rad, c.1 - ji)
        } else if d == 3 {
            HexPosition(c.0 + rad - ji, c.1 - rad)
        } else if d == 4 {
            HexPosition(c.0 - ji, c.1 - rad + ji)
        } else {
            HexPosition(c.0 - rad, c.1 + ji)
        };
        self.index = self.index + 1;
        Some(p)
    }
}

/// A cursor over the spiral of a given radius around a center position:
/// the center first, then the rings of radius 1 up to the radius.
pub struct HexSpiral {
    /// The origin of the spiral.
    center: HexPosition,
    /// The radius of the spiral.
    radius: u64,
    /// The radius of the ring currently being walked; 0 while the center
    /// itself has not been produced yet.
    ring: u64,
    /// The index of the next position within the current ring.
    k: u64,
}

impl HexSpiral {
    /// The cursor's parameters stay within the coordinate ball and the
    /// cursor state designates a position of the spiral (or its end).
    pub closed spec fn wf(self) -> bool {
        &&& hex_norm(self.center.0 as int, self.center.1 as int) + self.radius <= COORD_BOUND as int
        &&& self.ring <= self.radius + 1
        &&& self.ring == 0 ==> self.k == 0
        &&& 1 <= self.ring <= self.radius ==> self.k < ring_len(self.ring as nat)
        &&& self.ring == self.radius + 1 ==> self.k == 0
    }

    /// The spiral this cursor enumerates.
    pub closed spec fn seq(self) -> Seq<HexPosition> {
        spiral_seq(self.center, self.radius as nat)
    }

    /// How many positions have already been produced.
    pub closed spec fn produced(self) -> int {
        if self.ring == 0 {
            0
        } else {
            spiral_len((self.ring - 1) as nat) + self.k
        }
    }

    /// Produces the next position of the spiral, or `None` once all
    /// `1 + 3 * radius * (radius + 1)` positions have been produced.
    pub fn next(&mut self) -> (r: Option<HexPosition>)
        requires
            old(self).wf(),
        ensures
            final(self).wf(),
            final(self).seq() == old(self).seq(),
            old(self).produced() < old(self).seq().len() ==> r == Some(
                old(self).seq()[old(self).produced()],
            ) && final(self).produced() == old(self).produced() + 1,
            old(self).produced() >= old(self).seq().len() ==> r == None::<HexPosition>
                && final(self).produced() == old(self).produced(),
    {
        proof {
            lemma_spiral_len(self.center, self.radius as nat);
        }
        if self.ring == 0 {
            proof {
                lemma_spiral_first(self.center, self.radius as nat);
            }
            self.ring = 1;
            self.k = 0;
            proof {
                if self.radius == 0 {
                    assert(self.produced() == spiral_len(0));
                }
            }
            return Some(self.center);
        }
        if self.ring > self.radius {
            proof {
                lemma_spiral_len(self.center, (self.ring - 1) as nat);
            }
            return None;
        }
        proof {
            lemma_spiral_index(
                self.center,
                self.radius as nat,
                self.ring as nat,
                self.k as int,
            );
            lemma_spiral_len(self.center, (self.ring - 1) as nat);
        }
        let mut cursor = HexRing { center: self.center, radius: self.ring, index: self.k };
        let r = cursor.next();
        let p = r.unwrap();
        if self.k + 1 < 6u64 * self.ring {
            self.k = self.k + 1;
        } else {
            self.ring = self.ring + 1;
            self.k = 0;
        }
        Some(p)
    }
}

/// A cursor over the line between two positions.
pub struct HexLine {
    /// The starting position of the line.
    start: HexPosition,
    /// The ending position of the line.
    end: HexPosition,
    /// The index of the next position to produce.
    index: i64,
}

impl HexLine {
    /// Both endpoints stay within the coordinate ball and the cursor never
    /// runs past the end of the line.
    pub closed spec fn wf(self) -> bool {
        &&& in_bounds(self.start)
        &&& in_bounds(self.end)
        &&& 0 <= self.index <= line_seq(self.start, self.end).len()
    }

    /// The line this cursor enumerates.
    pub closed spec fn seq(self) -> Seq<HexPosition> {
        line_seq(self.start, self.end)
    }

    /// How many positions have already been produced.
    pub closed spec fn produced(self) -> int {
        self.index as int
    }

    /// Produces the next position of the line, or `None` once all
    /// `hex_dist(start, end) + 1` positions have been produced.
    pub fn next(&mut self) -> (r: Option<HexPosition>)
        requires
            old(self).wf(),
        ensures
            final(self).wf(),
            final(self).seq() == old(self).seq(),
            old(self).produced() < old(self).seq().len() ==> r == Some(
                old(self).seq()[old(self).produced()],
            ) && final(self).produced() == old(self).produced() + 1,
            old(self).produced() >= old(self).seq().len() ==> r == None::<HexPosition>
                && final(self).produced() == old(self).produced(),
    {
        let n = self.start.distance(self.end);
        if self.index > n {
            return None;
        }
        let p = line_point(self.start, self.end, self.index);
        self.index = self.index + 1;
        Some(p)
    }
}

impl HexPosition {
    /// The ring of the given radius around this position, walked from the
    /// corner `radius` steps down-left of it, `radius` steps in each of the
    /// six directions in fixed rotational order.
    pub fn ring(self, radius: usize) -> (r: HexRing)
        requires
            hex_norm(self.0 as int, self.1 as int) + radius <= COORD_BOUND as int,
        ensures
            r.wf(),
            r.seq() == ring_seq(self, radius as nat),
            r.produced() == 0,
    {
        HexRing { center: self, radius: radius as u64, index: 0 }
    }

    /// The spiral of the given radius around this position: the position
    /// itself, then the rings of radius 1 up to `radius`.
    pub fn spiral(self, radius: usize) -> (r: HexSpiral)
        requires
            hex_norm(self.0 as int, self.1 as int) + radius <= COORD_BOUND as int,
        ensures
            r.wf(),
            r.seq() == spiral_seq(self, radius as nat),
            r.produced() == 0,
    {
        HexSpiral { center: self, radius: radius as u64, ring: 0, k: 0 }
    }

    /// The line from this position to `other`: `distance + 1` positions
    /// sampled evenly along the straight segment between the two points and
    /// axially rounded; the first is this position and the last is `other`.
    pub fn line_to(self, other: Self) -> (r: HexLine)
        requires
            in_bounds(self),
            in_bounds(other),
        ensures
            r.wf(),
            r.seq() == line_seq(self, other),
            r.produced() == 0,
    {
        HexLine { start: self, end: other, index: 0 }
    }
}

} // verus!
