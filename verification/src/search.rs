//! Spatial queries over boolean layers: unblocked neighbors, field of
//! view, and bounded movement fields.
//!
//! A boolean layer records blocked positions: a cell whose value is `true`
//! is impassable, and a position absent from the layer is treated as
//! blocked as well (the closed-world assumption: unknown is impassable).

use vstd::prelude::*;

use crate::iterators::line_point;
use crate::iterators::line_seq;
use crate::pqueue::frontier_model;
use crate::layout::vec_contains;
use crate::layout::HexLayout;
use crate::position::direction_vector;
use crate::position::hex_dist;
use crate::position::in_bounds;
use crate::position::pos_add;
use crate::position::HexPosition;
use crate::utils::neighbors;

verus! {

/// The six geometric neighbor positions of `p`, in the fixed rotational
/// order.
pub open spec fn neighbor_seq(p: HexPosition) -> Seq<HexPosition> {
    Seq::new(6, |d: int| pos_add(p, direction_vector(d)))
}

/// Whether `n` is one of the six geometric neighbors of `p`.
pub open spec fn adjacent(p: HexPosition, n: HexPosition) -> bool {
    exists|d: int| 0 <= d < 6 && n == pos_add(p, #[trigger] direction_vector(d))
}

/// Whether a position is passable on a boolean layer: a member whose value
/// is `false`.
pub open spec fn passable(m: Map<HexPosition, bool>, n: HexPosition) -> bool {
    m.dom().contains(n) && m[n] == false
}

/// The passable neighbors of `p`, in the fixed direction order.
pub open spec fn open_neighbors(m: Map<HexPosition, bool>, p: HexPosition) -> Seq<HexPosition> {
    neighbor_seq(p).filter(|n: HexPosition| passable(m, n))
}

/// The positions passable on the layer and adjacent to some position of
/// `s`.
pub open spec fn open_step(m: Map<HexPosition, bool>, s: Set<HexPosition>) -> Set<HexPosition> {
    Set::new(
        |n: HexPosition|
            passable(m, n) && exists|p: HexPosition| #[trigger] s.contains(p) && adjacent(p, n),
    )
}

/// The positions reachable from `start` in at most `k` unblocked hops.
/// The start itself is always reached, whatever its own state.
pub open spec fn reach_set(m: Map<HexPosition, bool>, start: HexPosition, k: nat) -> Set<
    HexPosition,
>
    decreases k,
{
    if k == 0 {
        set![start]
    } else {
        reach_set(m, start, (k - 1) as nat) + open_step(m, reach_set(m, start, (k - 1) as nat))
    }
}

/// A step from a smaller set reaches no more positions.
proof fn lemma_step_monotone(m: Map<HexPosition, bool>, s1: Set<HexPosition>, s2: Set<HexPosition>)
    requires
        s1.subset_of(s2),
    ensures
        open_step(m, s1).subset_of(open_step(m, s2)),
{
    assert forall|n: HexPosition| open_step(m, s1).contains(n) implies open_step(m, s2).contains(
        n,
    ) by {
        let p = choose|p: HexPosition| #[trigger] s1.contains(p) && adjacent(p, n);
        assert(s2.contains(p) && adjacent(p, n));
    }
}

/// A step distributes over a union of sets.
proof fn lemma_step_union(m: Map<HexPosition, bool>, s1: Set<HexPosition>, s2: Set<HexPosition>)
    ensures
        open_step(m, s1 + s2) =~= open_step(m, s1) + open_step(m, s2),
{
    assert forall|n: HexPosition|
        open_step(m, s1 + s2).contains(n) == (open_step(m, s1) + open_step(m, s2)).contains(
            n,
        ) by {
        if open_step(m, s1 + s2).contains(n) {
            let p = choose|p: HexPosition| #[trigger] (s1 + s2).contains(p) && adjacent(p, n);
            if s1.contains(p) {
                assert(open_step(m, s1).contains(n));
            } else {
                assert(s2.contains(p));
                assert(open_step(m, s2).contains(n));
            }
        }
        if open_step(m, s1).contains(n) {
            let p = choose|p: HexPosition| #[trigger] s1.contains(p) && adjacent(p, n);
            assert((s1 + s2).contains(p) && adjacent(p, n));
            assert(open_step(m, s1 + s2).contains(n));
        }
        if open_step(m, s2).contains(n) {
            let p = choose|p: HexPosition| #[trigger] s2.contains(p) && adjacent(p, n);
            assert((s1 + s2).contains(p) && adjacent(p, n));
            assert(open_step(m, s1 + s2).contains(n));
        }
    }
}

/// Expanding only the newest fringe suffices: positions first reached at
/// hop `k` are adjacent to positions first reached at hop `k - 1`.
proof fn lemma_bfs_fringe(m: Map<HexPosition, bool>, start: HexPosition, k: nat)
    requires
        k >= 1,
    ensures
        reach_set(m, start, k) =~= reach_set(m, start, (k - 1) as nat) + open_step(
            m,
            reach_set(m, start, (k - 1) as nat).difference(
                if k == 1 {
                    Set::<HexPosition>::empty()
                } else {
                    reach_set(m, start, (k - 2) as nat)
                },
            ),
        ),
{
    let prev = reach_set(m, start, (k - 1) as nat);
    let older = if k == 1 {
        Set::<HexPosition>::empty()
    } else {
        reach_set(m, start, (k - 2) as nat)
    };
    let fringe = prev.difference(older);
    assert(fringe.subset_of(prev));
    lemma_step_monotone(m, fringe, prev);
    assert forall|n: HexPosition|
        reach_set(m, start, k).contains(n) == (prev + open_step(m, fringe)).contains(n) by {
        if reach_set(m, start, k).contains(n) && !prev.contains(n) {
            assert(open_step(m, prev).contains(n));
            let p = choose|p: HexPosition| #[trigger] prev.contains(p) && adjacent(p, n);
            if older.contains(p) {
                assert(k >= 2);
                assert(open_step(m, older).contains(n));
                assert(reach_set(m, start, (k - 1) as nat) == reach_set(m, start, (k - 2) as nat)
                    + open_step(m, reach_set(m, start, (k - 2) as nat)));
                assert(prev.contains(n));
                assert(false);
            } else {
                assert(fringe.contains(p) && adjacent(p, n));
                assert(open_step(m, fringe).contains(n));
            }
        }
    }
}

/// A set closed under expansion: it contains every passable neighbor of
/// each of its members.
#[verifier::opaque]
pub open spec fn expansion_closed(m: Map<HexPosition, bool>, seen: Set<HexPosition>) -> bool {
    forall|p: HexPosition, n: HexPosition|
        #[trigger] seen.contains(p) && adjacent(p, n) && #[trigger] passable(m, n)
            ==> seen.contains(n)
}

/// Whatever is reachable from a member of an expansion-closed set stays
/// inside the set.
proof fn lemma_reach_in_closed(
    m: Map<HexPosition, bool>,
    from: HexPosition,
    seen: Set<HexPosition>,
    k: nat,
)
    requires
        seen.contains(from),
        expansion_closed(m, seen),
    ensures
        reach_set(m, from, k).subset_of(seen),
    decreases k,
{
    reveal(expansion_closed);
    if k == 0 {
        assert forall|p: HexPosition| reach_set(m, from, 0).contains(p) implies seen.contains(
            p,
        ) by {
            assert(p == from);
        }
    } else {
        lemma_reach_in_closed(m, from, seen, (k - 1) as nat);
        assert forall|n: HexPosition| reach_set(m, from, k).contains(n) implies seen.contains(
            n,
        ) by {
            if !reach_set(m, from, (k - 1) as nat).contains(n) {
                let p = choose|p: HexPosition|
                    #[trigger] reach_set(m, from, (k - 1) as nat).contains(p) && adjacent(p, n);
                assert(seen.contains(p) && passable(m, n));
            }
        }
    }
}

/// Two positions at hex distance one differ by one of the six unit
/// direction vectors.
proof fn lemma_adjacent_of_dist(p: HexPosition, n: HexPosition)
    requires
        hex_dist(p, n) == 1,
        in_bounds(p),
    ensures
        adjacent(p, n),
{
    let dq = n.0 - p.0;
    let dr = n.1 - p.1;
    if dq == 1 && dr == 0 {
        assert(n == pos_add(p, direction_vector(0)));
    } else if dq == 1 && dr == -1 {
        assert(n == pos_add(p, direction_vector(1)));
    } else if dq == 0 && dr == -1 {
        assert(n == pos_add(p, direction_vector(2)));
    } else if dq == -1 && dr == 0 {
        assert(n == pos_add(p, direction_vector(3)));
    } else if dq == -1 && dr == 1 {
        assert(n == pos_add(p, direction_vector(4)));
    } else {
        assert(dq == 0 && dr == 1);
        assert(n == pos_add(p, direction_vector(5)));
    }
}

/// A walk stepping by hex distance one cannot outrun the metric: after
/// `i` steps it is at most `i` away from its start.
proof fn lemma_walk_within_distance(path: Seq<HexPosition>, i: int)
    requires
        0 <= i < path.len(),
        forall|t: int| 0 <= t < path.len() - 1 ==> hex_dist(path[t], #[trigger] path[t + 1]) == 1,
    ensures
        hex_dist(path[0], path[i]) <= i,
    decreases i,
{
    if i > 0 {
        lemma_walk_within_distance(path, i - 1);
        assert(path[i - 1 + 1] == path[i]);
        assert(hex_dist(path[i - 1], path[i]) == 1);
    }
}

/// A walk that starts at `from`, steps by hex distance one, and stays on
/// passable members after its first position witnesses that its end is
/// reachable within one hop per step.
proof fn lemma_path_reaches(
    m: Map<HexPosition, bool>,
    from: HexPosition,
    path: Seq<HexPosition>,
    i: int,
)
    requires
        0 <= i < path.len(),
        path[0] == from,
        forall|t: int| 0 <= t < path.len() ==> m.dom().contains(#[trigger] path[t]),
        forall|t: int| 0 <= t < path.len() - 1 ==> hex_dist(path[t], #[trigger] path[t + 1]) == 1,
        forall|t: int| 1 <= t < path.len() ==> m[#[trigger] path[t]] == false,
        forall|q: HexPosition| m.dom().contains(q) ==> in_bounds(q),
    ensures
        reach_set(m, from, i as nat).contains(path[i]),
    decreases i,
{
    if i == 0 {
    } else {
        lemma_path_reaches(m, from, path, i - 1);
        assert(path[i - 1 + 1] == path[i]);
        assert(hex_dist(path[i - 1], path[i]) == 1);
        assert(m.dom().contains(path[i - 1]));
        lemma_adjacent_of_dist(path[i - 1], path[i]);
        assert(passable(m, path[i]));
        assert(reach_set(m, from, (i - 1) as nat).contains(path[i - 1]) && adjacent(
            path[i - 1],
            path[i],
        ));
        assert(open_step(m, reach_set(m, from, (i - 1) as nat)).contains(path[i]));
    }
}

/// Whether a distance lies within an optional range limit.
pub open spec fn within_range(range: Option<usize>, d: int) -> bool {
    match range {
        Option::None => true,
        Option::Some(r) => d <= r,
    }
}

/// Whether `p` is visible from `center` on the layer: every position
/// other than `p` itself on the interpolated line from `center` to `p` is
/// a passable member of the layer.  The target's own blocked state is
/// irrelevant: a blocked cell is itself visible and hides only what lies
/// behind it, and the degenerate line from the center to itself trivially
/// passes.
pub open spec fn sees(m: Map<HexPosition, bool>, center: HexPosition, p: HexPosition) -> bool {
    forall|i: int|
        0 <= i < line_seq(center, p).len() ==> (#[trigger] line_seq(center, p)[i] == p || passable(
            m,
            line_seq(center, p)[i],
        ))
}

/// Whether `p` is visible from `center` under an optional range limit.
pub open spec fn visible(
    m: Map<HexPosition, bool>,
    center: HexPosition,
    range: Option<usize>,
    p: HexPosition,
) -> bool {
    within_range(range, hex_dist(center, p)) && sees(m, center, p)
}

impl HexLayout<bool> {
    /// The neighbors of `pos` that are passable: present in the layer and
    /// not blocked, in the fixed direction order.  Absent positions are
    /// treated as blocked.
    pub fn neighbors_unblocked(&self, pos: HexPosition) -> (r: Vec<HexPosition>)
        requires
            self.wf(),
            in_bounds(pos),
        ensures
            r@ == open_neighbors(self@, pos),
            forall|i: int|
                0 <= i < r@.len() ==> passable(self@, #[trigger] r@[i]) && adjacent(pos, r@[i])
                    && hex_dist(pos, r@[i]) == 1 && in_bounds(r@[i]),
            forall|n: HexPosition| adjacent(pos, n) && passable(self@, n) ==> r@.contains(n),
    {
        proof {
            self.lemma_wf_dom();
        }
        let nbrs = neighbors(pos);
        let mut r: Vec<HexPosition> = Vec::new();
        let ghost pred = |n: HexPosition| passable(self@, n);
        proof {
            assert(neighbor_seq(pos) =~= nbrs@);
            assert(neighbor_seq(pos).take(0).filter(pred) =~= Seq::<HexPosition>::empty());
        }
        for i in 0..6usize
            invariant
                self.wf(),
                in_bounds(pos),
                nbrs@.len() == 6,
                forall|j: int| 0 <= j < 6 ==> #[trigger] nbrs@[j] == pos_add(
                    pos,
                    direction_vector(j),
                ),
                forall|j: int| 0 <= j < 6 ==> hex_dist(pos, #[trigger] nbrs@[j]) == 1,
                neighbor_seq(pos) =~= nbrs@,
                pred == (|n: HexPosition| passable(self@, n)),
                r@ == neighbor_seq(pos).take(i as int).filter(pred),
                forall|j: int|
                    0 <= j < r@.len() ==> passable(self@, #[trigger] r@[j]) && adjacent(
                        pos,
                        r@[j],
                    ) && hex_dist(pos, r@[j]) == 1 && in_bounds(r@[j]),
                forall|q: HexPosition| self@.dom().contains(q) ==> in_bounds(q),
        {
            let nb = nbrs[i];
            let ghost taken = neighbor_seq(pos).take(i as int);
            let ghost taken1 = neighbor_seq(pos).take(i + 1);
            proof {
                reveal(Seq::filter);
                assert(taken1.drop_last() =~= taken);
                assert(taken1.last() == neighbor_seq(pos)[i as int]);
                assert(taken1.filter(pred) == (if pred(nb) {
                    taken.filter(pred).push(nb)
                } else {
                    taken.filter(pred)
                }));
            }
            let keep = match self.get(nb) {
                Some(b) => !*b,
                None => false,
            };
            if keep {
                proof {
                    assert(pred(nb));
                    assert(adjacent(pos, nb)) by {
                        assert(nb == pos_add(pos, direction_vector(i as int)));
                    }
                }
                r.push(nb);
            } else {
                proof {
                    assert(!pred(nb));
                }
            }
        }
        proof {
            assert(neighbor_seq(pos).take(6) =~= neighbor_seq(pos));
            assert forall|n: HexPosition|
                adjacent(pos, n) && passable(self@, n) implies r@.contains(n) by {
                let d = choose|d: int| 0 <= d < 6 && n == pos_add(pos, #[trigger] direction_vector(d));
                assert(neighbor_seq(pos)[d] == n);
                Seq::lemma_filter_contains(neighbor_seq(pos), pred, d);
                assert(neighbor_seq(pos).filter(pred).contains(neighbor_seq(pos)[d]));
            }
        }
        r
    }

    /// The positions of the layer visible from `center`: those within the
    /// optional range limit whose interpolated line from `center` consists
    /// of passable members of the layer at every position other than the
    /// target itself.  A blocked member is thus visible and hides only
    /// what lies straight behind it.
    pub fn field_of_view(&self, center: HexPosition, range: Option<usize>) -> (r: Vec<HexPosition>)
        requires
            self.wf(),
            in_bounds(center),
        ensures
            r@.no_duplicates(),
            forall|p: HexPosition|
                r@.contains(p) <==> self@.dom().contains(p) && visible(self@, center, range, p),
    {
        proof {
            self.lemma_wf_dom();
        }
        let keys = self.positions();
        let n = keys.len();
        let mut r: Vec<HexPosition> = Vec::new();
        for idx in 0..n
            invariant
                n == keys@.len(),
                self.wf(),
                in_bounds(center),
                keys@.no_duplicates(),
                keys@.to_set() =~= self@.dom(),
                forall|q: HexPosition| self@.dom().contains(q) ==> in_bounds(q),
                r@.no_duplicates(),
                r@.to_set() =~= Set::new(
                    |p: HexPosition|
                        keys@.take(idx as int).to_set().contains(p) && visible(
                            self@,
                            center,
                            range,
                            p,
                        ),
                ),
        {
            let p = keys[idx];
            proof {
                crate::layout::lemma_take_succ(keys@, idx as int);
                crate::layout::lemma_prefix_fresh(keys@, idx as int);
                Seq::lemma_push_to_set_commute(keys@.take(idx as int), p);
            }
            let mut vis = true;
            match range {
                Some(rad) => {
                    let d = center.distance(p);
                    if (d as u64) > (rad as u64) {
                        vis = false;
                    }
                },
                None => {},
            }
            let ghost range_ok = vis;
            proof {
                assert(range_ok == within_range(range, hex_dist(center, p)));
            }
            if vis {
                let d = center.distance(p);
                let mut i: i64 = 0;
                while vis && i < d
                    invariant
                        self.wf(),
                        in_bounds(center),
                        in_bounds(p),
                        d == hex_dist(center, p),
                        line_seq(center, p).len() == d + 1,
                        0 <= i <= d,
                        vis ==> forall|j: int|
                            0 <= j < i ==> (#[trigger] line_seq(center, p)[j] == p || passable(
                                self@,
                                line_seq(center, p)[j],
                            )),
                        !vis ==> !sees(self@, center, p),
                    decreases d - i,
                {
                    let lp = line_point(center, p, i);
                    let ok = if lp == p {
                        true
                    } else {
                        match self.get(lp) {
                            Some(b) => !*b,
                            None => false,
                        }
                    };
                    if !ok {
                        proof {
                            assert(line_seq(center, p)[i as int] != p && !passable(
                                self@,
                                line_seq(center, p)[i as int],
                            ));
                        }
                        vis = false;
                    }
                    i = i + 1;
                }
                proof {
                    crate::iterators::lemma_line_endpoints(center, p);
                    if vis {
                        assert(line_seq(center, p)[d as int] == p);
                        assert(sees(self@, center, p));
                    }
                }
            }
            proof {
                assert(vis == visible(self@, center, range, p));
            }
            if vis {
                proof {
                    if r@.contains(p) {
                        assert(r@.to_set().contains(p));
                        assert(keys@.take(idx as int).to_set().contains(p));
                        assert(false);
                    }
                    crate::layout::lemma_push_fresh(r@, p);
                }
                r.push(p);
            }
            proof {
                assert(r@.to_set() =~= Set::new(
                    |p2: HexPosition|
                        keys@.take(idx + 1).to_set().contains(p2) && visible(
                            self@,
                            center,
                            range,
                            p2,
                        ),
                ));
            }
        }
        proof {
            assert(keys@.take(n as int) =~= keys@);
            assert forall|p: HexPosition|
                r@.contains(p) <==> self@.dom().contains(p) && visible(
                    self@,
                    center,
                    range,
                    p,
                ) by {
                assert(r@.contains(p) == r@.to_set().contains(p));
            }
        }
        r
    }

    /// The positions reachable from `pos` within `range` unblocked hops,
    /// including `pos` itself: breadth-first expansion where an edge leads
    /// to any passable neighbor, and absent positions are blocked.
    pub fn field_of_move(&self, pos: HexPosition, range: usize) -> (r: Vec<HexPosition>)
        requires
            self.wf(),
            in_bounds(pos),
        ensures
            r@.no_duplicates(),
            r@.to_set() =~= reach_set(self@, pos, range as nat),
            forall|p: HexPosition| r@.contains(p) <==> reach_set(self@, pos, range as nat).contains(p),
    {
        proof {
            self.lemma_wf_dom();
        }
        let mut visited: Vec<HexPosition> = Vec::new();
        visited.push(pos);
        let mut fringe: Vec<HexPosition> = Vec::new();
        fringe.push(pos);
        proof {
            assert(visited@ =~= seq![pos]);
            assert(visited@[0] == pos);
            assert forall|q: HexPosition|
                visited@.to_set().contains(q) == set![pos].contains(q) by {
                if visited@.to_set().contains(q) {
                    let j = choose|j: int| 0 <= j < visited@.len() && visited@[j] == q;
                }
                if q == pos {
                    assert(visited@.contains(pos));
                }
            }
            assert(visited@.to_set() =~= set![pos]);
            assert(visited@.to_set() =~= reach_set(self@, pos, 0));
            assert(fringe@ =~= visited@);
            assert(fringe@.to_set() =~= reach_set(self@, pos, 0).difference(
                Set::<HexPosition>::empty(),
            ));
        }
        for kk in 0..range
            invariant
                self.wf(),
                in_bounds(pos),
                forall|q: HexPosition| self@.dom().contains(q) ==> in_bounds(q),
                visited@.no_duplicates(),
                visited@.to_set() =~= reach_set(self@, pos, kk as nat),
                fringe@.no_duplicates(),
                fringe@.to_set() =~= reach_set(self@, pos, kk as nat).difference(
                    if kk == 0 {
                        Set::<HexPosition>::empty()
                    } else {
                        reach_set(self@, pos, (kk - 1) as nat)
                    },
                ),
                forall|j: int| 0 <= j < fringe@.len() ==> in_bounds(#[trigger] fringe@[j]),
        {
            let ghost prev = reach_set(self@, pos, kk as nat);
            let ghost fringe_set = fringe@.to_set();
            let mut newf: Vec<HexPosition> = Vec::new();
            let fl = fringe.len();
            for f in 0..fl
                invariant
                    self.wf(),
                    in_bounds(pos),
                    fl == fringe@.len(),
                    forall|q: HexPosition| self@.dom().contains(q) ==> in_bounds(q),
                    prev == reach_set(self@, pos, kk as nat),
                    fringe_set == fringe@.to_set(),
                    forall|j: int| 0 <= j < fringe@.len() ==> in_bounds(#[trigger] fringe@[j]),
                    visited@.no_duplicates(),
                    visited@.to_set() =~= prev + open_step(
                        self@,
                        fringe@.take(f as int).to_set(),
                    ),
                    newf@.no_duplicates(),
                    newf@.to_set() =~= visited@.to_set().difference(prev),
                    forall|j: int| 0 <= j < newf@.len() ==> in_bounds(#[trigger] newf@[j]),
            {
                let p = fringe[f];
                let nbs = self.neighbors_unblocked(p);
                let ghost before = visited@.to_set();
                let nl = nbs.len();
                proof {
                    crate::layout::lemma_take_succ(fringe@, f as int);
                    Seq::lemma_push_to_set_commute(fringe@.take(f as int), p);
                    lemma_step_union(
                        self@,
                        fringe@.take(f as int).to_set(),
                        set![p],
                    );
                    assert(fringe@.take(f as int).to_set().insert(p) =~= fringe@.take(
                        f as int,
                    ).to_set() + set![p]);
                    assert(nbs@.take(0).to_set() =~= Set::<HexPosition>::empty());
                }
                for g in 0..nl
                    invariant
                        self.wf(),
                        nl == nbs@.len(),
                        forall|q: HexPosition| self@.dom().contains(q) ==> in_bounds(q),
                        prev == reach_set(self@, pos, kk as nat),
                        forall|j: int|
                            0 <= j < nbs@.len() ==> passable(self@, #[trigger] nbs@[j])
                                && in_bounds(nbs@[j]),
                        visited@.no_duplicates(),
                        visited@.to_set() =~= prev + open_step(
                            self@,
                            fringe@.take(f as int).to_set(),
                        ) + nbs@.take(g as int).to_set(),
                        newf@.no_duplicates(),
                        newf@.to_set() =~= visited@.to_set().difference(prev),
                        forall|j: int| 0 <= j < newf@.len() ==> in_bounds(#[trigger] newf@[j]),
                {
                    let nb = nbs[g];
                    proof {
                        crate::layout::lemma_take_succ(nbs@, g as int);
                        Seq::lemma_push_to_set_commute(nbs@.take(g as int), nb);
                    }
                    if !vec_contains(&visited, nb) {
                        proof {
                            if newf@.contains(nb) {
                                assert(newf@.to_set().contains(nb));
                                assert(visited@.to_set().contains(nb));
                                assert(visited@.contains(nb));
                                assert(false);
                            }
                            if prev.contains(nb) {
                                assert(visited@.to_set().contains(nb));
                                assert(visited@.contains(nb));
                                assert(false);
                            }
                            crate::layout::lemma_push_fresh(visited@, nb);
                            crate::layout::lemma_push_fresh(newf@, nb);
                        }
                        visited.push(nb);
                        newf.push(nb);
                    }
                    proof {
                        assert(visited@.to_set() =~= prev + open_step(
                            self@,
                            fringe@.take(f as int).to_set(),
                        ) + nbs@.take(g + 1).to_set());
                        assert(newf@.to_set() =~= visited@.to_set().difference(prev));
                    }
                }
                proof {
                    assert(nbs@.take(nl as int) =~= nbs@);
                    assert(nbs@.to_set() =~= open_step(self@, set![p])) by {
                        assert forall|q: HexPosition|
                            nbs@.to_set().contains(q) == open_step(self@, set![p]).contains(
                                q,
                            ) by {
                            if nbs@.contains(q) {
                                let j = choose|j: int| 0 <= j < nbs@.len() && nbs@[j] == q;
                                assert(passable(self@, q) && adjacent(p, q));
                                assert(set![p].contains(p) && adjacent(p, q));
                                assert(open_step(self@, set![p]).contains(q));
                            }
                            if open_step(self@, set![p]).contains(q) {
                                let w = choose|w: HexPosition| #[trigger] set![p].contains(w)
                                    && adjacent(w, q);
                                assert(w == p);
                                assert(nbs@.contains(q));
                            }
                        }
                    }
                    assert(visited@.to_set() =~= prev + open_step(
                        self@,
                        fringe@.take(f + 1).to_set(),
                    ));
                }
            }
            proof {
                assert(fringe@.take(fl as int) =~= fringe@);
                lemma_bfs_fringe(self@, pos, (kk + 1) as nat);
                assert(visited@.to_set() =~= reach_set(self@, pos, (kk + 1) as nat));
                assert(newf@.to_set() =~= reach_set(self@, pos, (kk + 1) as nat).difference(
                    reach_set(self@, pos, kk as nat),
                ));
            }
            fringe = newf;
        }
        proof {
            assert(visited@.to_set() =~= reach_set(self@, pos, range as nat));
            assert forall|p: HexPosition|
                visited@.contains(p) == reach_set(self@, pos, range as nat).contains(p) by {
                assert(visited@.contains(p) == visited@.to_set().contains(p));
            }
        }
        visited
    }
}

} // verus!

verus! {

/// A recorded search predecessor is consistent: the predecessor is known,
/// costs step by one, the position is a passable member, and the two
/// positions are adjacent.
pub open spec fn parent_ok(
    m: Map<HexPosition, bool>,
    came: Map<HexPosition, Option<HexPosition>>,
    cost: Map<HexPosition, u64>,
    p: HexPosition,
) -> bool {
    match came[p] {
        Option::Some(prev) => {
            &&& came.dom().contains(prev)
            &&& cost.dom().contains(prev)
            &&& cost.dom().contains(p)
            &&& hex_dist(prev, p) == 1
            &&& cost[p] == cost[prev] + 1
            &&& m.dom().contains(p)
            &&& m[p] == false
        },
        Option::None => false,
    }
}

/// The bookkeeping invariant of the path search: predecessor and cost
/// records cover the same positions, all of them members of the layer; the
/// start has no predecessor and cost zero; every other recorded position
/// has a consistent predecessor; and costs stay below the number of
/// records.
pub open spec fn search_inv(
    m: Map<HexPosition, bool>,
    from: HexPosition,
    came: Map<HexPosition, Option<HexPosition>>,
    cost: Map<HexPosition, u64>,
) -> bool {
    &&& came.dom() =~= cost.dom()
    &&& came.dom().subset_of(m.dom())
    &&& came.dom().finite()
    &&& came.dom().contains(from)
    &&& came[from] == None::<HexPosition>
    &&& cost[from] == 0
    &&& forall|p: HexPosition|
        #[trigger] came.dom().contains(p) && p != from ==> parent_ok(m, came, cost, p)
    &&& forall|p: HexPosition| #[trigger] cost.dom().contains(p) ==> cost[p] < came.dom().len()
}

/// Every queued frontier item records a position the search has seen.
pub open spec fn frontier_ok(
    fm: Map<crate::pqueue::FrontierItem, i128>,
    came: Map<HexPosition, Option<HexPosition>>,
) -> bool {
    &&& fm.dom().finite()
    &&& forall|it: crate::pqueue::FrontierItem|
        #[trigger] fm.dom().contains(it) ==> came.dom().contains(HexPosition(it.0, it.1))
}

/// A seen position still awaits expansion on the frontier, or all of its
/// passable neighbors have been seen already.
#[verifier::opaque]
pub open spec fn covered_or_settled(
    m: Map<HexPosition, bool>,
    came: Map<HexPosition, Option<HexPosition>>,
    fm: Map<crate::pqueue::FrontierItem, i128>,
    p: HexPosition,
) -> bool {
    fm.dom().contains((p.0, p.1)) || (forall|n: HexPosition|
        adjacent(p, n) && #[trigger] passable(m, n) ==> came.dom().contains(n))
}

/// Growing the frontier and the seen set preserves coverage.
proof fn lemma_covered_monotone(
    m: Map<HexPosition, bool>,
    came1: Map<HexPosition, Option<HexPosition>>,
    fm1: Map<crate::pqueue::FrontierItem, i128>,
    came2: Map<HexPosition, Option<HexPosition>>,
    fm2: Map<crate::pqueue::FrontierItem, i128>,
    p: HexPosition,
)
    requires
        covered_or_settled(m, came1, fm1, p),
        forall|it: crate::pqueue::FrontierItem|
            #[trigger] fm1.dom().contains(it) ==> fm2.dom().contains(it),
        forall|q: HexPosition| #[trigger] came1.dom().contains(q) ==> came2.dom().contains(q),
    ensures
        covered_or_settled(m, came2, fm2, p),
{
    reveal(covered_or_settled);
}

/// Removing another position's frontier item preserves coverage.
proof fn lemma_covered_after_remove(
    m: Map<HexPosition, bool>,
    came: Map<HexPosition, Option<HexPosition>>,
    fm: Map<crate::pqueue::FrontierItem, i128>,
    item: crate::pqueue::FrontierItem,
    p: HexPosition,
)
    requires
        covered_or_settled(m, came, fm, p),
        (p.0, p.1) != item,
    ensures
        covered_or_settled(m, came, fm.remove(item), p),
{
    reveal(covered_or_settled);
}


/// Along a predecessor chain, costs grow by one per step toward the
/// front, so every chain position is distinct.
proof fn lemma_chain_cost(cost: Map<HexPosition, u64>, back: Seq<HexPosition>, i: int, j: int)
    requires
        forall|t: int|
            0 <= t < back.len() - 1 ==> cost.dom().contains(#[trigger] back[t])
                && cost.dom().contains(back[t + 1]) && cost[back[t]] == cost[back[t + 1]] + 1,
        0 <= i <= j < back.len() - 1,
    ensures
        cost[back[i]] == cost[back[j]] + (j - i),
    decreases j - i,
{
    if i < j {
        lemma_chain_cost(cost, back, i + 1, j);
    }
}

/// Reversing a consistent predecessor chain that ends at the target gives
/// a path of adjacent passable layer members from the start to the
/// target, or the target alone when the search never recorded it.
proof fn lemma_path_properties(
    m: Map<HexPosition, bool>,
    from: HexPosition,
    to: HexPosition,
    came: Map<HexPosition, Option<HexPosition>>,
    cost: Map<HexPosition, u64>,
    back: Seq<HexPosition>,
    path: Seq<HexPosition>,
    current: HexPosition,
)
    requires
        search_inv(m, from, came, cost),
        m.dom().contains(from),
        m.dom().contains(to),
        from != to,
        back.len() >= 1,
        back[0] == to,
        back[back.len() - 1] == current,
        current == from || back =~= seq![to],
        current == to || came.dom().contains(current),
        forall|i: int|
            0 <= i < back.len() - 1 ==> came.dom().contains(#[trigger] back[i]) && came[back[i]]
                == Some(back[i + 1]),
        forall|i: int|
            0 <= i < back.len() - 1 ==> cost.dom().contains(#[trigger] back[i])
                && cost.dom().contains(back[i + 1]) && cost[back[i]] == cost[back[i + 1]] + 1,
        path.len() == back.len(),
        forall|j: int| 0 <= j < path.len() ==> #[trigger] path[j] == back[back.len() - 1 - j],
    ensures
        path.len() >= 1,
        path[path.len() - 1] == to,
        forall|i: int| 0 <= i < path.len() ==> m.dom().contains(#[trigger] path[i]),
        forall|i: int| 0 <= i < path.len() - 1 ==> hex_dist(path[i], #[trigger] path[i + 1]) == 1,
        path[0] == from || path =~= seq![to],
        path[0] == from && path.len() > 1 ==> (forall|i: int|
            1 <= i < path.len() ==> m[#[trigger] path[i]] == false),
        path.no_duplicates(),
{
    assert(path[path.len() - 1] == back[0]);
    assert forall|idx: int| 0 <= idx < path.len() implies m.dom().contains(
        #[trigger] path[idx],
    ) by {
        assert(path[idx] == back[back.len() - 1 - idx]);
        if back.len() - 1 - idx < back.len() - 1 {
            assert(came.dom().contains(back[back.len() - 1 - idx]));
        } else {
            assert(back[back.len() - 1 - idx] == current);
        }
    }
    assert forall|idx: int| 0 <= idx < path.len() - 1 implies hex_dist(
        path[idx],
        #[trigger] path[idx + 1],
    ) == 1 by {
        let j = back.len() - 2 - idx;
        assert(path[idx] == back[j + 1] && path[idx + 1] == back[j]);
        assert(came[back[j]] == Some(back[j + 1]));
        assert(back[j] != from);
        assert(parent_ok(m, came, cost, back[j]));
    }
    if current == from {
        assert(path[0] == from);
    } else {
        assert(back =~= seq![to]);
        assert(path =~= seq![to]);
    }
    if path[0] == from && path.len() > 1 {
        assert forall|idx: int| 1 <= idx < path.len() implies m[#[trigger] path[idx]]
            == false by {
            let j = back.len() - 1 - idx;
            assert(path[idx] == back[j]);
            assert(came.dom().contains(back[j]));
            assert(came[back[j]] == Some(back[j + 1]));
            assert(back[j] != from);
            assert(parent_ok(m, came, cost, back[j]));
        }
    }
    assert forall|i1: int, j1: int| 0 <= i1 < j1 < back.len() implies back[i1] != back[j1] by {
        if j1 < back.len() - 1 {
            lemma_chain_cost(cost, back, i1, j1);
            assert(cost[back[i1]] == cost[back[j1]] + (j1 - i1));
        } else {
            assert(back[j1] == current);
            if current == from {
                assert(came[back[i1]] == Some(back[i1 + 1]));
                assert(came[from] == None::<HexPosition>);
            } else {
                assert(back =~= seq![to]);
            }
        }
    }
    assert forall|i1: int, j1: int| 0 <= i1 < j1 < path.len() implies path[i1] != path[j1] by {
        assert(path[i1] == back[back.len() - 1 - i1]);
        assert(path[j1] == back[back.len() - 1 - j1]);
    }
}

impl HexLayout<bool> {
    /// Searches for a path between two member positions of the layer,
    /// expanding passable neighbors in best-first order by cost plus
    /// remaining hex distance.  The result always ends at `to`; exactly
    /// when `to` is reachable over passable cells, the result starts at
    /// `from` and steps through distinct adjacent passable members of the
    /// layer.  When `to` is unreachable the result is `to` alone, so
    /// callers recognize the outcome by checking whether the first
    /// position equals `from`; no separate signal is returned.
    ///
    /// Each position's cost is fixed when it is first generated and never
    /// revised, so among frontier entries of equal estimate the search may
    /// settle a position through a longer way in; the contract therefore
    /// states the path's validity and when the search succeeds, not that
    /// its length is minimal.
    #[verifier::rlimit(100)]
    #[verifier::spinoff_prover]
    pub fn pathfinding(&self, from: HexPosition, to: HexPosition) -> (path: Vec<HexPosition>)
        requires
            self.wf(),
            self@.dom().contains(from),
            self@.dom().contains(to),
        ensures
            path@.len() >= 1,
            path@[path@.len() - 1] == to,
            forall|i: int| 0 <= i < path@.len() ==> self@.dom().contains(#[trigger] path@[i]),
            forall|i: int|
                0 <= i < path@.len() - 1 ==> hex_dist(path@[i], #[trigger] path@[i + 1]) == 1,
            path@[0] == from || path@ =~= seq![to],
            from == to ==> path@ =~= seq![from],
            path@[0] == from && path@.len() > 1 ==> (forall|i: int|
                1 <= i < path@.len() ==> self@[#[trigger] path@[i]] == false),
            path@.no_duplicates(),
            path@[0] == from ==> path@.len() - 1 >= hex_dist(from, to),
            path@[0] == from ==> reach_set(self@, from, (path@.len() - 1) as nat).contains(to),
            (exists|k: nat| reach_set(self@, from, k).contains(to)) ==> path@[0] == from,
    {
        proof {
            self.lemma_wf_dom();
        }
        if from == to {
            let mut path: Vec<HexPosition> = Vec::new();
            path.push(from);
            proof {
                assert(path@ =~= seq![from]);
                assert(reach_set(self@, from, 0).contains(from));
            }
            return path;
        }
        let total = self.len();
        let mut frontier = crate::pqueue::frontier_new();
        let mut came_from: HexLayout<Option<HexPosition>> = HexLayout::new();
        let mut cost: HexLayout<u64> = HexLayout::new();
        came_from.set(from, None);
        cost.set(from, 0);
        crate::pqueue::frontier_push(&mut frontier, (from.0, from.1), 0);
        proof {
            assert(came_from@.dom() =~= Map::<HexPosition, Option<HexPosition>>::empty().dom().insert(from));
            assert(search_inv(self@, from, came_from@, cost@));
            assert(frontier_ok(frontier_model(frontier), came_from@));
            assert forall|p: HexPosition| #[trigger] came_from@.dom().contains(p)
                implies covered_or_settled(self@, came_from@, frontier_model(frontier), p) by {
                reveal(covered_or_settled);
                assert(p == from);
                assert(frontier_model(frontier).dom().contains((from.0, from.1)));
            }
        }
        loop
            invariant_except_break
                forall|p: HexPosition|
                    #[trigger] came_from@.dom().contains(p) ==> covered_or_settled(
                        self@,
                        came_from@,
                        frontier_model(frontier),
                        p,
                    ),
            invariant
                self.wf(),
                self@.dom().contains(from),
                self@.dom().contains(to),
                from != to,
                total == self@.dom().len(),
                self@.dom().finite(),
                forall|q: HexPosition| self@.dom().contains(q) ==> in_bounds(q),
                came_from.wf(),
                cost.wf(),
                search_inv(self@, from, came_from@, cost@),
                frontier_ok(frontier_model(frontier), came_from@),
                came_from@.dom().len() <= self@.dom().len(),
            ensures
                came_from.wf(),
                cost.wf(),
                search_inv(self@, from, came_from@, cost@),
                came_from@.dom().contains(to) || expansion_closed(self@, came_from@.dom()),
            decreases self@.dom().len() - came_from@.dom().len(), frontier_model(
                frontier,
            ).dom().len(),
        {
            let ghost fmb = frontier_model(frontier);
            let popped = crate::pqueue::frontier_pop(&mut frontier);
            if popped.is_none() {
                proof {
                    assert(expansion_closed(self@, came_from@.dom())) by {
                        reveal(expansion_closed);
                        assert forall|p: HexPosition, n: HexPosition|
                            #[trigger] came_from@.dom().contains(p) && adjacent(p, n)
                                && #[trigger] passable(self@, n) implies came_from@.dom().contains(
                            n,
                        ) by {
                            assert(covered_or_settled(
                                self@,
                                came_from@,
                                frontier_model(frontier),
                                p,
                            ));
                            reveal(covered_or_settled);
                            assert(!frontier_model(frontier).dom().contains((p.0, p.1)));
                        }
                    }
                }
                break;
            }
            let (item, _prio) = popped.unwrap();
            let current = HexPosition(item.0, item.1);
            proof {
                assert(came_from@.dom().contains(current));
                assert(in_bounds(current));
            }
            if current == to {
                break;
            }
            proof {
                assert forall|p: HexPosition|
                    #[trigger] came_from@.dom().contains(p) && p != current
                    implies covered_or_settled(self@, came_from@, frontier_model(frontier), p) by {
                    assert(covered_or_settled(self@, came_from@, fmb, p));
                    assert(item == (current.0, current.1));
                    assert((p.0, p.1) != item);
                    lemma_covered_after_remove(self@, came_from@, fmb, item, p);
                }
            }
            let ghost came0 = came_from@;
            let ghost cost0 = cost@;
            let ghost fm0 = frontier_model(frontier);
            let cc = *cost.get(current).unwrap();
            let nbs = self.neighbors_unblocked(current);
            let nl = nbs.len();
            for g in 0..nl
                invariant
                    self.wf(),
                    self@.dom().contains(from),
                    self@.dom().contains(to),
                    from != to,
                    total == self@.dom().len(),
                    self@.dom().finite(),
                    forall|q: HexPosition| self@.dom().contains(q) ==> in_bounds(q),
                    nl == nbs@.len(),
                    forall|j: int|
                        0 <= j < nbs@.len() ==> passable(self@, #[trigger] nbs@[j]) && hex_dist(
                            current,
                            nbs@[j],
                        ) == 1 && in_bounds(nbs@[j]),
                    came_from.wf(),
                    cost.wf(),
                    search_inv(self@, from, came_from@, cost@),
                    frontier_ok(frontier_model(frontier), came_from@),
                    came_from@.dom().len() <= self@.dom().len(),
                    came_from@.dom().contains(current),
                    cost@.dom().contains(current),
                    cc == cost@[current],
                    came0.dom().subset_of(came_from@.dom()),
                    (came_from@ == came0 && cost@ == cost0 && frontier_model(frontier) == fm0)
                        || came0.dom().len() < came_from@.dom().len(),
                    forall|n: HexPosition|
                        adjacent(current, n) && #[trigger] passable(self@, n) ==> nbs@.contains(n),
                    forall|j: int| 0 <= j < g ==> came_from@.dom().contains(#[trigger] nbs@[j]),
                    forall|p: HexPosition|
                        #[trigger] came_from@.dom().contains(p) && p != current
                            ==> covered_or_settled(
                            self@,
                            came_from@,
                            frontier_model(frontier),
                            p,
                        ),
            {
                let nb = nbs[g];
                if came_from.get(nb).is_none() {
                    let ghost camep = came_from@;
                    let ghost fmp = frontier_model(frontier);
                    let new_cost = cc + 1;
                    let d = nb.distance(to);
                    let pr: i128 = -(new_cost as i128) - (d as i128);
                    crate::pqueue::frontier_push(&mut frontier, (nb.0, nb.1), pr);
                    came_from.set(nb, Some(current));
                    cost.set(nb, new_cost);
                    proof {
                        assert(came_from@.dom() =~= camep.dom().insert(nb));
                        assert(came_from@.dom().subset_of(self@.dom()));
                        vstd::set_lib::lemma_len_subset(came_from@.dom(), self@.dom());
                        assert(came_from@.dom().len() == camep.dom().len() + 1);
                        assert forall|p: HexPosition|
                            #[trigger] came_from@.dom().contains(p) && p != from implies parent_ok(
                            self@,
                            came_from@,
                            cost@,
                            p,
                        ) by {
                            if p == nb {
                                assert(came_from@[nb] == Some(current));
                                assert(cost@[nb] == new_cost);
                                assert(cost@[current] == cc);
                            } else {
                                assert(camep.dom().contains(p));
                                if p != from {
                                    assert(parent_ok(self@, camep, cost0, p) || parent_ok(
                                        self@,
                                        camep,
                                        cost@.remove(nb),
                                        p,
                                    ) || parent_ok(self@, camep, cost@, p));
                                }
                            }
                        }
                        assert(search_inv(self@, from, came_from@, cost@));
                        assert forall|p: HexPosition|
                            #[trigger] came_from@.dom().contains(p) && p != current
                            implies covered_or_settled(
                            self@,
                            came_from@,
                            frontier_model(frontier),
                            p,
                        ) by {
                            if p == nb {
                                reveal(covered_or_settled);
                                assert(frontier_model(frontier).dom().contains((nb.0, nb.1)));
                            } else {
                                assert(camep.dom().contains(p));
                                assert(covered_or_settled(self@, camep, fmp, p));
                                lemma_covered_monotone(
                                    self@,
                                    camep,
                                    fmp,
                                    came_from@,
                                    frontier_model(frontier),
                                    p,
                                );
                            }
                        }
                    }
                }
            }
            proof {
                if came_from@ == came0 {
                    assert(frontier_model(frontier) == fm0);
                    assert(fm0 == frontier_model(frontier));
                }
                assert forall|p: HexPosition| #[trigger] came_from@.dom().contains(p)
                    implies covered_or_settled(self@, came_from@, frontier_model(frontier), p) by {
                    if p == current {
                        reveal(covered_or_settled);
                        assert forall|n: HexPosition|
                            adjacent(current, n) && #[trigger] passable(self@, n)
                            implies came_from@.dom().contains(n) by {
                            assert(nbs@.contains(n));
                            let j = choose|j: int| 0 <= j < nbs@.len() && nbs@[j] == n;
                            assert(came_from@.dom().contains(nbs@[j]));
                        }
                    }
                }
            }
        }
        let mut back: Vec<HexPosition> = Vec::new();
        back.push(to);
        let mut current = to;
        loop
            invariant
                self.wf(),
                self@.dom().contains(from),
                self@.dom().contains(to),
                from != to,
                came_from.wf(),
                cost.wf(),
                search_inv(self@, from, came_from@, cost@),
                back@.len() >= 1,
                back@[0] == to,
                back@[back@.len() - 1] == current,
                current == to || came_from@.dom().contains(current),
                forall|i: int|
                    0 <= i < back@.len() - 1 ==> came_from@.dom().contains(#[trigger] back@[i])
                        && came_from@[back@[i]] == Some(back@[i + 1]),
                forall|i: int|
                    0 <= i < back@.len() - 1 ==> cost@.dom().contains(#[trigger] back@[i])
                        && cost@.dom().contains(back@[i + 1]) && cost@[back@[i]] == cost@[back@[i
                        + 1]] + 1,
            ensures
                back@.len() >= 1,
                back@[0] == to,
                back@[back@.len() - 1] == current,
                current == from || back@ =~= seq![to],
                came_from@.dom().contains(to) ==> current == from,
                current == to || came_from@.dom().contains(current),
                forall|i: int|
                    0 <= i < back@.len() - 1 ==> came_from@.dom().contains(#[trigger] back@[i])
                        && came_from@[back@[i]] == Some(back@[i + 1]),
                forall|i: int|
                    0 <= i < back@.len() - 1 ==> cost@.dom().contains(#[trigger] back@[i])
                        && cost@.dom().contains(back@[i + 1]) && cost@[back@[i]] == cost@[back@[i
                        + 1]] + 1,
            decreases (if came_from@.dom().contains(current) {
                cost@[current] + 1
            } else {
                0
            }),
        {
            let step = came_from.get(current);
            match step {
                Some(prev_opt) => match prev_opt {
                    Some(prev) => {
                        let pv = *prev;
                        proof {
                            assert(came_from@[current] == Some(pv));
                            assert(current != from);
                            assert(parent_ok(self@, came_from@, cost@, current));
                        }
                        back.push(pv);
                        current = pv;
                    },
                    None => {
                        proof {
                            assert(came_from@[current] == None::<HexPosition>);
                            if current != from {
                                assert(parent_ok(self@, came_from@, cost@, current));
                                assert(false);
                            }
                        }
                        break;
                    },
                },
                None => {
                    proof {
                        assert(!came_from@.dom().contains(current));
                        assert(current == to);
                        if back@.len() >= 2 {
                            assert(came_from@.dom().contains(back@[back@.len() - 2]));
                            assert(came_from@[back@[back@.len() - 2]] == Some(current));
                            assert(parent_ok(self@, came_from@, cost@, back@[back@.len() - 2]));
                            assert(false);
                        }
                        assert(back@ =~= seq![to]);
                    }
                    break;
                },
            }
        }
        let mut path: Vec<HexPosition> = Vec::new();
        let bl = back.len();
        let mut i = bl;
        while i > 0
            invariant
                bl == back@.len(),
                0 <= i <= bl,
                path@.len() == bl - i,
                forall|j: int| 0 <= j < path@.len() ==> #[trigger] path@[j] == back@[bl - 1 - j],
            decreases i,
        {
            i = i - 1;
            path.push(back[i]);
        }
        proof {
            lemma_path_properties(self@, from, to, came_from@, cost@, back@, path@, current);
            if path@[0] == from {
                assert(path@.len() > 1 || path@[0] == to);
                lemma_path_reaches(self@, from, path@, path@.len() - 1);
                lemma_walk_within_distance(path@, path@.len() - 1);
            }
            if exists|k: nat| reach_set(self@, from, k).contains(to) {
                let k = choose|k: nat| reach_set(self@, from, k).contains(to);
                if !came_from@.dom().contains(to) {
                    assert(expansion_closed(self@, came_from@.dom()));
                    lemma_reach_in_closed(self@, from, came_from@.dom(), k);
                    assert(false);
                }
                assert(current == from);
                assert(path@[0] == back@[back@.len() - 1]);
            }
        }
        path
    }
}

} // verus!
