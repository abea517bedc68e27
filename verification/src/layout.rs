//! A sparse hexagonal grid layer: a mapping from positions to per-cell
//! data, with point access, bulk queries and set algebra between layers.
//!
//! The layer is modelled as a `Map` from positions to data; only positions
//! explicitly inserted are members, and absence of a key is distinct from
//! presence with a default value.

use vstd::prelude::*;

use crate::position::hex_dist;
use crate::position::hex_norm;
use crate::position::in_bounds;
use crate::position::COORD_BOUND;
use crate::position::HexPosition;

verus! {

/// The keys of an entry sequence, in entry order.
pub open spec fn entry_keys<D>(s: Seq<(HexPosition, D)>) -> Seq<HexPosition> {
    s.map_values(|e: (HexPosition, D)| e.0)
}

/// Whether some entry of the sequence holds the given key.
pub open spec fn has_key<D>(s: Seq<(HexPosition, D)>, p: HexPosition) -> bool {
    exists|i: int| 0 <= i < s.len() && (#[trigger] s[i]).0 == p
}

/// An index of the entry holding the given key, when one exists.
pub open spec fn key_index<D>(s: Seq<(HexPosition, D)>, p: HexPosition) -> int {
    choose|i: int| 0 <= i < s.len() && (#[trigger] s[i]).0 == p
}

/// A well-formed entry sequence: keys are unique and stay within the
/// coordinate ball.
pub open spec fn entries_wf<D>(s: Seq<(HexPosition, D)>) -> bool {
    &&& entry_keys(s).no_duplicates()
    &&& forall|i: int| 0 <= i < s.len() ==> in_bounds((#[trigger] s[i]).0)
}

/// The mapping an entry sequence denotes.
pub open spec fn entries_map<D>(s: Seq<(HexPosition, D)>) -> Map<HexPosition, D> {
    Map::new(|p: HexPosition| has_key(s, p), |p: HexPosition| s[key_index(s, p)].1)
}

/// In a well-formed entry sequence, the entry at any index gives the value
/// of its key in the denoted map.
proof fn lemma_entry_value<D>(s: Seq<(HexPosition, D)>, i: int)
    requires
        entries_wf(s),
        0 <= i < s.len(),
    ensures
        entries_map(s).dom().contains(s[i].0),
        entries_map(s)[s[i].0] == s[i].1,
        key_index(s, s[i].0) == i,
{
    let p = s[i].0;
    assert(has_key(s, p));
    let w = key_index(s, p);
    assert(0 <= w < s.len() && s[w].0 == p);
    assert(entry_keys(s)[i] == p && entry_keys(s)[w] == p);
    if i != w {
        assert(false);
    }
}

/// A well-formed entry sequence denotes a finite map with one entry per
/// element.
proof fn lemma_entries_dom<D>(s: Seq<(HexPosition, D)>)
    requires
        entries_wf(s),
    ensures
        entries_map(s).dom() =~= entry_keys(s).to_set(),
        entries_map(s).dom().finite(),
        entries_map(s).dom().len() == s.len(),
{
    let keys = entry_keys(s);
    assert forall|p: HexPosition| has_key(s, p) <==> keys.to_set().contains(p) by {
        if has_key(s, p) {
            let i = choose|i: int| 0 <= i < s.len() && (#[trigger] s[i]).0 == p;
            assert(keys[i] == p);
        }
        if keys.to_set().contains(p) {
            let i = choose|i: int| 0 <= i < keys.len() && keys[i] == p;
            assert(s[i].0 == p);
        }
    }
    vstd::seq_lib::seq_to_set_is_finite::<HexPosition>(keys);
    keys.unique_seq_to_set();
    assert(entries_map(s).dom() =~= keys.to_set());
}

/// Appending a fresh position keeps a position sequence duplicate-free and
/// inserts it into the denoted set.
pub(crate) proof fn lemma_push_fresh(s: Seq<HexPosition>, p: HexPosition)
    requires
        s.no_duplicates(),
        !s.contains(p),
    ensures
        s.push(p).no_duplicates(),
        s.push(p).to_set() =~= s.to_set().insert(p),
{
    let s1 = s.push(p);
    assert forall|j1: int, j2: int| 0 <= j1 < j2 < s1.len() implies s1[j1] != s1[j2] by {
        if j2 == s.len() {
            assert(s1[j1] == s[j1]);
            if s[j1] == p {
                assert(s.contains(p));
            }
        } else {
            assert(s1[j1] == s[j1] && s1[j2] == s[j2]);
        }
    }
    assert forall|q: HexPosition|
        s1.to_set().contains(q) <==> s.to_set().insert(p).contains(q) by {
        if s1.contains(q) {
            let j = choose|j: int| 0 <= j < s1.len() && s1[j] == q;
            if j < s.len() {
                assert(s[j] == q);
            }
        }
        if s.contains(q) {
            let j = choose|j: int| 0 <= j < s.len() && s[j] == q;
            assert(s1[j] == q);
        }
        if q == p {
            assert(s1[s.len() as int] == p);
        }
    }
}

/// A prefix one longer is the prefix plus the next element.
pub(crate) proof fn lemma_take_succ(s: Seq<HexPosition>, i: int)
    requires
        0 <= i < s.len(),
    ensures
        s.take(i + 1) =~= s.take(i).push(s[i]),
{
}

/// A duplicate-free position sequence does not repeat a prefix element.
pub(crate) proof fn lemma_prefix_fresh(s: Seq<HexPosition>, i: int)
    requires
        s.no_duplicates(),
        0 <= i < s.len(),
    ensures
        !s.take(i).to_set().contains(s[i]),
{
    if s.take(i).to_set().contains(s[i]) {
        let j = choose|j: int| 0 <= j < i && s.take(i)[j] == s[i];
        assert(s[j] == s[i]);
    }
}

/// A sparse hexagonal grid layer: a mapping from positions to data values,
/// with unique keys.  Only positions explicitly inserted are members.
pub struct HexLayout<D> {
    cells: Vec<(HexPosition, D)>,
}

impl<D> View for HexLayout<D> {
    type V = Map<HexPosition, D>;

    closed spec fn view(&self) -> Map<HexPosition, D> {
        entries_map(self.cells@)
    }
}

impl<D> HexLayout<D> {
    /// The layer's backing entries are well formed: keys unique and within
    /// the coordinate ball.
    pub closed spec fn wf(self) -> bool {
        entries_wf(self.cells@)
    }

    /// Every member of a well-formed layer lies within the coordinate
    /// ball, and the member set is finite.
    pub proof fn lemma_wf_dom(self)
        requires
            self.wf(),
        ensures
            self@.dom().finite(),
            forall|p: HexPosition| self@.dom().contains(p) ==> in_bounds(p),
    {
        lemma_entries_dom(self.cells@);
        assert forall|p: HexPosition| self@.dom().contains(p) implies in_bounds(p) by {
            let i = choose|i: int|
                0 <= i < self.cells@.len() && (#[trigger] self.cells@[i]).0 == p;
        }
    }

    /// Creates an empty layer.
    pub fn new() -> (r: Self)
        ensures
            r.wf(),
            r@ =~= Map::<HexPosition, D>::empty(),
    {
        let r = HexLayout { cells: Vec::new() };
        proof {
            assert(forall|p: HexPosition| !has_key(r.cells@, p));
        }
        r
    }

    /// The index of the entry holding the given position, if the position
    /// is a member.
    fn find(&self, pos: HexPosition) -> (r: Option<usize>)
        requires
            self.wf(),
        ensures
            r matches Some(i) ==> i < self.cells@.len() && self.cells@[i as int].0 == pos
                && self@.dom().contains(pos) && self@[pos] == self.cells@[i as int].1,
            r is None ==> !self@.dom().contains(pos),
    {
        let n = self.cells.len();
        for i in 0..n
            invariant
                n == self.cells@.len(),
                self.wf(),
                forall|j: int| 0 <= j < i ==> (#[trigger] self.cells@[j]).0 != pos,
        {
            if self.cells[i].0 == pos {
                proof {
                    lemma_entry_value(self.cells@, i as int);
                }
                return Some(i);
            }
        }
        proof {
            assert(!has_key(self.cells@, pos));
        }
        None
    }

    /// Returns a reference to the data at the given position, or `None` if
    /// the position is not a member.
    pub fn get(&self, pos: HexPosition) -> (r: Option<&D>)
        requires
            self.wf(),
        ensures
            r matches Some(v) ==> self@.dom().contains(pos) && *v == self@[pos],
            r is None ==> !self@.dom().contains(pos),
    {
        match self.find(pos) {
            Some(i) => Some(&self.cells[i].1),
            None => None,
        }
    }

    /// Removes the entry at the given index, replacing it by the last
    /// entry.
    fn remove_at(&mut self, i: usize) -> (r: (HexPosition, D))
        requires
            old(self).wf(),
            i < old(self).cells@.len(),
        ensures
            final(self).wf(),
            r == old(self).cells@[i as int],
            final(self)@ =~= old(self)@.remove(r.0),
            final(self).cells@.len() == old(self).cells@.len() - 1,
    {
        let ghost s0 = self.cells@;
        let entry = self.cells.swap_remove(i);
        proof {
            let pos = s0[i as int].0;
            let s1 = self.cells@;
            let n = s0.len() as int;
            assert(s1 == s0.update(i as int, s0.last()).drop_last());
            assert(forall|j: int|
                0 <= j < n - 1 ==> (#[trigger] s1[j]) == (if j == i as int {
                    s0[n - 1]
                } else {
                    s0[j]
                }));
            assert forall|j1: int, j2: int| 0 <= j1 < j2 < n - 1 implies (#[trigger] entry_keys(
                s1,
            )[j1]) != (#[trigger] entry_keys(s1)[j2]) by {
                let m1: int = if j1 == i as int {
                    n - 1
                } else {
                    j1
                };
                let m2: int = if j2 == i as int {
                    n - 1
                } else {
                    j2
                };
                assert(s1[j1] == s0[m1] && s1[j2] == s0[m2]);
                assert(entry_keys(s0)[m1] == s0[m1].0 && entry_keys(s0)[m2] == s0[m2].0);
                assert(m1 != m2);
            }
            assert forall|j: int| 0 <= j < n - 1 implies in_bounds((#[trigger] s1[j]).0) by {
                if j == i as int {
                    assert(s1[j] == s0[n - 1]);
                } else {
                    assert(s1[j] == s0[j]);
                }
            }
            assert(entries_wf(s1));
            lemma_entry_value(s0, i as int);
            assert forall|p: HexPosition|
                entries_map(s1).dom().contains(p) == #[trigger] entries_map(s0).remove(
                    pos,
                ).dom().contains(p) by {
                if has_key(s1, p) {
                    let w = choose|w: int| 0 <= w < s1.len() && (#[trigger] s1[w]).0 == p;
                    let m: int = if w == i as int {
                        n - 1
                    } else {
                        w
                    };
                    assert(s1[w] == s0[m]);
                    lemma_entry_value(s0, m);
                    if p == pos {
                        assert(entry_keys(s0)[m] == pos && entry_keys(s0)[i as int] == pos);
                        assert(m == i as int);
                        assert(false);
                    }
                }
                if has_key(s0, p) && p != pos {
                    let w = choose|w: int| 0 <= w < s0.len() && (#[trigger] s0[w]).0 == p;
                    assert(entry_keys(s0)[w] == p && entry_keys(s0)[i as int] == pos);
                    assert(w != i as int);
                    if w == n - 1 {
                        if i as int == n - 1 {
                            assert(false);
                        }
                        assert(s1[i as int] == s0[n - 1]);
                        assert(has_key(s1, p));
                    } else {
                        assert(s1[w] == s0[w]);
                        assert(has_key(s1, p));
                    }
                }
            }
            assert forall|p: HexPosition|
                entries_map(s1).dom().contains(p) implies #[trigger] entries_map(s1)[p]
                == entries_map(s0).remove(pos)[p] by {
                let w = choose|w: int| 0 <= w < s1.len() && (#[trigger] s1[w]).0 == p;
                lemma_entry_value(s1, w);
                let m: int = if w == i as int {
                    n - 1
                } else {
                    w
                };
                assert(s1[w] == s0[m]);
                lemma_entry_value(s0, m);
            }
            assert(entries_map(s1) =~= entries_map(s0).remove(pos));
        }
        entry
    }

    /// Appends an entry whose key is not yet a member.
    fn push_new(&mut self, pos: HexPosition, data: D)
        requires
            old(self).wf(),
            in_bounds(pos),
            !old(self)@.dom().contains(pos),
        ensures
            final(self).wf(),
            final(self)@ =~= old(self)@.insert(pos, data),
    {
        let ghost s0 = self.cells@;
        self.cells.push((pos, data));
        proof {
            let s1 = self.cells@;
            assert(s1 == s0.push((pos, data)));
            assert(forall|j: int| 0 <= j < s0.len() ==> (#[trigger] s1[j]) == s0[j]);
            assert forall|j1: int, j2: int| 0 <= j1 < j2 < s1.len() implies (
            #[trigger] entry_keys(s1)[j1]) != (#[trigger] entry_keys(s1)[j2]) by {
                if j2 < s0.len() {
                    assert(entry_keys(s0)[j1] == s0[j1].0 && entry_keys(s0)[j2] == s0[j2].0);
                } else {
                    assert(s1[j2].0 == pos);
                    assert(s1[j1] == s0[j1]);
                    if s0[j1].0 == pos {
                        assert(has_key(s0, pos));
                        lemma_entry_value(s0, j1);
                        assert(false);
                    }
                }
            }
            assert forall|j: int| 0 <= j < s1.len() implies in_bounds((#[trigger] s1[j]).0) by {
                if j < s0.len() {
                    assert(s1[j] == s0[j]);
                }
            }
            assert(entries_wf(s1));
            assert forall|p: HexPosition|
                entries_map(s1).dom().contains(p) == #[trigger] entries_map(s0).insert(
                    pos,
                    data,
                ).dom().contains(p) by {
                if has_key(s1, p) && p != pos {
                    let w = choose|w: int| 0 <= w < s1.len() && (#[trigger] s1[w]).0 == p;
                    assert(w != s0.len());
                    assert(s0[w].0 == p);
                    assert(has_key(s0, p));
                }
                if has_key(s0, p) {
                    let w = choose|w: int| 0 <= w < s0.len() && (#[trigger] s0[w]).0 == p;
                    assert(s1[w].0 == p);
                    assert(has_key(s1, p));
                }
                if p == pos {
                    assert(s1[s0.len() as int].0 == pos);
                    assert(has_key(s1, pos));
                }
            }
            assert forall|p: HexPosition|
                entries_map(s1).dom().contains(p) implies #[trigger] entries_map(s1)[p]
                == entries_map(s0).insert(pos, data)[p] by {
                let w = choose|w: int| 0 <= w < s1.len() && (#[trigger] s1[w]).0 == p;
                lemma_entry_value(s1, w);
                if p == pos {
                    lemma_entry_value(s1, s0.len() as int);
                } else {
                    assert(w != s0.len());
                    assert(s0[w].0 == p);
                    lemma_entry_value(s0, w);
                }
            }
            assert(entries_map(s1) =~= entries_map(s0).insert(pos, data));
        }
    }

    /// Inserts or replaces the data at the given position; returns the
    /// previous value if the position was already a member.
    pub fn set(&mut self, pos: HexPosition, data: D) -> (r: Option<D>)
        requires
            old(self).wf(),
            in_bounds(pos),
        ensures
            final(self).wf(),
            final(self)@ =~= old(self)@.insert(pos, data),
            old(self)@.dom().contains(pos) ==> (r matches Some(v) && v == old(self)@[pos]),
            !old(self)@.dom().contains(pos) ==> r is None,
    {
        match self.find(pos) {
            Some(i) => {
                let entry = self.remove_at(i);
                self.push_new(pos, data);
                proof {
                    assert(old(self)@.remove(pos).insert(pos, data) =~= old(self)@.insert(
                        pos,
                        data,
                    ));
                }
                Some(entry.1)
            },
            None => {
                self.push_new(pos, data);
                None
            },
        }
    }

    /// Removes the data at the given position; returns the removed value
    /// if the position was a member.
    pub fn delete(&mut self, pos: HexPosition) -> (r: Option<D>)
        requires
            old(self).wf(),
        ensures
            final(self).wf(),
            final(self)@ =~= old(self)@.remove(pos),
            old(self)@.dom().contains(pos) ==> (r matches Some(v) && v == old(self)@[pos]),
            !old(self)@.dom().contains(pos) ==> r is None,
    {
        match self.find(pos) {
            Some(i) => {
                let entry = self.remove_at(i);
                Some(entry.1)
            },
            None => {
                proof {
                    assert(self@ =~= old(self)@.remove(pos));
                }
                None
            },
        }
    }

    /// The number of positions in the layer.
    pub fn len(&self) -> (r: usize)
        requires
            self.wf(),
        ensures
            r == self@.dom().len(),
    {
        proof {
            lemma_entries_dom(self.cells@);
        }
        self.cells.len()
    }

    /// Whether the layer has no members.
    pub fn is_empty(&self) -> (r: bool)
        requires
            self.wf(),
        ensures
            r <==> self@.dom().len() == 0,
    {
        proof {
            lemma_entries_dom(self.cells@);
        }
        self.cells.is_empty()
    }

    /// Removes every member of the layer.
    pub fn clear(&mut self)
        ensures
            final(self).wf(),
            final(self)@ =~= Map::<HexPosition, D>::empty(),
    {
        self.cells.clear();
        proof {
            assert(forall|p: HexPosition| !has_key(self.cells@, p));
        }
    }

    /// The positions of all members of the layer, in unspecified order,
    /// each exactly once.
    pub fn positions(&self) -> (r: Vec<HexPosition>)
        requires
            self.wf(),
        ensures
            r@.no_duplicates(),
            r@.len() == self@.dom().len(),
            r@.to_set() =~= self@.dom(),
            forall|i: int| 0 <= i < r@.len() ==> self@.dom().contains(#[trigger] r@[i]),
            forall|p: HexPosition| self@.dom().contains(p) ==> r@.contains(p),
    {
        proof {
            lemma_entries_dom(self.cells@);
        }
        let n = self.cells.len();
        let mut r: Vec<HexPosition> = Vec::new();
        for i in 0..n
            invariant
                n == self.cells@.len(),
                self.wf(),
                r@ =~= entry_keys(self.cells@).take(i as int),
        {
            r.push(self.cells[i].0);
            proof {
                assert(r@ =~= entry_keys(self.cells@).take(i + 1));
            }
        }
        proof {
            assert(r@ =~= entry_keys(self.cells@));
            lemma_entries_dom(self.cells@);
            assert forall|i: int| 0 <= i < r@.len() implies self@.dom().contains(
                #[trigger] r@[i],
            ) by {
                lemma_entry_value(self.cells@, i);
            }
            assert forall|p: HexPosition| self@.dom().contains(p) implies r@.contains(p) by {
                let i = choose|i: int|
                    0 <= i < self.cells@.len() && (#[trigger] self.cells@[i]).0 == p;
                assert(r@[i] == p);
            }
        }
        r
    }

    /// The layer's entries: each member position paired with a reference
    /// to its data, in unspecified order, each member exactly once.
    pub fn iter(&self) -> (r: Vec<(HexPosition, &D)>)
        requires
            self.wf(),
        ensures
            r@.len() == self@.dom().len(),
            forall|i: int, j: int|
                0 <= i < j < r@.len() ==> (#[trigger] r@[i]).0 != (#[trigger] r@[j]).0,
            forall|i: int|
                0 <= i < r@.len() ==> self@.dom().contains((#[trigger] r@[i]).0) && *r@[i].1
                    == self@[r@[i].0],
            forall|p: HexPosition|
                self@.dom().contains(p) ==> exists|i: int|
                    0 <= i < r@.len() && (#[trigger] r@[i]).0 == p,
    {
        proof {
            lemma_entries_dom(self.cells@);
        }
        let n = self.cells.len();
        let mut r: Vec<(HexPosition, &D)> = Vec::new();
        for i in 0..n
            invariant
                n == self.cells@.len(),
                self.wf(),
                r@.len() == i,
                forall|j: int|
                    0 <= j < i ==> (#[trigger] r@[j]).0 == self.cells@[j].0 && *r@[j].1
                        == self.cells@[j].1,
        {
            r.push((self.cells[i].0, &self.cells[i].1));
        }
        proof {
            assert forall|i: int, j: int| 0 <= i < j < r@.len() implies (#[trigger] r@[i]).0 != (
            #[trigger] r@[j]).0 by {
                assert(entry_keys(self.cells@)[i] == self.cells@[i].0);
                assert(entry_keys(self.cells@)[j] == self.cells@[j].0);
            }
            assert forall|i: int| 0 <= i < r@.len() implies self@.dom().contains(
                (#[trigger] r@[i]).0,
            ) && *r@[i].1 == self@[r@[i].0] by {
                lemma_entry_value(self.cells@, i);
            }
            assert forall|p: HexPosition| self@.dom().contains(p) implies exists|i: int|
                0 <= i < r@.len() && (#[trigger] r@[i]).0 == p by {
                let i = choose|i: int|
                    0 <= i < self.cells@.len() && (#[trigger] self.cells@[i]).0 == p;
                assert(r@[i].0 == p);
            }
        }
        r
    }

    /// References to the data of all members of the layer, in unspecified
    /// order, one per member: some duplicate-free enumeration of the member
    /// positions pairs each element with its entry.
    pub fn data(&self) -> (r: Vec<&D>)
        requires
            self.wf(),
        ensures
            r@.len() == self@.dom().len(),
            forall|i: int|
                0 <= i < r@.len() ==> self@.contains_value(*(#[trigger] r@[i])),
            exists|keys: Seq<HexPosition>|
                #[trigger] keys.no_duplicates() && keys.len() == r@.len() && (forall|i: int|
                    0 <= i < r@.len() ==> self@.dom().contains(#[trigger] keys[i]) && *r@[i]
                        == self@[keys[i]]),
    {
        let entries = self.iter();
        let n = entries.len();
        let mut r: Vec<&D> = Vec::new();
        for i in 0..n
            invariant
                n == entries@.len(),
                entries@.len() == self@.dom().len(),
                r@.len() == i,
                forall|j: int|
                    0 <= j < entries@.len() ==> self@.dom().contains((#[trigger] entries@[j]).0)
                        && *entries@[j].1 == self@[entries@[j].0],
                forall|j: int| 0 <= j < i ==> r@[j] == (#[trigger] entries@[j]).1,
        {
            r.push(entries[i].1);
        }
        proof {
            assert forall|i: int| 0 <= i < r@.len() implies self@.contains_value(
                *(#[trigger] r@[i]),
            ) by {
                let p = entries@[i].0;
                assert(self@.dom().contains(p) && *r@[i] == self@[p]);
            }
            let keys = entries@.map_values(|e: (HexPosition, &D)| e.0);
            assert forall|i: int, j: int| 0 <= i < j < keys.len() implies keys[i] != keys[j] by {
                assert(keys[i] == entries@[i].0 && keys[j] == entries@[j].0);
            }
            assert(keys.no_duplicates());
            assert forall|i: int| 0 <= i < r@.len() implies self@.dom().contains(
                #[trigger] keys[i],
            ) && *r@[i] == self@[keys[i]] by {
                assert(keys[i] == entries@[i].0);
            }
        }
        r
    }

    /// The positions present in both layers: the intersection of the two
    /// member sets, ignoring data values.
    pub fn and(&self, other: &Self) -> (r: Vec<HexPosition>)
        requires
            self.wf(),
            other.wf(),
        ensures
            r@.no_duplicates(),
            r@.to_set() =~= self@.dom().intersect(other@.dom()),
            forall|p: HexPosition|
                r@.contains(p) <==> self@.dom().contains(p) && other@.dom().contains(p),
    {
        let keys = self.positions();
        let n = keys.len();
        let mut r: Vec<HexPosition> = Vec::new();
        for i in 0..n
            invariant
                n == keys@.len(),
                self.wf(),
                other.wf(),
                keys@.no_duplicates(),
                keys@.to_set() =~= self@.dom(),
                r@.no_duplicates(),
                r@.to_set() =~= keys@.take(i as int).to_set().intersect(other@.dom()),
        {
            let p = keys[i];
            proof {
                lemma_take_succ(keys@, i as int);
                lemma_prefix_fresh(keys@, i as int);
                lemma_push_fresh(keys@.take(i as int), keys@[i as int]);
            }
            if other.get(p).is_some() {
                proof {
                    if r@.contains(p) {
                        assert(r@.to_set().contains(p));
                        assert(keys@.take(i as int).to_set().contains(p));
                        assert(false);
                    }
                    lemma_push_fresh(r@, p);
                }
                r.push(p);
            }
            proof {
                assert(r@.to_set() =~= keys@.take(i + 1).to_set().intersect(other@.dom()));
            }
        }
        proof {
            assert(keys@.take(n as int) =~= keys@);
            assert forall|p: HexPosition|
                r@.contains(p) <==> self@.dom().contains(p) && other@.dom().contains(p) by {
                assert(r@.contains(p) == r@.to_set().contains(p));
            }
        }
        r
    }

    /// The positions present in either layer: the union of the two member
    /// sets, ignoring data values.
    pub fn or(&self, other: &Self) -> (r: Vec<HexPosition>)
        requires
            self.wf(),
            other.wf(),
        ensures
            r@.no_duplicates(),
            r@.to_set() =~= self@.dom() + other@.dom(),
            forall|p: HexPosition|
                r@.contains(p) <==> self@.dom().contains(p) || other@.dom().contains(p),
    {
        let mut r = self.positions();
        let more = other.positions();
        let n = more.len();
        for i in 0..n
            invariant
                n == more@.len(),
                self.wf(),
                other.wf(),
                more@.no_duplicates(),
                more@.to_set() =~= other@.dom(),
                r@.no_duplicates(),
                r@.to_set() =~= self@.dom() + more@.take(i as int).to_set(),
        {
            let p = more[i];
            proof {
                lemma_take_succ(more@, i as int);
                lemma_push_fresh(more@.take(i as int), more@[i as int]);
            }
            if self.get(p).is_none() && !vec_contains(&r, p) {
                proof {
                    lemma_push_fresh(r@, p);
                }
                r.push(p);
            }
            proof {
                assert(r@.to_set() =~= self@.dom() + more@.take(i + 1).to_set());
            }
        }
        proof {
            assert(more@.take(n as int) =~= more@);
            assert forall|p: HexPosition|
                r@.contains(p) <==> self@.dom().contains(p) || other@.dom().contains(p) by {
                assert(r@.contains(p) == r@.to_set().contains(p));
            }
        }
        r
    }

    /// The positions present in exactly one of the two layers: the
    /// symmetric difference of the two member sets, ignoring data values.
    pub fn xor(&self, other: &Self) -> (r: Vec<HexPosition>)
        requires
            self.wf(),
            other.wf(),
        ensures
            r@.no_duplicates(),
            r@.to_set() =~= Set::new(
                |p: HexPosition| self@.dom().contains(p) != other@.dom().contains(p),
            ),
            forall|p: HexPosition|
                r@.contains(p) <==> (self@.dom().contains(p) != other@.dom().contains(p)),
    {
        let mine = self.positions();
        let theirs = other.positions();
        let mut r: Vec<HexPosition> = Vec::new();
        let n = mine.len();
        for i in 0..n
            invariant
                n == mine@.len(),
                self.wf(),
                other.wf(),
                mine@.no_duplicates(),
                mine@.to_set() =~= self@.dom(),
                r@.no_duplicates(),
                r@.to_set() =~= mine@.take(i as int).to_set().difference(other@.dom()),
        {
            let p = mine[i];
            proof {
                lemma_take_succ(mine@, i as int);
                lemma_prefix_fresh(mine@, i as int);
                lemma_push_fresh(mine@.take(i as int), mine@[i as int]);
            }
            if other.get(p).is_none() {
                proof {
                    if r@.contains(p) {
                        assert(r@.to_set().contains(p));
                        assert(false);
                    }
                    lemma_push_fresh(r@, p);
                }
                r.push(p);
            }
            proof {
                assert(r@.to_set() =~= mine@.take(i + 1).to_set().difference(other@.dom()));
            }
        }
        proof {
            assert(mine@.take(n as int) =~= mine@);
            assert(r@.to_set() =~= self@.dom().difference(other@.dom()));
        }
        let m = theirs.len();
        for i in 0..m
            invariant
                m == theirs@.len(),
                self.wf(),
                other.wf(),
                theirs@.no_duplicates(),
                theirs@.to_set() =~= other@.dom(),
                r@.no_duplicates(),
                r@.to_set() =~= self@.dom().difference(other@.dom()) + theirs@.take(
                    i as int,
                ).to_set().difference(self@.dom()),
        {
            let p = theirs[i];
            proof {
                lemma_take_succ(theirs@, i as int);
                lemma_prefix_fresh(theirs@, i as int);
                lemma_push_fresh(theirs@.take(i as int), theirs@[i as int]);
            }
            if self.get(p).is_none() {
                proof {
                    if r@.contains(p) {
                        assert(r@.to_set().contains(p));
                        assert(false);
                    }
                    lemma_push_fresh(r@, p);
                }
                r.push(p);
            }
            proof {
                assert(r@.to_set() =~= self@.dom().difference(other@.dom()) + theirs@.take(
                    i + 1,
                ).to_set().difference(self@.dom()));
            }
        }
        proof {
            assert(theirs@.take(m as int) =~= theirs@);
            assert(r@.to_set() =~= Set::new(
                |p: HexPosition| self@.dom().contains(p) != other@.dom().contains(p),
            ));
            assert forall|p: HexPosition|
                r@.contains(p) <==> (self@.dom().contains(p) != other@.dom().contains(p)) by {
                assert(r@.contains(p) == r@.to_set().contains(p));
            }
        }
        r
    }
}


impl<D: Default> HexLayout<D> {
    /// Creates a layer populated at every position within hex distance
    /// `range - 1` of `center` (so a range of 1 is the center cell alone,
    /// and a range of 0 is empty), each cell holding the data type's
    /// default value.
    pub fn new_from_range(range: usize, center: HexPosition) -> (r: Self)
        requires
            hex_norm(center.0 as int, center.1 as int) + range <= COORD_BOUND as int,
        ensures
            r.wf(),
            forall|p: HexPosition|
                r@.dom().contains(p) <==> hex_dist(center, p) < range,
            range >= 1 ==> r@.dom().len() == 1 + 3 * (range - 1) * range,
            forall|p: HexPosition|
                #[trigger] r@.dom().contains(p) ==> call_ensures(D::default, (), r@[p]),
    {
        let mut layout = Self::new();
        if range == 0 {
            return layout;
        }
        let rng = (range - 1) as i64;
        let mut q: i64 = -rng;
        while q <= rng
            invariant
                0 <= rng,
                hex_norm(center.0 as int, center.1 as int) + rng + 1 <= COORD_BOUND as int,
                -rng <= q <= rng + 1,
                layout.wf(),
                forall|p: HexPosition|
                    layout@.dom().contains(p) <==> (hex_dist(center, p) <= rng && p.0 - center.0
                        < q),
                forall|p: HexPosition|
                    #[trigger] layout@.dom().contains(p) ==> call_ensures(
                        D::default,
                        (),
                        layout@[p],
                    ),
            decreases rng + 1 - q,
        {
            let mut rr: i64 = -rng;
            while rr <= rng
                invariant
                    0 <= rng,
                    hex_norm(center.0 as int, center.1 as int) + rng + 1 <= COORD_BOUND as int,
                    -rng <= q <= rng,
                    -rng <= rr <= rng + 1,
                    layout.wf(),
                    forall|p: HexPosition|
                        layout@.dom().contains(p) <==> (hex_dist(center, p) <= rng && (p.0
                            - center.0 < q || (p.0 - center.0 == q && p.1 - center.1 < rr))),
                    forall|p: HexPosition|
                        #[trigger] layout@.dom().contains(p) ==> call_ensures(
                            D::default,
                            (),
                            layout@[p],
                        ),
                decreases rng + 1 - rr,
            {
                let s = -q - rr;
                if s >= -rng && s <= rng {
                    let pos = HexPosition(center.0 + q, center.1 + rr);
                    proof {
                        assert(hex_dist(center, pos) <= rng);
                        assert(hex_norm(pos.0 as int, pos.1 as int) <= hex_norm(
                            center.0 as int,
                            center.1 as int,
                        ) + rng);
                    }
                    let value = D::default();
                    layout.set(pos, value);
                    proof {
                        assert(call_ensures(D::default, (), value));
                    }
                } else {
                    proof {
                        assert(forall|p: HexPosition|
                            p.0 - center.0 == q && p.1 - center.1 == rr ==> hex_dist(center, p)
                                > rng);
                    }
                }
                rr = rr + 1;
            }
            q = q + 1;
        }
        proof {
            assert forall|p: HexPosition|
                layout@.dom().contains(p) <==> hex_dist(center, p) < range by {
                if hex_dist(center, p) <= rng {
                    assert(p.0 - center.0 <= rng);
                }
            }
            crate::iterators::lemma_ball_cardinality(center, range - 1);
            assert(layout@.dom() =~= crate::iterators::hex_ball(center, range - 1));
        }
        layout
    }
}

/// Whether a vector of positions contains the given position.
pub fn vec_contains(v: &Vec<HexPosition>, p: HexPosition) -> (r: bool)
    ensures
        r == v@.contains(p),
{
    let n = v.len();
    for i in 0..n
        invariant
            n == v@.len(),
            forall|j: int| 0 <= j < i ==> (#[trigger] v@[j]) != p,
    {
        if v[i] == p {
            return true;
        }
    }
    false
}

/// The intersection of two member sets is at most as large as either; the
/// union and intersection sizes add up to the two sizes; and the symmetric
/// difference is the union less the intersection.
pub proof fn lemma_set_algebra(a: Set<HexPosition>, b: Set<HexPosition>)
    requires
        a.finite(),
        b.finite(),
    ensures
        a.intersect(b).len() <= vstd::math::min(a.len() as int, b.len() as int),
        (a + b).len() == a.len() + b.len() - a.intersect(b).len(),
        Set::new(|p: HexPosition| a.contains(p) != b.contains(p)) =~= (a + b).difference(
            a.intersect(b),
        ),
{
    vstd::set_lib::lemma_len_intersect(a, b);
    vstd::set_lib::lemma_len_intersect(b, a);
    assert(a.intersect(b) =~= b.intersect(a));
    vstd::set_lib::lemma_set_intersect_union_lens(a, b);
}

} // verus!
