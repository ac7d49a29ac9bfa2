//! The gauge step: walkers start at fast nodes, hop along bonds, and propose new ones.

use super::{first_reached, lemma_first_reached, picked, Draw, NativeConnectome, State};
use crate::binary64::{
    at_most, floor_count, is_at_most, is_less, less, magnitude, magnitude_of, whole, Bits, ZERO,
};
use crate::graph::{bonded, Edge};
use crate::members::{ascending_members, listed};
use std::collections::BTreeSet;
use vstd::prelude::*;

verus! {

broadcast use vstd::laws_cmp::group_laws_cmp;

/// Where the gauge step stands: which candidate emits, which of its emissions is under way, how
/// many hops that walker has made, and the node it is at.
#[derive(Clone, Copy)]
pub struct Cursor {
    pub slot: usize,
    pub emission: usize,
    pub hop: usize,
    pub node: usize,
}

impl Cursor {
    /// Which draw of its node the walker is to make: walkers that start later and hops made later
    /// draw later. There is none beyond the largest number.
    pub fn emit_index(self) -> (index: Option<usize>)
        ensures
            index == if self.emission + self.hop <= usize::MAX {
                Some((self.emission + self.hop) as usize)
            } else {
                None
            },
    {
        self.emission.checked_add(self.hop)
    }
}

/// A gauge step under way.
pub struct GaugeRun {
    candidates: Vec<usize>,
    counts: Vec<usize>,
    v_th: Bits,
    h_max: usize,
    cursor: Option<Cursor>,
    n_walkers: usize,
    active: BTreeSet<usize>,
    bond_pairs: BTreeSet<(usize, usize)>,
    hops: Ghost<Seq<(usize, usize)>>,
}

/// What a gauge step holds, as mathematical values: the candidates with the number of their
/// emissions, the speed that counts as fast, the bound on the hops of a walker, where the step
/// stands, and the hops made so far.
#[verifier::ext_equal]
pub struct Gauge {
    pub candidates: Seq<usize>,
    pub counts: Seq<usize>,
    pub v_th: Bits,
    pub h_max: usize,
    pub cursor: Option<Cursor>,
    pub hops: Seq<(usize, usize)>,
}

/// What a gauge step leads to: the number of hops, the nodes that emitted or were hopped to, the
/// nodes next to these, and the bonds proposed.
pub struct GaugeOutcome {
    pub n_walkers: usize,
    pub active: BTreeSet<usize>,
    pub warm: BTreeSet<usize>,
    pub bond_pairs: BTreeSet<(usize, usize)>,
}

impl GaugeOutcome {
    /// The nodes are nodes of `s`, and each bond joins two of them, the smaller one first.
    pub open spec fn wf(self, s: State) -> bool {
        &&& forall|i: usize| #[trigger] self.active@.contains(i) ==> i < s.n()
        &&& forall|i: usize| #[trigger] self.warm@.contains(i) ==> i < s.n()
        &&& forall|pair: (usize, usize)| #[trigger]
            self.bond_pairs@.contains(pair) ==> pair.0 < pair.1 < s.n()
    }
}

/// Whether the field at `i` moves faster than `v_th`.
pub open spec fn is_fast(s: State, v_th: Bits, i: int) -> bool {
    is_less(v_th, magnitude_of(s.phi_dot[i]))
}

/// Whether the field at `i` moves no faster than `v_th`.
pub open spec fn is_slow(s: State, v_th: Bits, i: int) -> bool {
    is_at_most(magnitude_of(s.phi_dot[i]), v_th)
}

/// The pair of `a` and `b`, smaller node first.
pub open spec fn ordered(a: usize, b: usize) -> (usize, usize) {
    if a < b {
        (a, b)
    } else {
        (b, a)
    }
}

/// Whether a hop from `a` to `t` proposes a bond between `a` and `k`: both are fast and not bonded,
/// and `k` is `t` or another neighbor of `t`.
pub open spec fn proposes(s: State, v_th: Bits, hop: (usize, usize), k: usize) -> bool {
    &&& is_fast(s, v_th, hop.0 as int)
    &&& is_fast(s, v_th, k as int)
    &&& !bonded(s.rows, hop.0 as int, k as int)
    &&& k == hop.1 || (k != hop.0 && bonded(s.rows, hop.1 as int, k as int))
}

impl Gauge {
    /// Whether the candidate at `slot` emits at all, among `n` nodes.
    pub open spec fn emits(self, n: nat, slot: int) -> bool {
        self.candidates[slot] < n && self.counts[slot] > 0
    }

    /// The first emission of the first candidate at or after `slot` that emits.
    pub open spec fn start_from(self, n: nat, slot: int) -> Option<Cursor>
        decreases self.candidates.len() - slot,
    {
        if slot >= self.candidates.len() {
            None
        } else if self.emits(n, slot) {
            Some(
                Cursor { slot: slot as usize, emission: 0, hop: 0, node: self.candidates[slot] },
            )
        } else {
            self.start_from(n, slot + 1)
        }
    }

    /// Where the step stands once the walker at `c` has ended.
    pub open spec fn after_walk(self, n: nat, c: Cursor) -> Option<Cursor> {
        if c.emission + 1 < self.counts[c.slot as int] {
            Some(
                Cursor {
                    slot: c.slot,
                    emission: (c.emission + 1) as usize,
                    hop: 0,
                    node: self.candidates[c.slot as int],
                },
            )
        } else {
            self.start_from(n, c.slot + 1)
        }
    }

    /// Whether the walker at `c` goes on once it has hopped to `to`.
    pub open spec fn goes_on(self, s: State, c: Cursor, to: usize) -> bool {
        c.hop + 1 < self.h_max && !is_slow(s, self.v_th, to as int)
    }

    /// Where the step stands once the walker at `c` has hopped to `to`: a walker goes on from a
    /// node that is not slow until its hops are used up.
    pub open spec fn after_hop(self, s: State, c: Cursor, to: usize) -> Option<Cursor> {
        if self.goes_on(s, c, to) {
            Some(Cursor { slot: c.slot, emission: c.emission, hop: (c.hop + 1) as usize, node: to })
        } else {
            self.after_walk(s.n(), c)
        }
    }

    /// The step after the walker at `c` picked a node to hop to, or none.
    pub open spec fn next(self, s: State, c: Cursor, pick: Option<usize>) -> Gauge {
        match pick {
            None => Gauge { cursor: self.after_walk(s.n(), c), ..self },
            Some(to) => Gauge {
                cursor: self.after_hop(s, c, to),
                hops: self.hops.push((c.node, to)),
                ..self
            },
        }
    }

    /// Whether a candidate that has begun to emit is `i`.
    pub open spec fn has_emitted(self, n: nat, i: usize) -> bool {
        exists|slot: int|
            0 <= slot < self.candidates.len() && #[trigger] self.candidates[slot] == i && self.emits(
                n,
                slot,
            ) && (self.cursor matches Some(c) ==> slot <= c.slot)
    }

    /// Whether a walker hopped from `i` or to it.
    pub open spec fn was_hopped(self, i: usize) -> bool {
        exists|h: int|
            0 <= h < self.hops.len() && ((#[trigger] self.hops[h]).0 == i || self.hops[h].1 == i)
    }

    /// Whether `i` emitted or was hopped from or to.
    pub open spec fn is_active(self, n: nat, i: usize) -> bool {
        self.has_emitted(n, i) || self.was_hopped(i)
    }

    /// Whether a hop proposed the bond `pair`.
    pub open spec fn is_proposed(self, s: State, pair: (usize, usize)) -> bool {
        exists|h: int, k: usize|
            0 <= h < self.hops.len() && #[trigger] proposes(s, self.v_th, self.hops[h], k) && pair
                == ordered(self.hops[h].0, k)
    }

    /// The nodes that emitted or were hopped from or to.
    pub open spec fn active_set(self, s: State) -> Set<usize> {
        Set::new(|i: usize| self.is_active(s.n(), i))
    }

    /// The nodes next to an active one that are not active.
    pub open spec fn warm_set(self, s: State) -> Set<usize> {
        Set::new(|t: usize| is_next_to(s, self.active_set(s), t))
    }

    /// The bonds proposed.
    pub open spec fn proposed_set(self, s: State) -> Set<(usize, usize)> {
        Set::new(|pair: (usize, usize)| self.is_proposed(s, pair))
    }

    /// The step stands at an emission of a candidate that emits, at a node, with hops left; every
    /// hop made is along a bond.
    pub open spec fn wf(self, s: State) -> bool {
        &&& self.counts.len() == self.candidates.len()
        &&& self.candidates.len() <= usize::MAX
        &&& self.h_max >= 1
        &&& self.cursor matches Some(c) ==> {
            &&& c.slot < self.candidates.len()
            &&& self.emits(s.n(), c.slot as int)
            &&& c.emission < self.counts[c.slot as int]
            &&& c.hop < self.h_max
            &&& c.node < s.n()
        }
        &&& forall|h: int|
            0 <= h < self.hops.len() ==> bonded(
                s.rows,
                (#[trigger] self.hops[h]).0 as int,
                self.hops[h].1 as int,
            )
    }
}

impl View for GaugeRun {
    type V = Gauge;

    closed spec fn view(&self) -> Gauge {
        Gauge {
            candidates: self.candidates@,
            counts: self.counts@,
            v_th: self.v_th,
            h_max: self.h_max,
            cursor: self.cursor,
            hops: self.hops@,
        }
    }
}

impl GaugeRun {
    /// The run is well-formed over the state `s` and has kept its counts.
    pub open spec fn wf(&self, s: State) -> bool {
        self@.wf(s) && self.counted(s)
    }

    /// The run has kept count of its hops, of the active nodes and of the proposed bonds.
    pub closed spec fn counted(&self, s: State) -> bool {
        &&& self.n_walkers == self@.hops.len()
        &&& forall|i: usize| #[trigger] self.active@.contains(i) <==> self@.is_active(s.n(), i)
        &&& forall|pair: (usize, usize)| #[trigger]
            self.bond_pairs@.contains(pair) <==> self@.is_proposed(s, pair)
    }

    /// Where the step stands; nowhere, once all emissions are done.
    pub fn pending(&self) -> (cursor: Option<Cursor>)
        ensures
            cursor == self@.cursor,
    {
        self.cursor
    }

    /// The number of hops made.
    pub fn hop_count(&self, conn: &NativeConnectome) -> (count: usize)
        requires
            self.wf(conn@),
        ensures
            count == self@.hops.len(),
    {
        self.n_walkers
    }

    /// The first emission of the first candidate at or after `slot` that emits.
    fn find_start(&self, n: usize, slot: usize) -> (r: Option<Cursor>)
        requires
            self@.counts.len() == self@.candidates.len(),
            slot <= self@.candidates.len(),
        ensures
            r == self@.start_from(n as nat, slot as int),
    {
        let mut at: usize = slot;
        while at < self.candidates.len()
            invariant
                self@.counts.len() == self@.candidates.len(),
                at <= self@.candidates.len(),
                self@.start_from(n as nat, slot as int) == self@.start_from(n as nat, at as int),
            decreases self@.candidates.len() - at,
        {
            if self.candidates[at] < n && self.counts[at] > 0 {
                return Some(
                    Cursor { slot: at, emission: 0, hop: 0, node: self.candidates[at] },
                );
            }
            at = at + 1;
        }
        None
    }

    /// Ends the walker at `c` and turns to the next emission.
    fn end_walk(&mut self, conn: &NativeConnectome, c: Cursor)
        requires
            old(self).wf(conn@),
            conn.wf(),
            old(self)@.cursor == Some(c),
        ensures
            final(self).wf(conn@),
            final(self)@ == (Gauge {
                cursor: old(self)@.after_walk(conn@.n(), c),
                ..old(self)@
            }),
    {
        let n = conn.graph.len();
        let ghost before = self@;
        if c.emission + 1 < self.counts[c.slot] {
            self.cursor = Some(
                Cursor {
                    slot: c.slot,
                    emission: c.emission + 1,
                    hop: 0,
                    node: self.candidates[c.slot],
                },
            );
            assert forall|i: usize| #[trigger] self.active@.contains(i) <==> self@.is_active(
                n as nat,
                i,
            ) by {
                lemma_emitted_same_slot(before, self@, n as nat, i);
                lemma_hopped_same_hops(before, self@, i);
            }
        } else {
            let next = self.find_start(n, c.slot + 1);
            proof {
                lemma_start_from(before, n as nat, c.slot + 1);
            }
            self.cursor = next;
            if let Some(d) = next {
                self.active.insert(d.node);
            }
            assert forall|i: usize| #[trigger] self.active@.contains(i) <==> self@.is_active(
                n as nat,
                i,
            ) by {
                assert(old(self).active@.contains(i) <==> before.is_active(n as nat, i));
                lemma_emitted_next_slot(before, self@, n as nat, c, i);
                lemma_hopped_same_hops(before, self@, i);
            }
        }
        assert forall|pair: (usize, usize)| #[trigger]
            self.bond_pairs@.contains(pair) <==> self@.is_proposed(conn@, pair) by {
            assert(old(self).bond_pairs@.contains(pair) <==> before.is_proposed(conn@, pair));
            lemma_proposed_same_hops(before, self@, conn@, pair);
        }
    }

    /// Takes in a hop from `a` to its neighbor `to`: both become active, and `a` proposes bonds to
    /// `to` and its neighbors as far as these and `a` are fast and not bonded.
    fn record_hop(&mut self, conn: &NativeConnectome, a: usize, to: usize)
        requires
            old(self).wf(conn@),
            conn.wf(),
            bonded(conn@.rows, a as int, to as int),
            old(self)@.hops.len() < usize::MAX,
            old(self)@.cursor is Some,
        ensures
            final(self).wf(conn@),
            final(self)@ == (Gauge { hops: old(self)@.hops.push((a, to)), ..old(self)@ }),
    {
        let ghost s = conn@;
        let ghost before = self@;
        assert(bonded(s.rows, to as int, a as int));
        self.n_walkers += 1;
        self.active.insert(a);
        self.active.insert(to);
        let a_fast = less(self.v_th, magnitude(conn.phi_dot[a]));
        if a_fast && less(self.v_th, magnitude(conn.phi_dot[to])) {
            if !conn.graph.has_bond(a, to) {
                let pair = if a < to { (a, to) } else { (to, a) };
                self.bond_pairs.insert(pair);
            }
        }
        if a_fast {
            let around = conn.graph.row(to);
            let ghost first = self.bond_pairs@;
            let ghost active = self.active@;
            assert(crate::graph::simple_row(around@, to as int, s.n() as int));
            for l in 0..around.len()
                invariant
                    s == conn@,
                    s.wf(),
                    a < s.n(),
                    around@ == s.rows[to as int],
                    is_fast(s, self.v_th, a as int),
                    crate::graph::simple_row(around@, to as int, s.n() as int),
                    self@ == before,
                    self.v_th == before.v_th,
                    self.active@ == active,
                    self.n_walkers == before.hops.len() + 1,
                    forall|pair: (usize, usize)| #[trigger]
                        self.bond_pairs@.contains(pair) <==> first.contains(pair) || exists|m: int|
                            0 <= m < l && #[trigger] closes(s, self.v_th, a, around@, m, pair),
            {
                let k = around[l].target;
                let ghost pairs = self.bond_pairs@;
                if k != a && less(self.v_th, magnitude(conn.phi_dot[k])) && !conn.graph.has_bond(
                    a,
                    k,
                ) {
                    let pair = if a < k { (a, k) } else { (k, a) };
                    self.bond_pairs.insert(pair);
                    assert(closes(s, self.v_th, a, around@, l as int, pair));
                }
                assert forall|pair: (usize, usize)| #[trigger]
                    self.bond_pairs@.contains(pair) <==> first.contains(pair) || exists|m: int|
                        0 <= m < l + 1 && #[trigger] closes(s, self.v_th, a, around@, m, pair) by {
                    if pairs.contains(pair) && !first.contains(pair) {
                        let m = choose|m: int|
                            0 <= m < l && #[trigger] closes(s, self.v_th, a, around@, m, pair);
                        assert(closes(s, self.v_th, a, around@, m, pair));
                    }
                    if exists|m: int|
                        0 <= m < l + 1 && #[trigger] closes(s, self.v_th, a, around@, m, pair) {
                        let m = choose|m: int|
                            0 <= m < l + 1 && #[trigger] closes(s, self.v_th, a, around@, m, pair);
                        if m < l {
                            assert(pairs.contains(pair));
                        }
                    }
                }
            }
        }
        proof {
            self.hops@ = self.hops@.push((a, to));
        }
        let ghost after = self@;
        assert forall|i: usize| #[trigger] self.active@.contains(i) <==> after.is_active(
            s.n(),
            i,
        ) by {
            assert(old(self).active@.contains(i) <==> before.is_active(s.n(), i));
            lemma_active_push(before, after, s.n(), (a, to), i);
        }
        assert forall|pair: (usize, usize)| #[trigger]
            self.bond_pairs@.contains(pair) <==> after.is_proposed(s, pair) by {
            assert(old(self).bond_pairs@.contains(pair) <==> before.is_proposed(s, pair));
            lemma_proposed_push(before, after, s, (a, to), pair);
            lemma_proposals(s, before.v_th, a, to, pair);
        }
    }

    /// Takes the walker that the step stands at one hop further by `draw`, or ends it.
    pub fn propagate_one(&mut self, conn: &NativeConnectome, draw: &Draw)
        requires
            conn.wf(),
            old(self).wf(conn@),
            old(self)@.cursor matches Some(c) && draw.cdf@.len()
                == conn@.rows[c.node as int].len(),
            old(self)@.hops.len() < usize::MAX,
        ensures
            final(self).wf(conn@),
            final(self)@ == old(self)@.next(
                conn@,
                old(self)@.cursor->0,
                picked(
                    conn@.rows[old(self)@.cursor->0.node as int],
                    draw.w_sum,
                    draw.u,
                    draw.cdf@,
                ),
            ),
    {
        if let Some(c) = self.cursor {
            match conn.select_neighbor(c.node, draw) {
                None => {
                    self.end_walk(conn, c);
                },
                Some(to) => {
                    proof {
                        lemma_picked_bonded(conn@, c.node, draw.w_sum, draw.u, draw.cdf@);
                    }
                    self.record_hop(conn, c.node, to);
                    if c.hop + 1 < self.h_max && !at_most(magnitude(conn.phi_dot[to]), self.v_th) {
                        let ghost before = self@;
                        let ghost n = conn@.n();
                        assert(forall|i: usize| #[trigger]
                            self.active@.contains(i) <==> before.is_active(n, i));
                        assert(forall|pair: (usize, usize)| #[trigger]
                            self.bond_pairs@.contains(pair) <==> before.is_proposed(conn@, pair));
                        self.cursor = Some(
                            Cursor {
                                slot: c.slot,
                                emission: c.emission,
                                hop: c.hop + 1,
                                node: to,
                            },
                        );
                        assert forall|i: usize| #[trigger]
                            self.active@.contains(i) <==> self@.is_active(n, i) by {
                            lemma_emitted_same_slot(before, self@, n, i);
                            lemma_hopped_same_hops(before, self@, i);
                        }
                        assert forall|pair: (usize, usize)| #[trigger]
                            self.bond_pairs@.contains(pair) <==> self@.is_proposed(conn@, pair) by {
                            lemma_proposed_same_hops(before, self@, conn@, pair);
                        }
                    } else {
                        proof {
                            lemma_start_same(old(self)@, self@, conn@.n(), c.slot + 1);
                        }
                        self.end_walk(conn, c);
                    }
                },
            }
        }
    }

    /// What the step led to, once all emissions are done.
    pub fn finish(self, conn: &NativeConnectome) -> (outcome: GaugeOutcome)
        requires
            conn.wf(),
            self.wf(conn@),
            self@.cursor is None,
        ensures
            outcome.wf(conn@),
            outcome.n_walkers == self@.hops.len(),
            outcome.active@ == self@.active_set(conn@),
            outcome.warm@ == self@.warm_set(conn@),
            outcome.bond_pairs@ == self@.proposed_set(conn@),
    {
        let ghost s = conn@;
        let active_list = ascending_members(&self.active);
        let mut warm: BTreeSet<usize> = BTreeSet::new();
        assert forall|i: usize| #[trigger] self.active@.contains(i) implies i < s.n() by {
            lemma_active_in_range(self@, s, i);
        }
        for a in 0..active_list.len()
            invariant
                s == conn@,
                s.wf(),
                forall|i: usize| #[trigger] self.active@.contains(i) <==> listed(active_list@, i as int),
                forall|i: usize| #[trigger] self.active@.contains(i) ==> i < s.n(),
                forall|t: usize| #[trigger]
                    warm@.contains(t) <==> !self.active@.contains(t) && exists|b: int|
                        0 <= b < a && bonded(s.rows, #[trigger] active_list@[b] as int, t as int),
        {
            let i = active_list[a];
            assert(listed(active_list@, active_list@[a as int] as int));
            assert(self.active@.contains(i));
            let row = conn.graph.row(i);
            let ghost before = warm@;
            for k in 0..row.len()
                invariant
                    row@ == s.rows[i as int],
                    forall|t: usize| #[trigger]
                        warm@.contains(t) <==> before.contains(t) || (!self.active@.contains(t)
                            && exists|l: int| 0 <= l < k && (#[trigger] row@[l]).target == t),
            {
                let target = row[k].target;
                let ghost inner = warm@;
                if !self.active.contains(&target) {
                    warm.insert(target);
                }
                assert forall|t: usize| #[trigger]
                    warm@.contains(t) <==> before.contains(t) || (!self.active@.contains(t)
                        && exists|l: int| 0 <= l < k + 1 && (#[trigger] row@[l]).target == t) by {
                    if t == target {
                        assert(row@[k as int].target == t);
                    }
                    if inner.contains(t) && !before.contains(t) {
                        let l = choose|l: int| 0 <= l < k && (#[trigger] row@[l]).target == t;
                        assert(row@[l].target == t);
                    }
                }
            }
            assert forall|t: usize| #[trigger]
                warm@.contains(t) <==> !self.active@.contains(t) && exists|b: int|
                    0 <= b < a + 1 && bonded(s.rows, #[trigger] active_list@[b] as int, t as int) by {
                if before.contains(t) {
                    let b = choose|b: int|
                        0 <= b < a && bonded(s.rows, #[trigger] active_list@[b] as int, t as int);
                    assert(bonded(s.rows, active_list@[b] as int, t as int));
                } else if warm@.contains(t) {
                    assert(bonded(s.rows, active_list@[a as int] as int, t as int));
                }
            }
        }
        assert forall|t: usize| #[trigger] warm@.contains(t) <==> is_next_to(
            s,
            self.active@,
            t,
        ) by {
            if warm@.contains(t) {
                let b = choose|b: int|
                    0 <= b < active_list@.len() && bonded(
                        s.rows,
                        #[trigger] active_list@[b] as int,
                        t as int,
                    );
                assert(listed(active_list@, active_list@[b] as int));
                assert(self.active@.contains(active_list@[b]));
            }
            if is_next_to(s, self.active@, t) {
                let i = choose|i: usize| #[trigger]
                    self.active@.contains(i) && bonded(s.rows, i as int, t as int);
                let b = choose|b: int| 0 <= b < active_list@.len() && #[trigger] active_list@[b] == i;
                assert(bonded(s.rows, active_list@[b] as int, t as int));
            }
        }
        assert forall|t: usize| #[trigger] warm@.contains(t) implies t < s.n() by {
            let i = choose|i: usize| #[trigger]
                self.active@.contains(i) && bonded(s.rows, i as int, t as int);
            assert(bonded(s.rows, t as int, i as int));
        }
        assert forall|pair: (usize, usize)| #[trigger] self.bond_pairs@.contains(pair) implies pair.0
            < pair.1 < s.n() by {
            lemma_proposed_pair(self@, s, pair);
        }
        assert(self.active@ =~= self@.active_set(s));
        assert(warm@ =~= self@.warm_set(s));
        assert(self.bond_pairs@ =~= self@.proposed_set(s));
        GaugeOutcome {
            n_walkers: self.n_walkers,
            active: self.active,
            warm,
            bond_pairs: self.bond_pairs,
        }
    }
}

impl NativeConnectome {
    /// Begins the gauge step. Each candidate emits as many walkers as its ratio rounded down says.
    /// `v_root` is the speed that counts as fast, and `reach`, rounded down, the bound on the hops
    /// of a walker, which has one hop at least. At rest nobody emits.
    pub fn run_gauge_step(
        &self,
        candidate_nodes: Vec<usize>,
        ratios: &[Bits],
        v_root: Bits,
        reach: Bits,
    ) -> (run: GaugeRun)
        requires
            self.wf(),
            ratios@.len() == candidate_nodes@.len(),
        ensures
            run.wf(self@),
            run@ == gauge_start(self@, candidate_nodes@, ratios@, v_root, reach),
    {
        let v_th = if at_most(self.k_t, ZERO) { ZERO } else { v_root };
        let hops = floor_count(reach);
        let h_max = if hops > 1 { hops } else { 1 };
        let still = at_most(v_th, ZERO);
        let mut counts: Vec<usize> = Vec::new();
        for k in 0..ratios.len()
            invariant
                counts@ == emission_counts(ratios@).take(k as int),
        {
            counts.push(floor_count(ratios[k]));
        }
        assert(counts@ =~= emission_counts(ratios@));
        let mut run = GaugeRun {
            candidates: if still { Vec::new() } else { candidate_nodes },
            counts: if still { Vec::new() } else { counts },
            v_th,
            h_max,
            cursor: None,
            n_walkers: 0,
            active: BTreeSet::new(),
            bond_pairs: BTreeSet::new(),
            hops: Ghost(Seq::empty()),
        };
        let ghost idle = run@;
        assert(idle.candidates.len() == run.candidates.len());
        let n = self.graph.len();
        let first = run.find_start(n, 0);
        proof {
            lemma_start_from(idle, n as nat, 0);
        }
        run.cursor = first;
        if let Some(c) = first {
            run.active.insert(c.node);
        }
        assert(run@ =~= gauge_start(self@, candidate_nodes@, ratios@, v_root, reach));
        assert forall|i: usize| #[trigger] run.active@.contains(i) <==> run@.is_active(n as nat, i) by {
            assert forall|slot: int| run@.emits(n as nat, slot) == idle.emits(n as nat, slot) by {}
            if let Some(c) = first {
                assert(run@.candidates[c.slot as int] == c.node);
            }
            if run@.has_emitted(n as nat, i) {
                let slot = choose|slot: int|
                    0 <= slot < run@.candidates.len() && #[trigger] run@.candidates[slot] == i
                        && run@.emits(n as nat, slot) && (run@.cursor matches Some(c) ==> slot
                        <= c.slot);
                assert(idle.emits(n as nat, slot));
            }
        }
        run
    }
}

/// Whether `t` is bonded to a node in `active` and is not in it itself.
pub open spec fn is_next_to(s: State, active: Set<usize>, t: usize) -> bool {
    !active.contains(t) && exists|i: usize| #[trigger]
        active.contains(i) && bonded(s.rows, i as int, t as int)
}

/// The speed that counts as fast: 0 at rest, and `v_root` otherwise.
pub open spec fn speed_threshold(s: State, v_root: Bits) -> Bits {
    if is_at_most(s.k_t, ZERO) {
        ZERO
    } else {
        v_root
    }
}

/// The number of emissions for each ratio.
pub open spec fn emission_counts(ratios: Seq<Bits>) -> Seq<usize> {
    Seq::new(ratios.len(), |k: int| whole(ratios[k]) as usize)
}

/// The gauge step before any hop.
pub open spec fn gauge_start(
    s: State,
    candidates: Seq<usize>,
    ratios: Seq<Bits>,
    v_root: Bits,
    reach: Bits,
) -> Gauge {
    let v_th = speed_threshold(s, v_root);
    let still = is_at_most(v_th, ZERO);
    let idle = Gauge {
        candidates: if still { Seq::empty() } else { candidates },
        counts: if still { Seq::empty() } else { emission_counts(ratios) },
        v_th,
        h_max: if whole(reach) > 1 { whole(reach) as usize } else { 1 },
        cursor: None,
        hops: Seq::empty(),
    };
    Gauge { cursor: idle.start_from(s.n(), 0), ..idle }
}

/// Whoever emitted or was hopped from or to is a node.
pub proof fn lemma_active_in_range(g: Gauge, s: State, i: usize)
    requires
        s.wf(),
        g.wf(s),
        g.is_active(s.n(), i),
    ensures
        i < s.n(),
{
    if g.was_hopped(i) {
        let h = choose|h: int|
            0 <= h < g.hops.len() && ((#[trigger] g.hops[h]).0 == i || g.hops[h].1 == i);
        let (a, t) = g.hops[h];
        assert(bonded(s.rows, a as int, t as int));
        assert(bonded(s.rows, t as int, a as int));
    }
}

/// A proposed bond joins two fast nodes that have none, and that have a neighbor in common; the
/// smaller node stands first.
pub proof fn lemma_proposed_pair(g: Gauge, s: State, pair: (usize, usize))
    requires
        s.wf(),
        g.wf(s),
        g.is_proposed(s, pair),
    ensures
        pair.0 < pair.1 < s.n(),
        is_fast(s, g.v_th, pair.0 as int),
        is_fast(s, g.v_th, pair.1 as int),
        !bonded(s.rows, pair.0 as int, pair.1 as int),
        exists|t: int|
            #![trigger bonded(s.rows, pair.0 as int, t)]
            bonded(s.rows, pair.0 as int, t) && bonded(s.rows, t, pair.1 as int),
{
    let (h, k) = choose|h: int, k: usize|
        0 <= h < g.hops.len() && #[trigger] proposes(s, g.v_th, g.hops[h], k) && pair == ordered(
            g.hops[h].0,
            k,
        );
    let (a, t) = g.hops[h];
    assert(bonded(s.rows, a as int, t as int));
    assert(bonded(s.rows, t as int, a as int));
    assert(bonded(s.rows, t as int, k as int));
    assert(bonded(s.rows, k as int, t as int));
    if bonded(s.rows, pair.0 as int, pair.1 as int) {
        assert(bonded(s.rows, pair.1 as int, pair.0 as int));
    }
    assert(bonded(s.rows, pair.0 as int, t as int) && bonded(s.rows, t as int, pair.1 as int));
}

/// Whether edge `m` of `around` leads to a node that can be bonded to `a` as `pair`.
spec fn closes(
    s: State,
    v_th: Bits,
    a: usize,
    around: Seq<Edge>,
    m: int,
    pair: (usize, usize),
) -> bool {
    let k = around[m].target;
    k != a && is_fast(s, v_th, k as int) && !bonded(s.rows, a as int, k as int) && pair == ordered(a, k)
}

/// What a hop proposes, edge by edge.
proof fn lemma_proposals(s: State, v_th: Bits, a: usize, to: usize, pair: (usize, usize))
    requires
        s.wf(),
        to < s.n(),
    ensures
        (exists|k: usize| #[trigger] proposes(s, v_th, (a, to), k) && pair == ordered(a, k)) <==> (
        is_fast(s, v_th, a as int) && ((is_fast(s, v_th, to as int) && !bonded(
            s.rows,
            a as int,
            to as int,
        ) && pair == ordered(a, to)) || (exists|m: int|
            0 <= m < s.rows[to as int].len() && #[trigger] closes(
                s,
                v_th,
                a,
                s.rows[to as int],
                m,
                pair,
            )))),
{
    let around = s.rows[to as int];
    if exists|k: usize| #[trigger] proposes(s, v_th, (a, to), k) && pair == ordered(a, k) {
        let k = choose|k: usize| #[trigger] proposes(s, v_th, (a, to), k) && pair == ordered(a, k);
        if k != to {
            let m = choose|m: int| 0 <= m < around.len() && (#[trigger] around[m]).target == k;
            assert(closes(s, v_th, a, around, m, pair));
        }
    }
    if is_fast(s, v_th, a as int) {
        if is_fast(s, v_th, to as int) && !bonded(s.rows, a as int, to as int) && pair == ordered(
            a,
            to,
        ) {
            assert(proposes(s, v_th, (a, to), to));
        }
        if exists|m: int| 0 <= m < around.len() && #[trigger] closes(s, v_th, a, around, m, pair) {
            let m = choose|m: int|
                0 <= m < around.len() && #[trigger] closes(s, v_th, a, around, m, pair);
            let k = around[m].target;
            assert(bonded(s.rows, to as int, k as int));
            assert(proposes(s, v_th, (a, to), k));
        }
    }
}

/// One more hop adds the bonds that it proposes.
proof fn lemma_proposed_push(
    a: Gauge,
    b: Gauge,
    s: State,
    hop: (usize, usize),
    pair: (usize, usize),
)
    requires
        b.hops == a.hops.push(hop),
        a.v_th == b.v_th,
    ensures
        b.is_proposed(s, pair) <==> a.is_proposed(s, pair) || exists|k: usize| #[trigger]
            proposes(s, a.v_th, hop, k) && pair == ordered(hop.0, k),
{
    if a.is_proposed(s, pair) {
        let (h, k) = choose|h: int, k: usize|
            0 <= h < a.hops.len() && #[trigger] proposes(s, a.v_th, a.hops[h], k) && pair == ordered(
                a.hops[h].0,
                k,
            );
        assert(proposes(s, b.v_th, b.hops[h], k));
    }
    if exists|k: usize| #[trigger] proposes(s, a.v_th, hop, k) && pair == ordered(hop.0, k) {
        let k = choose|k: usize| #[trigger]
            proposes(s, a.v_th, hop, k) && pair == ordered(hop.0, k);
        assert(proposes(s, b.v_th, b.hops[a.hops.len() as int], k));
    }
    if b.is_proposed(s, pair) {
        let (h, k) = choose|h: int, k: usize|
            0 <= h < b.hops.len() && #[trigger] proposes(s, b.v_th, b.hops[h], k) && pair == ordered(
                b.hops[h].0,
                k,
            );
        if h < a.hops.len() {
            assert(proposes(s, a.v_th, a.hops[h], k));
        } else {
            assert(proposes(s, a.v_th, hop, k));
        }
    }
}

/// One more hop makes its two ends active.
proof fn lemma_active_push(a: Gauge, b: Gauge, n: nat, hop: (usize, usize), i: usize)
    requires
        b == (Gauge { hops: a.hops.push(hop), ..a }),
        a.cursor is Some,
    ensures
        b.is_active(n, i) <==> a.is_active(n, i) || i == hop.0 || i == hop.1,
{
    lemma_emitted_same_slot(a, b, n, i);
    if a.was_hopped(i) {
        let h = choose|h: int|
            0 <= h < a.hops.len() && ((#[trigger] a.hops[h]).0 == i || a.hops[h].1 == i);
        assert(b.hops[h].0 == i || b.hops[h].1 == i);
    }
    if i == hop.0 || i == hop.1 {
        assert(b.hops[a.hops.len() as int] == hop);
    }
    if b.was_hopped(i) {
        let h = choose|h: int|
            0 <= h < b.hops.len() && ((#[trigger] b.hops[h]).0 == i || b.hops[h].1 == i);
        if h < a.hops.len() {
            assert(a.hops[h].0 == i || a.hops[h].1 == i);
        }
    }
}

/// A draw picks a neighbor.
pub proof fn lemma_picked_bonded(s: State, node: usize, w_sum: Bits, u: Bits, cdf: Seq<Bits>)
    requires
        node < s.n(),
        cdf.len() == s.rows[node as int].len(),
    ensures
        picked(s.rows[node as int], w_sum, u, cdf) matches Some(to) ==> bonded(
            s.rows,
            node as int,
            to as int,
        ),
{
    lemma_first_reached(cdf, u, 0);
    let row = s.rows[node as int];
    if let Some(to) = picked(row, w_sum, u, cdf) {
        let k = first_reached(cdf, u, 0);
        if k < row.len() {
            assert(row[k].target == to);
        } else {
            assert(row[row.len() - 1].target == to);
        }
    }
}

/// What the search for the next emitting candidate finds.
pub proof fn lemma_start_from(g: Gauge, n: nat, slot: int)
    requires
        0 <= slot,
        g.candidates.len() <= usize::MAX,
    ensures
        match g.start_from(n, slot) {
            Some(c) => {
                &&& slot <= c.slot < g.candidates.len()
                &&& g.emits(n, c.slot as int)
                &&& c == (Cursor {
                    slot: c.slot,
                    emission: 0,
                    hop: 0,
                    node: g.candidates[c.slot as int],
                })
                &&& forall|k: int| slot <= k < c.slot ==> !#[trigger] g.emits(n, k)
            },
            None => forall|k: int| slot <= k < g.candidates.len() ==> !#[trigger] g.emits(n, k),
        },
    decreases g.candidates.len() - slot,
{
    if slot < g.candidates.len() && !g.emits(n, slot) {
        lemma_start_from(g, n, slot + 1);
    }
}

/// Which candidate emits next depends on the candidates and their emissions alone.
pub proof fn lemma_start_same(a: Gauge, b: Gauge, n: nat, slot: int)
    requires
        a.candidates == b.candidates,
        a.counts == b.counts,
    ensures
        a.start_from(n, slot) == b.start_from(n, slot),
    decreases a.candidates.len() - slot,
{
    if slot < a.candidates.len() && !a.emits(n, slot) {
        lemma_start_same(a, b, n, slot + 1);
    }
}

/// Who has emitted does not change while the same candidate emits.
proof fn lemma_emitted_same_slot(a: Gauge, b: Gauge, n: nat, i: usize)
    requires
        a.candidates == b.candidates,
        a.counts == b.counts,
        a.cursor is Some,
        b.cursor is Some,
        a.cursor->0.slot == b.cursor->0.slot,
    ensures
        a.has_emitted(n, i) == b.has_emitted(n, i),
{
    assert forall|slot: int| a.emits(n, slot) == b.emits(n, slot) by {}
    if a.has_emitted(n, i) {
        let slot = choose|slot: int|
            0 <= slot < a.candidates.len() && #[trigger] a.candidates[slot] == i && a.emits(n, slot)
                && (a.cursor matches Some(c) ==> slot <= c.slot);
        assert(b.candidates[slot] == i);
    }
    if b.has_emitted(n, i) {
        let slot = choose|slot: int|
            0 <= slot < b.candidates.len() && #[trigger] b.candidates[slot] == i && b.emits(n, slot)
                && (b.cursor matches Some(c) ==> slot <= c.slot);
        assert(a.candidates[slot] == i);
    }
}

/// When the next candidate begins to emit, it is the only one to be added.
proof fn lemma_emitted_next_slot(a: Gauge, b: Gauge, n: nat, c: Cursor, i: usize)
    requires
        a.candidates.len() <= usize::MAX,
        a.cursor == Some(c),
        b == (Gauge { cursor: a.start_from(n, c.slot + 1), ..a }),
    ensures
        b.has_emitted(n, i) == (a.has_emitted(n, i) || (b.cursor matches Some(d) && d.node == i)),
{
    lemma_start_from(a, n, c.slot + 1);
    assert forall|slot: int| a.emits(n, slot) == b.emits(n, slot) by {}
    if a.has_emitted(n, i) {
        let slot = choose|slot: int|
            0 <= slot < a.candidates.len() && #[trigger] a.candidates[slot] == i && a.emits(n, slot)
                && (a.cursor matches Some(c) ==> slot <= c.slot);
        assert(b.candidates[slot] == i);
    }
    if let Some(d) = b.cursor {
        if d.node == i {
            assert(b.candidates[d.slot as int] == i);
        }
    }
    if b.has_emitted(n, i) {
        let slot = choose|slot: int|
            0 <= slot < b.candidates.len() && #[trigger] b.candidates[slot] == i && b.emits(n, slot)
                && (b.cursor matches Some(c) ==> slot <= c.slot);
        assert(a.candidates[slot] == i);
        assert(a.emits(n, slot));
    }
}

/// Who was hopped from or to depends on the hops alone.
proof fn lemma_hopped_same_hops(a: Gauge, b: Gauge, i: usize)
    requires
        a.hops == b.hops,
    ensures
        a.was_hopped(i) == b.was_hopped(i),
{
    if a.was_hopped(i) {
        let h = choose|h: int|
            0 <= h < a.hops.len() && ((#[trigger] a.hops[h]).0 == i || a.hops[h].1 == i);
        assert(b.hops[h].0 == i || b.hops[h].1 == i);
    }
    if b.was_hopped(i) {
        let h = choose|h: int|
            0 <= h < b.hops.len() && ((#[trigger] b.hops[h]).0 == i || b.hops[h].1 == i);
        assert(a.hops[h].0 == i || a.hops[h].1 == i);
    }
}

/// The bonds proposed depend on the hops alone.
proof fn lemma_proposed_same_hops(a: Gauge, b: Gauge, s: State, pair: (usize, usize))
    requires
        a.hops == b.hops,
        a.v_th == b.v_th,
    ensures
        a.is_proposed(s, pair) == b.is_proposed(s, pair),
{
}

} // verus!
