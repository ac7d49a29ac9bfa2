//! The start and the plan of a step: who is looked at, and what is to be computed.

use super::gauge::GaugeOutcome;
use super::{is_stimulus, NativeConnectome, State, DRIVE_FLOOR};
use crate::binary64::{less, magnitude};
use crate::graph::bonded;
use crate::members::{
    ascending, ascending_members, ascending_pair_members, ascending_pairs, insert_all,
    lemma_listed_push, lemma_listed_take, listed,
};
use vstd::prelude::*;

verus! {

broadcast use vstd::laws_cmp::group_laws_cmp;

/// The nodes that a step starts from: those with a stimulus, and those that may emit.
pub struct StepStart {
    pub stim_nodes: Vec<usize>,
    pub candidates: Vec<usize>,
}

/// What a step will work on: the active nodes, those to compute, and the bonds proposed, each in
/// ascending order, with the counts that go into the report.
pub struct StepPlan {
    pub n_walkers: usize,
    pub n_stimulated: usize,
    pub n_warm: usize,
    pub active_list: Vec<usize>,
    pub compute_list: Vec<usize>,
    pub bond_pairs: Vec<(usize, usize)>,
}

impl StepStart {
    /// A step in the state `s` starts from here: the nodes with a stimulus, and these together with
    /// the unsettled ones, each in ascending order.
    pub open spec fn opens(self, s: State) -> bool {
        &&& is_node_list(s, self.stim_nodes@)
        &&& forall|i: usize| #[trigger]
            listed(self.stim_nodes@, i as int) <==> i < s.n() && is_stimulus(s.j_ext[i as int])
        &&& is_node_list(s, self.candidates@)
        &&& forall|i: usize| #[trigger]
            listed(self.candidates@, i as int) <==> s.unsettled.contains(i) || listed(
                self.stim_nodes@,
                i as int,
            )
    }
}

impl StepPlan {
    /// Each node to compute is observed, or is among the active nodes from place `k` on.
    pub open spec fn seen_before(self, s: State, k: int) -> bool {
        forall|i: usize| #[trigger]
            listed(self.compute_list@, i as int) ==> s.observed.contains(i) || exists|l: int|
                k <= l < self.active_list@.len() && #[trigger] self.active_list@[l] == i
    }

    /// Each active node before place `k` was visited at this tick.
    pub open spec fn visited_before(self, s: State, k: int) -> bool {
        forall|j: int|
            0 <= j < k ==> s.last_visit[#[trigger] self.active_list@[j] as int] == s.tick
    }

    /// Each node to compute is observed.
    pub open spec fn all_seen(self, s: State) -> bool {
        forall|i: usize| #[trigger]
            listed(self.compute_list@, i as int) ==> s.observed.contains(i)
    }

    /// The plan is for the step in which the nodes in `stim` were stimulated and the gauge step
    /// made `n_walkers` hops and led to `active`, `warm` and `pairs`: the stimulated nodes are
    /// active, and the active, the warm and the unsettled nodes are to be computed.
    pub open spec fn describes(
        self,
        s: State,
        stim: Seq<usize>,
        n_walkers: nat,
        active: Set<usize>,
        warm: Set<usize>,
        pairs: Set<(usize, usize)>,
    ) -> bool {
        &&& self.n_walkers == n_walkers
        &&& self.n_stimulated == stim.len()
        &&& self.n_warm == Set::new(|i: usize| is_warm(s, active, warm, stim, i)).len()
        &&& forall|i: usize| #[trigger]
            listed(self.active_list@, i as int) <==> active.contains(i) || listed(stim, i as int)
        &&& forall|i: usize| #[trigger]
            listed(self.compute_list@, i as int) <==> active.contains(i) || listed(stim, i as int)
                || is_warm(s, active, warm, stim, i) || s.unsettled.contains(i)
        &&& self.bond_pairs@.to_set() == pairs
    }

    /// The lists hold nodes of `s` in ascending order, the active ones among those to compute, and
    /// each bond joins two nodes, the smaller one first.
    pub open spec fn wf(self, s: State) -> bool {
        &&& is_node_list(s, self.active_list@)
        &&& is_node_list(s, self.compute_list@)
        &&& forall|i: int| #[trigger]
            listed(self.active_list@, i) ==> listed(self.compute_list@, i)
        &&& forall|i: usize| #[trigger]
            s.unsettled.contains(i) ==> listed(self.compute_list@, i as int)
        &&& ascending_pairs(self.bond_pairs@)
        &&& forall|k: int|
            0 <= k < self.bond_pairs@.len() ==> (#[trigger] self.bond_pairs@[k]).0
                < self.bond_pairs@[k].1 < s.n()
    }
}

/// Whether stimulated node `k` of `stim` makes its neighbor `t` warm: `t` was not active before,
/// and is none of the stimulated nodes up to `k`.
pub open spec fn warms(s: State, active: Set<usize>, stim: Seq<usize>, k: int, t: usize) -> bool {
    &&& bonded(s.rows, stim[k] as int, t as int)
    &&& !active.contains(t)
    &&& !(listed(stim, t as int) && t <= stim[k])
}

/// Whether `t` is warm: next to an active node, or made warm by a stimulated one.
pub open spec fn is_warm(
    s: State,
    active: Set<usize>,
    warm: Set<usize>,
    stim: Seq<usize>,
    t: usize,
) -> bool {
    warm.contains(t) || exists|k: int|
        0 <= k < stim.len() && #[trigger] warms(s, active, stim, k, t)
}

/// Whether `stim` lists nodes of `s` in ascending order.
pub open spec fn is_node_list(s: State, stim: Seq<usize>) -> bool {
    ascending(stim) && forall|k: int| 0 <= k < stim.len() ==> #[trigger] stim[k] < s.n()
}

/// `s` after the stimulated and warm nodes came into sight: these are observed, a stimulated node
/// counts as visited now, and so does a warm one that never was.
pub open spec fn sighted(
    s: State,
    stim: Seq<usize>,
    active: Set<usize>,
    warm: Set<usize>,
) -> State {
    State {
        last_visit: Seq::new(
            s.n(),
            |i: int|
                if listed(stim, i) || (is_warm(s, active, warm, stim, i as usize)
                    && s.last_visit[i] < 0) {
                    s.tick
                } else {
                    s.last_visit[i]
                },
        ),
        observed: Set::new(
            |i: usize|
                s.observed.contains(i) || listed(stim, i as int) || is_warm(
                    s,
                    active,
                    warm,
                    stim,
                    i,
                ),
        ),
        ..s
    }
}

impl NativeConnectome {
    /// Begins the step at `tick`: the nodes with a stimulus, and these together with the unsettled
    /// ones.
    pub fn begin_step(&mut self, tick: i32) -> (start: StepStart)
        requires
            old(self).wf(),
        ensures
            final(self).wf(),
            final(self)@ == (State { tick, ..old(self)@ }),
            start.opens(old(self)@),
    {
        self.tick = tick;
        let ghost s = self@;
        let registered = ascending_members(&self.j_ext_nonzero);
        let mut stim_nodes: Vec<usize> = Vec::new();
        for k in 0..registered.len()
            invariant
                s == self@,
                s.wf(),
                ascending(registered@),
                forall|i: usize| #[trigger]
                    self.j_ext_nonzero@.contains(i) <==> listed(registered@, i as int),
                ascending(stim_nodes@),
                forall|a: int, b: int|
                    0 <= a < stim_nodes@.len() && k <= b < registered@.len() ==> (
                    #[trigger] stim_nodes@[a]) < #[trigger] registered@[b],
                forall|i: usize| #[trigger]
                    listed(stim_nodes@, i as int) <==> listed(registered@.take(k as int), i as int)
                        && is_stimulus(s.j_ext[i as int]),
        {
            let i = registered[k];
            assert(listed(registered@, registered@[k as int] as int));
            assert(s.j_ext_nonzero.contains(i));
            let ghost before = stim_nodes@;
            if i < self.graph.len() && less(DRIVE_FLOOR, magnitude(self.j_ext[i])) {
                stim_nodes.push(i);
            }
            assert forall|j: usize| #[trigger]
                listed(stim_nodes@, j as int) <==> listed(registered@.take(k + 1), j as int)
                    && is_stimulus(s.j_ext[j as int]) by {
                lemma_listed_take(registered@, k as int);
                lemma_listed_push(before, i, j as int);
                assert(listed(before, j as int) <==> listed(registered@.take(k as int), j as int)
                    && is_stimulus(s.j_ext[j as int]));
            }
        }
        assert(registered@.take(registered@.len() as int) =~= registered@);
        let mut emitters = self.unsettled_nodes.clone();
        insert_all(&mut emitters, stim_nodes.as_slice());
        let candidates = ascending_members(&emitters);
        proof {
            lemma_node_list(s, stim_nodes@);
            lemma_node_list(s, candidates@);
        }
        StepStart { stim_nodes, candidates }
    }

    /// Observes the listed nodes; a stimulated one counts as visited now, and so does a warm one
    /// that never was.
    fn come_into_sight(&mut self, stim: &[usize], warm: &[usize])
        requires
            old(self).wf(),
            forall|k: int| 0 <= k < stim@.len() ==> #[trigger] stim@[k] < old(self)@.n(),
            forall|k: int| 0 <= k < warm@.len() ==> #[trigger] warm@[k] < old(self)@.n(),
        ensures
            final(self).wf(),
            final(self)@ == (State {
                last_visit: final(self)@.last_visit,
                observed: final(self)@.observed,
                ..old(self)@
            }),
            forall|i: int|
                0 <= i < old(self)@.n() ==> #[trigger] final(self)@.last_visit[i] == if listed(
                    stim@,
                    i,
                ) || (listed(warm@, i) && old(self)@.last_visit[i] < 0) {
                    old(self)@.tick
                } else {
                    old(self)@.last_visit[i]
                },
            forall|i: usize| #[trigger]
                final(self)@.observed.contains(i) <==> old(self)@.observed.contains(i) || listed(
                    stim@,
                    i as int,
                ) || listed(warm@, i as int),
    {
        let ghost s = self@;
        let tick = self.tick;
        for k in 0..stim.len()
            invariant
                forall|k: int| 0 <= k < stim@.len() ==> #[trigger] stim@[k] < s.n(),
                s.wf(),
                tick == s.tick,
                self@ == (State {
                    last_visit: self@.last_visit,
                    observed: self@.observed,
                    ..s
                }),
                self@.last_visit.len() == s.n(),
                forall|i: int|
                    0 <= i < s.n() ==> #[trigger] self@.last_visit[i] == if listed(
                        stim@.take(k as int),
                        i,
                    ) {
                        tick
                    } else {
                        s.last_visit[i]
                    },
                forall|i: usize| #[trigger]
                    self@.observed.contains(i) <==> s.observed.contains(i) || listed(
                        stim@.take(k as int),
                        i as int,
                    ),
        {
            let i = stim[k];
            self.last_visit[i] = tick;
            self.observed_nodes.insert(i);
            proof {
                lemma_listed_take(stim@, k as int);
            }
        }
        assert(stim@.take(stim@.len() as int) =~= stim@);
        let ghost mid = self@;
        for k in 0..warm.len()
            invariant
                forall|k: int| 0 <= k < warm@.len() ==> #[trigger] warm@[k] < s.n(),
                tick == s.tick,
                mid.last_visit.len() == s.n(),
                self@ == (State {
                    last_visit: self@.last_visit,
                    observed: self@.observed,
                    ..s
                }),
                self@.last_visit.len() == s.n(),
                forall|i: int|
                    0 <= i < s.n() ==> #[trigger] self@.last_visit[i] == if listed(
                        warm@.take(k as int),
                        i,
                    ) && mid.last_visit[i] < 0 {
                        tick
                    } else {
                        mid.last_visit[i]
                    },
                forall|i: usize| #[trigger]
                    self@.observed.contains(i) <==> mid.observed.contains(i) || listed(
                        warm@.take(k as int),
                        i as int,
                    ),
        {
            let i = warm[k];
            if self.last_visit[i] < 0 {
                self.last_visit[i] = tick;
            }
            self.observed_nodes.insert(i);
            proof {
                lemma_listed_take(warm@, k as int);
            }
        }
        assert(warm@.take(warm@.len() as int) =~= warm@);
    }

    /// Brings the stimulated nodes and those that the gauge step led to into sight, and lists what
    /// is to be computed: the active, the warm and the unsettled nodes.
    pub fn plan_step(&mut self, stim_nodes: &[usize], outcome: GaugeOutcome) -> (plan: StepPlan)
        requires
            old(self).wf(),
            is_node_list(old(self)@, stim_nodes@),
            outcome.wf(old(self)@),
        ensures
            final(self).wf(),
            final(self)@ == sighted(old(self)@, stim_nodes@, outcome.active@, outcome.warm@),
            plan.wf(final(self)@),
            plan.seen_before(final(self)@, 0),
            plan.describes(
                old(self)@,
                stim_nodes@,
                outcome.n_walkers as nat,
                outcome.active@,
                outcome.warm@,
                outcome.bond_pairs@,
            ),
    {
        let ghost s = self@;
        let GaugeOutcome { n_walkers, active, warm, bond_pairs } = outcome;
        let ghost active0 = active@;
        let ghost warm0 = warm@;
        let mut active = active;
        let mut warm = warm;
        for a in 0..stim_nodes.len()
            invariant
                s == self@,
                s.wf(),
                ascending(stim_nodes@),
                forall|k: int| 0 <= k < stim_nodes@.len() ==> #[trigger] stim_nodes@[k] < s.n(),
                forall|i: usize| #[trigger]
                    active@.contains(i) <==> active0.contains(i) || listed(
                        stim_nodes@.take(a as int),
                        i as int,
                    ),
                forall|t: usize| #[trigger]
                    warm@.contains(t) <==> warm0.contains(t) || exists|k: int|
                        0 <= k < a && #[trigger] warms(s, active0, stim_nodes@, k, t),
        {
            let idx = stim_nodes[a];
            active.insert(idx);
            let ghost stim = stim_nodes@;
            proof {
                lemma_listed_take(stim, a as int);
            }
            assert forall|t: usize| listed(stim.take(a + 1), t as int) == (listed(stim, t as int) && t
                <= idx) by {
                lemma_listed_below(stim, a as int, t);
            }
            let row = self.graph.row(idx);
            let ghost before = warm@;
            for k in 0..row.len()
                invariant
                    row@ == s.rows[idx as int],
                    forall|t: usize| #[trigger]
                        warm@.contains(t) <==> before.contains(t) || (!active@.contains(t)
                            && exists|l: int| 0 <= l < k && (#[trigger] row@[l]).target == t),
            {
                let target = row[k].target;
                let ghost inner = warm@;
                if !active.contains(&target) {
                    warm.insert(target);
                }
                assert forall|t: usize| #[trigger]
                    warm@.contains(t) <==> before.contains(t) || (!active@.contains(t) && exists|
                        l: int,
                    |
                        0 <= l < k + 1 && (#[trigger] row@[l]).target == t) by {
                    if t == target {
                        assert(row@[k as int].target == t);
                    }
                    if inner.contains(t) && !before.contains(t) {
                        let l = choose|l: int| 0 <= l < k && (#[trigger] row@[l]).target == t;
                        assert(row@[l].target == t);
                    }
                }
            }
            assert forall|t: usize| #[trigger]
                warm@.contains(t) <==> warm0.contains(t) || exists|k: int|
                    0 <= k < a + 1 && #[trigger] warms(s, active0, stim, k, t) by {
                assert((!active@.contains(t) && bonded(s.rows, idx as int, t as int)) <==> warms(
                    s,
                    active0,
                    stim,
                    a as int,
                    t,
                ));
                if before.contains(t) && !warm0.contains(t) {
                    let k = choose|k: int|
                        0 <= k < a && #[trigger] warms(s, active0, stim, k, t);
                    assert(warms(s, active0, stim, k, t));
                }
            }
        }
        assert(stim_nodes@.take(stim_nodes@.len() as int) =~= stim_nodes@);
        let warm_list = ascending_members(&warm);
        let n_warm = warm.len();
        assert forall|t: usize| #[trigger] warm@.contains(t) implies t < s.n() by {
            if !warm0.contains(t) {
                let k = choose|k: int|
                    0 <= k < stim_nodes@.len() && #[trigger] warms(s, active0, stim_nodes@, k, t);
                assert(bonded(s.rows, t as int, stim_nodes@[k] as int));
            }
        }
        assert forall|k: int| 0 <= k < warm_list@.len() implies #[trigger] warm_list@[k] < s.n() by {
            assert(listed(warm_list@, warm_list@[k] as int));
            assert(warm@.contains(warm_list@[k]));
        }
        assert(warm@ =~= Set::new(|i: usize| is_warm(s, active0, warm0, stim_nodes@, i)));
        self.come_into_sight(stim_nodes, warm_list.as_slice());
        let active_list = ascending_members(&active);
        let mut compute_set = active;
        insert_all(&mut compute_set, warm_list.as_slice());
        let unsettled_list = ascending_members(&self.unsettled_nodes);
        insert_all(&mut compute_set, unsettled_list.as_slice());
        let compute_list = ascending_members(&compute_set);
        let bond_list = ascending_pair_members(&bond_pairs);
        proof {
            lemma_node_list(s, active_list@);
            lemma_node_list(s, compute_list@);
            assert forall|k: int| 0 <= k < bond_list@.len() implies (#[trigger] bond_list@[k]).0
                < bond_list@[k].1 < s.n() by {
                assert(bond_list@.to_set().contains(bond_list@[k]));
            }
        }
        StepPlan {
            n_walkers,
            n_stimulated: stim_nodes.len(),
            n_warm,
            active_list,
            compute_list,
            bond_pairs: bond_list,
        }
    }
}

/// An ascending list whose members are nodes is a list of nodes.
proof fn lemma_node_list(s: State, list: Seq<usize>)
    requires
        ascending(list),
        forall|i: usize| #[trigger] listed(list, i as int) ==> i < s.n(),
    ensures
        is_node_list(s, list),
{
    assert forall|k: int| 0 <= k < list.len() implies #[trigger] list[k] < s.n() by {
        assert(listed(list, list[k] as int));
    }
}

/// In an ascending list, the nodes up to a place are those not larger than the one there.
proof fn lemma_listed_below(list: Seq<usize>, k: int, t: usize)
    requires
        ascending(list),
        0 <= k < list.len(),
    ensures
        listed(list.take(k + 1), t as int) == (listed(list, t as int) && t <= list[k]),
{
    let part = list.take(k + 1);
    if listed(part, t as int) {
        let l = choose|l: int| 0 <= l < part.len() && #[trigger] part[l] == t;
        assert(list[l] == t);
    }
    if listed(list, t as int) && t <= list[k] {
        let l = choose|l: int| 0 <= l < list.len() && #[trigger] list[l] == t;
        if k < l {
            assert(list[k] < list[l]);
        }
        assert(part[l] == t);
    }
}

} // verus!
