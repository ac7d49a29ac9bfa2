//! What holds of walkers and of the bonds that they propose.

use crate::binary64::{is_at_most, lemma_one, Bits, ZERO};
use crate::connectome::gauge::{
    gauge_start, is_slow, lemma_proposed_pair, lemma_start_from, lemma_start_same, ordered, proposes,
    Cursor, Gauge,
};
use crate::connectome::run::{caught_up, follows, Step, Visits};
use crate::connectome::step::{StepPlan, StepStart};
use crate::connectome::{ColdUpdate, State};
use crate::graph::bonded;
use crate::laws::ends::law_catching_up_keeps_bonds;
use crate::laws::steps::{lemma_caught_up, lemma_followed};
use crate::members::listed;
use vstd::prelude::*;

verus! {

/// At rest, or where there are no candidates, nobody emits, nobody is active or warm, and no bond is
/// proposed.
pub proof fn law_rest_is_quiet(
    s: State,
    candidates: Seq<usize>,
    ratios: Seq<Bits>,
    v_root: Bits,
    reach: Bits,
)
    requires
        is_at_most(s.k_t, ZERO) || candidates.len() == 0,
    ensures
        ({
            let g = gauge_start(s, candidates, ratios, v_root, reach);
            &&& g.cursor is None
            &&& g.hops.len() == 0
            &&& g.active_set(s).is_empty()
            &&& g.warm_set(s).is_empty()
            &&& g.proposed_set(s).is_empty()
        }),
{
    lemma_one();
    let g = gauge_start(s, candidates, ratios, v_root, reach);
    assert forall|i: usize| !g.active_set(s).contains(i) by {}
    assert(g.active_set(s) =~= Set::empty());
    assert(g.warm_set(s) =~= Set::empty());
    assert(g.proposed_set(s) =~= Set::empty());
}

/// Each draw brings the gauge step on: to a later candidate, to a later emission of the same one,
/// or to a later hop of the same walker. So a gauge step ends.
pub proof fn law_gauge_progress(g: Gauge, s: State, c: Cursor, pick: Option<usize>)
    requires
        g.wf(s),
        g.cursor == Some(c),
    ensures
        g.next(s, c, pick).cursor matches Some(d) ==> c.slot < d.slot < g.candidates.len() || (
        c.slot == d.slot && (c.emission < d.emission < g.counts[d.slot as int] || (c.emission
            == d.emission && c.hop < d.hop < g.h_max))),
{
    lemma_start_from(g, s.n(), c.slot + 1);
}

/// The gauge step `g` after the walker at `c` made all its hops, where `picks` says what the draw
/// of each emission index picks at each node.
pub open spec fn walked(
    g: Gauge,
    s: State,
    c: Cursor,
    picks: spec_fn(usize, int) -> Option<usize>,
) -> Gauge
    decreases g.h_max - c.hop,
{
    let pick = picks(c.node, c.emission + c.hop);
    let next = g.next(s, c, pick);
    if pick is Some && g.goes_on(s, c, pick->0) {
        walked(next, s, next.cursor->0, picks)
    } else {
        next
    }
}

/// Whether `path` is the way of a walker that starts at `c`: each hop starts where the one before it
/// ended and goes where the draw says, and only the first may start at a slow node.
pub open spec fn is_walk(
    g: Gauge,
    s: State,
    c: Cursor,
    picks: spec_fn(usize, int) -> Option<usize>,
    path: Seq<(usize, usize)>,
) -> bool {
    &&& path.len() <= g.h_max - c.hop
    &&& path.len() > 0 ==> path[0].0 == c.node
    &&& forall|k: int|
        0 <= k < path.len() ==> picks((#[trigger] path[k]).0, c.emission + c.hop + k) == Some(
            path[k].1,
        )
    &&& forall|k: int, l: int|
        0 <= k && l == k + 1 && l < path.len() ==> (#[trigger] path[k]).1 == (
        #[trigger] path[l]).0 && !is_slow(s, g.v_th, path[l].0 as int)
}

/// A walker makes a walk of at most as many hops as it has left, and then the next emission has its
/// turn.
pub proof fn law_walker_makes_a_walk(
    g: Gauge,
    s: State,
    c: Cursor,
    picks: spec_fn(usize, int) -> Option<usize>,
)
    requires
        c.hop < g.h_max,
    ensures
        walked(g, s, c, picks).cursor == g.after_walk(s.n(), c),
        walked(g, s, c, picks).hops.len() >= g.hops.len(),
        walked(g, s, c, picks).hops.take(g.hops.len() as int) == g.hops,
        is_walk(g, s, c, picks, walked(g, s, c, picks).hops.skip(g.hops.len() as int)),
    decreases g.h_max - c.hop,
{
    let pick = picks(c.node, c.emission + c.hop);
    let next = g.next(s, c, pick);
    let end = walked(g, s, c, picks);
    let path = end.hops.skip(g.hops.len() as int);
    if pick is Some && g.goes_on(s, c, pick->0) {
        let d = next.cursor->0;
        let to = pick->0;
        law_walker_makes_a_walk(next, s, d, picks);
        lemma_start_same(g, next, s.n(), c.slot + 1);
        let rest = end.hops.skip(next.hops.len() as int);
        assert(end.hops.take(next.hops.len() as int) == next.hops);
        assert(end.hops[g.hops.len() as int] == next.hops[g.hops.len() as int]);
        assert(path =~= seq![(c.node, to)] + rest);
        assert(end.hops.take(g.hops.len() as int) =~= g.hops) by {
            assert forall|k: int| 0 <= k < g.hops.len() implies end.hops[k] == g.hops[k] by {
                assert(end.hops.take(next.hops.len() as int)[k] == next.hops[k]);
            }
        }
        assert forall|k: int| 0 <= k < path.len() implies picks(
            (#[trigger] path[k]).0,
            c.emission + c.hop + k,
        ) == Some(path[k].1) by {
            if k > 0 {
                assert(path[k] == rest[k - 1]);
                assert(picks(rest[k - 1].0, d.emission + d.hop + (k - 1)) == Some(rest[k - 1].1));
            }
        }
        assert forall|k: int, l: int| 0 <= k && l == k + 1 && l < path.len() implies (
        #[trigger] path[k]).1 == (#[trigger] path[l]).0 && !is_slow(
            s,
            g.v_th,
            path[l].0 as int,
        ) by {
            assert(path[l] == rest[l - 1]);
            if k > 0 {
                assert(path[k] == rest[k - 1]);
            }
        }
    } else {
        assert(end == next);
        if let Some(to) = pick {
            assert(path =~= seq![(c.node, to)]);
        } else {
            assert(path =~= Seq::empty());
        }
        assert(end.hops.take(g.hops.len() as int) =~= g.hops);
    }
}

/// Whether each proposed bond joins two nodes that have none and that are both to be computed.
pub open spec fn fresh_pairs(s: State, plan: StepPlan) -> bool {
    forall|k: int|
        0 <= k < plan.bond_pairs@.len() ==> {
            let (u, v) = #[trigger] plan.bond_pairs@[k];
            &&& !bonded(s.rows, u as int, v as int)
            &&& listed(plan.compute_list@, u as int)
            &&& listed(plan.compute_list@, v as int)
        }
}

/// Once no walker is left, each proposed bond that the plan lists joins two nodes without a bond,
/// and the step computes both.
pub proof fn law_proposals_are_new(
    s: State,
    stim: Seq<usize>,
    g: Gauge,
    after: State,
    next: Step,
)
    requires
        s.wf(),
        g.wf(s),
        g.cursor is None,
        follows(s, stim, g, after, next),
    ensures
        after.rows == s.rows,
        after.k_t == s.k_t,
        next.planned() matches Some(plan) && fresh_pairs(after, plan),
{
    lemma_followed(s, stim, g, after, next);
    let plan = next.planned()->0;
    assert(fresh_pairs(after, plan)) by {
        assert forall|j: int| 0 <= j < plan.bond_pairs@.len() implies {
            let (u, v) = #[trigger] plan.bond_pairs@[j];
            &&& !bonded(s.rows, u as int, v as int)
            &&& listed(plan.compute_list@, u as int)
            &&& listed(plan.compute_list@, v as int)
        } by {
            let pair = plan.bond_pairs@[j];
            assert(plan.bond_pairs@.to_set().contains(pair));
            assert(g.proposed_set(s).contains(pair));
            lemma_proposed_pair(g, s, pair);
            let (h, k) = choose|h: int, k: usize|
                0 <= h < g.hops.len() && #[trigger] proposes(s, g.v_th, g.hops[h], k) && pair
                    == ordered(g.hops[h].0, k);
            let (a, t) = g.hops[h];
            assert(g.active_set(s).contains(a));
            assert(g.active_set(s).contains(t));
            assert(g.active_set(s).contains(k) || g.warm_set(s).contains(k));
            assert(listed(plan.compute_list@, a as int));
            assert(listed(plan.compute_list@, k as int));
        }
    }
}

/// Catching up leaves the proposed bonds new and both their nodes to be computed.
pub proof fn law_proposals_stay_new(
    s: State,
    visits: Visits,
    update: ColdUpdate,
    after: State,
    next: Step,
)
    requires
        s.wf(),
        visits.wf(s),
        fresh_pairs(s, visits.plan),
        caught_up(s, visits, update, after, next),
    ensures
        after.k_t == s.k_t,
        next.planned() == Some(visits.plan),
        fresh_pairs(after, visits.plan),
        forall|u: int, v: int| #[trigger] bonded(after.rows, u, v) == bonded(s.rows, u, v),
{
    let node = visits.plan.active_list@[visits.next as int];
    lemma_caught_up(s, visits, update, after, next);
    law_catching_up_keeps_bonds(s, node, update);
}

/// At rest a step goes on without a walker, and what it plans proposes no bond.
pub proof fn law_rest_proposes_nothing(
    s: State,
    start: StepStart,
    ratios: Seq<Bits>,
    v_root: Bits,
    reach: Bits,
    after: State,
    next: Step,
)
    requires
        is_at_most(s.k_t, ZERO),
        follows(
            s,
            start.stim_nodes@,
            gauge_start(s, start.candidates@, ratios, v_root, reach),
            after,
            next,
        ),
    ensures
        next.planned() matches Some(plan) && plan.n_walkers == 0 && plan.bond_pairs@.len() == 0,
{
    let g = gauge_start(s, start.candidates@, ratios, v_root, reach);
    law_rest_is_quiet(s, start.candidates@, ratios, v_root, reach);
    let plan = next.planned()->0;
    if plan.bond_pairs@.len() > 0 {
        assert(plan.bond_pairs@.to_set().contains(plan.bond_pairs@[0]));
        assert(g.proposed_set(s).contains(plan.bond_pairs@[0]));
    }
}

} // verus!
