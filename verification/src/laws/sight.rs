//! What coming into sight, visiting and catching up do to each node.

use crate::binary64::{is_less, magnitude_of};
use crate::connectome::gauge::Gauge;
use crate::connectome::run::{caught_up, follows, rests_at, seen, Step, Visits};
use crate::connectome::step::{is_warm, sighted, warms, StepPlan, StepStart};
use crate::connectome::{gap_since, is_cold, measured, visited, ColdUpdate, State, DRIVE_FLOOR};
use crate::graph::bonded;
use crate::laws::lists::{law_ascending_pairs, law_listed};
use crate::members::ascending;
use vstd::prelude::*;

verus! {

/// A node is cold where it was visited at tick 0 or later, and before the last tick.
pub proof fn law_cold(s: State, i: int)
    ensures
        is_cold(s, i) <==> s.last_visit[i] >= 0 && s.last_visit[i] + 1 < s.tick,
{
}

/// The time since the last visit is counted from tick 0 where the node was never visited.
pub proof fn law_gap(last_visit: i32, tick_now: i32)
    ensures
        last_visit >= 0 ==> gap_since(last_visit, tick_now) == tick_now - last_visit,
        last_visit < 0 ==> gap_since(last_visit, tick_now) == tick_now,
{
}

/// A visit marks the node as observed and visited at this tick, and changes nothing else.
pub proof fn law_visit(s: State, node: usize)
    requires
        node < s.last_visit.len(),
    ensures
        ({
            let t = visited(s, node);
            &&& t == (State { last_visit: t.last_visit, observed: t.observed, ..s })
            &&& t.last_visit.len() == s.last_visit.len()
            &&& t.last_visit[node as int] == s.tick
            &&& forall|i: int|
                0 <= i < s.last_visit.len() && i != node ==> #[trigger] t.last_visit[i]
                    == s.last_visit[i]
            &&& forall|i: usize| #[trigger]
                t.observed.contains(i) <==> s.observed.contains(i) || i == node
        }),
{
}

/// A node that catches up takes on the field, now and before, the debt and the strengths of its
/// bonds that it is given, and the sums; no other node changes.
pub proof fn law_catching_up(s: State, node: usize, update: ColdUpdate)
    requires
        node < s.rows.len(),
        s.phi_curr.len() == s.rows.len(),
        s.phi_prev.len() == s.rows.len(),
        s.debt.len() == s.rows.len(),
        update.psi@.len() == s.rows[node as int].len(),
    ensures
        ({
            let t = measured(s, node as int, update);
            &&& t == (State {
                rows: t.rows,
                phi_curr: t.phi_curr,
                phi_prev: t.phi_prev,
                debt: t.debt,
                phi_sum: update.phi_sum,
                phi_sumsq: update.phi_sumsq,
                ..s
            })
            &&& t.phi_curr.len() == s.rows.len() && t.phi_curr[node as int] == update.phi_curr
            &&& t.phi_prev.len() == s.rows.len() && t.phi_prev[node as int] == update.phi_prev
            &&& t.debt.len() == s.rows.len() && t.debt[node as int] == update.debt
            &&& t.rows.len() == s.rows.len()
            &&& t.rows[node as int].len() == s.rows[node as int].len()
            &&& forall|k: int|
                0 <= k < update.psi@.len() ==> {
                    let (e, before) = (t.rows[node as int][k], s.rows[node as int][k]);
                    &&& e.psi_curr == #[trigger] update.psi@[k]
                    &&& e.psi_prev == before.psi_prev
                    &&& e.target == before.target
                    &&& e.geom_weight == before.geom_weight
                }
            &&& forall|i: int|
                0 <= i < s.rows.len() && i != node ==> #[trigger] t.rows[i] == s.rows[i]
            &&& forall|i: int|
                0 <= i < s.rows.len() && i != node ==> #[trigger] t.phi_curr[i] == s.phi_curr[i]
            &&& forall|i: int|
                0 <= i < s.rows.len() && i != node ==> #[trigger] t.phi_prev[i] == s.phi_prev[i]
            &&& forall|i: int|
                0 <= i < s.rows.len() && i != node ==> #[trigger] t.debt[i] == s.debt[i]
        }),
{
}

/// A step starts from the nodes whose drives are above the floor, and as candidates from these and
/// the unsettled ones, each list ascending.
pub proof fn law_start_of_a_step(start: StepStart, s: State)
    requires
        start.opens(s),
    ensures
        forall|i: int, j: int|
            0 <= i < j < start.stim_nodes@.len() ==> #[trigger] start.stim_nodes@[i]
                < #[trigger] start.stim_nodes@[j],
        forall|i: int, j: int|
            0 <= i < j < start.candidates@.len() ==> #[trigger] start.candidates@[i]
                < #[trigger] start.candidates@[j],
        forall|i: usize| #[trigger]
            start.stim_nodes@.contains(i) <==> i < s.rows.len() && is_less(
                DRIVE_FLOOR,
                magnitude_of(s.j_ext[i as int]),
            ),
        forall|i: usize| #[trigger]
            start.candidates@.contains(i) <==> s.unsettled.contains(i)
                || start.stim_nodes@.contains(i),
{
    assert forall|i: usize| #[trigger] start.stim_nodes@.contains(i) <==> i < s.rows.len()
        && is_less(DRIVE_FLOOR, magnitude_of(s.j_ext[i as int])) by {
        law_listed(start.stim_nodes@, i);
    }
    assert forall|i: usize| #[trigger] start.candidates@.contains(i) <==> s.unsettled.contains(i)
        || start.stim_nodes@.contains(i) by {
        law_listed(start.stim_nodes@, i);
        law_listed(start.candidates@, i);
    }
}

/// Whether a stimulated node warms `t`: they have a bond, `t` is not active, and `t` is no stimulated
/// node up to that one.
pub open spec fn is_warmed(s: State, active: Set<usize>, stim: Seq<usize>, t: usize) -> bool {
    !active.contains(t) && exists|k: int|
        0 <= k < stim.len() && bonded(s.rows, #[trigger] stim[k] as int, t as int) && !(
        stim.contains(t) && t <= stim[k])
}

/// A node is warm where the walkers make it so or a stimulated node warms it.
pub proof fn law_warm(s: State, active: Set<usize>, warm: Set<usize>, stim: Seq<usize>, t: usize)
    ensures
        is_warm(s, active, warm, stim, t) <==> warm.contains(t) || is_warmed(s, active, stim, t),
{
    law_listed(stim, t);
    if exists|k: int| 0 <= k < stim.len() && #[trigger] warms(s, active, stim, k, t) {
        let k = choose|k: int| 0 <= k < stim.len() && #[trigger] warms(s, active, stim, k, t);
        assert(bonded(s.rows, stim[k] as int, t as int));
    }
    if is_warmed(s, active, stim, t) {
        let k = choose|k: int|
            0 <= k < stim.len() && bonded(s.rows, #[trigger] stim[k] as int, t as int) && !(
            stim.contains(t) && t <= stim[k]);
        assert(warms(s, active, stim, k, t));
    }
}

/// Stimulated and warm nodes come to be observed. A stimulated one counts as visited now, and so
/// does a warm one that never was; nothing else changes.
pub proof fn law_come_into_sight(
    s: State,
    stim: Seq<usize>,
    active: Set<usize>,
    warm: Set<usize>,
)
    requires
        s.last_visit.len() == s.rows.len(),
        s.rows.len() <= usize::MAX,
    ensures
        ({
            let t = sighted(s, stim, active, warm);
            &&& t == (State { last_visit: t.last_visit, observed: t.observed, ..s })
            &&& t.last_visit.len() == s.rows.len()
            &&& forall|i: usize|
                i < s.rows.len() ==> #[trigger] t.last_visit[i as int] == if stim.contains(i) || ((
                warm.contains(i) || is_warmed(s, active, stim, i)) && s.last_visit[i as int] < 0) {
                    s.tick
                } else {
                    s.last_visit[i as int]
                }
            &&& forall|i: usize| #[trigger]
                t.observed.contains(i) <==> s.observed.contains(i) || stim.contains(i)
                    || warm.contains(i) || is_warmed(s, active, stim, i)
        }),
{
    let t = sighted(s, stim, active, warm);
    assert forall|i: usize| i < s.rows.len() implies #[trigger] t.last_visit[i as int]
        == if stim.contains(i) || ((warm.contains(i) || is_warmed(s, active, stim, i))
        && s.last_visit[i as int] < 0) {
        s.tick
    } else {
        s.last_visit[i as int]
    } by {
        law_listed(stim, i);
        law_warm(s, active, warm, stim, i);
    }
    assert forall|i: usize| #[trigger] t.observed.contains(i) <==> s.observed.contains(i)
        || stim.contains(i) || warm.contains(i) || is_warmed(s, active, stim, i) by {
        law_listed(stim, i);
        law_warm(s, active, warm, stim, i);
    }
}

/// A plan lists, ascending, as active who the walkers and the stimuli make so, and as to compute
/// these, the warm and the unsettled nodes; it lists the proposed bonds, and counts hops, stimulated
/// and warm nodes.
pub proof fn law_plan(
    plan: StepPlan,
    s: State,
    stim: Seq<usize>,
    n_walkers: nat,
    active: Set<usize>,
    warm: Set<usize>,
    pairs: Set<(usize, usize)>,
)
    requires
        plan.describes(s, stim, n_walkers, active, warm, pairs),
    ensures
        plan.n_walkers == n_walkers,
        plan.n_stimulated == stim.len(),
        plan.n_warm == Set::new(
            |i: usize| warm.contains(i) || is_warmed(s, active, stim, i),
        ).len(),
        forall|i: usize| #[trigger]
            plan.active_list@.contains(i) <==> active.contains(i) || stim.contains(i),
        forall|i: usize| #[trigger]
            plan.compute_list@.contains(i) <==> active.contains(i) || stim.contains(i)
                || warm.contains(i) || is_warmed(s, active, stim, i) || s.unsettled.contains(i),
        forall|pair: (usize, usize)| #[trigger]
            plan.bond_pairs@.contains(pair) <==> pairs.contains(pair),
{
    let a = Set::new(|i: usize| warm.contains(i) || is_warmed(s, active, stim, i));
    let b = Set::new(|i: usize| is_warm(s, active, warm, stim, i));
    assert(a =~= b) by {
        assert forall|i: usize| a.contains(i) == b.contains(i) by {
            law_warm(s, active, warm, stim, i);
        }
    }
    assert forall|i: usize| #[trigger] plan.active_list@.contains(i) <==> active.contains(i)
        || stim.contains(i) by {
        law_listed(plan.active_list@, i);
        law_listed(stim, i);
    }
    assert forall|i: usize| #[trigger] plan.compute_list@.contains(i) <==> active.contains(i)
        || stim.contains(i) || warm.contains(i) || is_warmed(s, active, stim, i)
        || s.unsettled.contains(i) by {
        law_listed(plan.compute_list@, i);
        law_listed(stim, i);
        law_warm(s, active, warm, stim, i);
    }
    assert forall|pair: (usize, usize)| #[trigger] plan.bond_pairs@.contains(pair)
        <==> pairs.contains(pair) by {
        assert(plan.bond_pairs@.to_set().contains(pair) <==> plan.bond_pairs@.contains(pair));
    }
}

/// A valid plan lists nodes, ascending, without leaving an active or an unsettled one out of those to
/// compute, and pairs of nodes, ascending, the smaller node first.
pub proof fn law_valid_plan(plan: StepPlan, s: State)
    requires
        plan.wf(s),
    ensures
        forall|i: int, j: int|
            0 <= i < j < plan.active_list@.len() ==> #[trigger] plan.active_list@[i]
                < #[trigger] plan.active_list@[j],
        forall|i: int, j: int|
            0 <= i < j < plan.compute_list@.len() ==> #[trigger] plan.compute_list@[i]
                < #[trigger] plan.compute_list@[j],
        forall|i: usize| #[trigger]
            plan.active_list@.contains(i) || s.unsettled.contains(i)
                ==> plan.compute_list@.contains(i),
        forall|i: usize| #[trigger] plan.compute_list@.contains(i) ==> i < s.rows.len(),
        forall|i: int, j: int|
            0 <= i < j < plan.bond_pairs@.len() ==> (#[trigger] plan.bond_pairs@[i]).0 < (
            #[trigger] plan.bond_pairs@[j]).0 || (plan.bond_pairs@[i].0 == plan.bond_pairs@[j].0
                && plan.bond_pairs@[i].1 < plan.bond_pairs@[j].1),
        forall|i: int|
            0 <= i < plan.bond_pairs@.len() ==> (#[trigger] plan.bond_pairs@[i]).0
                < plan.bond_pairs@[i].1 < s.rows.len(),
{
    law_ascending_pairs(plan.bond_pairs@);
    assert forall|i: usize| #[trigger] plan.active_list@.contains(i) || s.unsettled.contains(
        i,
    ) implies plan.compute_list@.contains(i) by {
        law_listed(plan.active_list@, i);
        law_listed(plan.compute_list@, i);
    }
}

/// Whether `i` stands in `list` from place `k` on and before place `place`.
pub open spec fn stands_between(list: Seq<usize>, k: int, place: int, i: int) -> bool {
    exists|j: int| k <= j < place && #[trigger] list[j] == i
}

/// Visits go from place `k` to the first node that is cold, or to the end. They mark the nodes up to
/// there as observed and visited at this tick, and change nothing else.
pub proof fn law_visits_go_on(s: State, list: Seq<usize>, k: int)
    requires
        ascending(list),
        forall|j: int| 0 <= j < list.len() ==> #[trigger] list[j] < s.last_visit.len(),
        0 <= k <= list.len(),
    ensures
        ({
            let (end, place) = seen(s, list, k);
            &&& k <= place <= list.len()
            &&& forall|j: int|
                k <= j < place ==> !(0 <= s.last_visit[#[trigger] list[j] as int] < s.tick - 1)
            &&& place < list.len() ==> 0 <= s.last_visit[list[place] as int] < s.tick - 1
            &&& end == (State { last_visit: end.last_visit, observed: end.observed, ..s })
            &&& end.last_visit.len() == s.last_visit.len()
            &&& forall|i: int|
                0 <= i < s.last_visit.len() ==> #[trigger] end.last_visit[i] == if stands_between(
                    list,
                    k,
                    place,
                    i,
                ) {
                    s.tick
                } else {
                    s.last_visit[i]
                }
            &&& forall|i: usize| #[trigger]
                end.observed.contains(i) <==> s.observed.contains(i) || stands_between(
                    list,
                    k,
                    place,
                    i as int,
                )
        }),
    decreases list.len() - k,
{
    if k < list.len() && !is_cold(s, list[k] as int) {
        let node = list[k];
        let t = visited(s, node);
        law_visits_go_on(t, list, k + 1);
        let (end, place) = seen(t, list, k + 1);
        assert(seen(s, list, k) == (end, place));
        assert forall|j: int| k < j < list.len() implies t.last_visit[#[trigger] list[j] as int]
            == s.last_visit[list[j] as int] by {
            assert(list[k] < list[j]);
        }
        assert forall|j: int| k <= j < place implies !(0 <= s.last_visit[#[trigger] list[j] as int]
            < s.tick - 1) by {
            if j > k {
                assert(t.last_visit[list[j] as int] == s.last_visit[list[j] as int]);
            }
        }
        assert forall|i: int| #[trigger] stands_between(list, k, place, i) == (i == node
            || stands_between(list, k + 1, place, i)) by {
            if stands_between(list, k, place, i) {
                let j = choose|j: int| k <= j < place && #[trigger] list[j] == i;
                if j > k {
                    assert(list[j] == i);
                }
            }
            if i == node {
                assert(list[k] == i);
            }
            if stands_between(list, k + 1, place, i) {
                let j = choose|j: int| k + 1 <= j < place && #[trigger] list[j] == i;
                assert(list[j] == i);
            }
        }
        assert forall|i: int| 0 <= i < s.last_visit.len() implies #[trigger] end.last_visit[i]
            == if stands_between(list, k, place, i) {
            s.tick
        } else {
            s.last_visit[i]
        } by {
            assert(stands_between(list, k, place, i) == (i == node || stands_between(
                list,
                k + 1,
                place,
                i,
            )));
        }
        assert forall|i: usize| #[trigger] end.observed.contains(i) <==> s.observed.contains(i)
            || stands_between(list, k, place, i as int) by {
            assert(stands_between(list, k, place, i as int) == (i == node || stands_between(
                list,
                k + 1,
                place,
                i as int,
            )));
            assert(t.observed.contains(i) <==> s.observed.contains(i) || i == node);
        }
    } else {
        assert(seen(s, list, k) == (s, k));
    }
}

/// Where visits rest, the step asks for what happened to the cold node there, or, where none is
/// left, for the numbers that end it; the plan stays the same.
pub proof fn law_visits_rest(s: State, plan: StepPlan, k: int, after: State, next: Step)
    requires
        rests_at(s, plan, k, after, next),
    ensures
        after == seen(s, plan.active_list@, k).0,
        seen(s, plan.active_list@, k).1 < plan.active_list@.len() ==> (next matches Step::Visit(v)
            && v.plan == plan && v.next == seen(s, plan.active_list@, k).1),
        seen(s, plan.active_list@, k).1 >= plan.active_list@.len() ==> (next matches Step::Compute(
            p,
        ) && p == plan),
{
}

/// While a walker is under way nothing changes and the step asks for its draw. Once none is left,
/// the stimulated and warm nodes come into sight, and the visits by a plan begin.
pub proof fn law_walkers_lead(s: State, stim: Seq<usize>, g: Gauge, after: State, next: Step)
    requires
        follows(s, stim, g, after, next),
    ensures
        g.cursor is Some ==> after == s && (next matches Step::Walk(w) && w.stim_nodes@ == stim
            && w.run@ == g),
        g.cursor is None ==> (next.planned() matches Some(plan) && {
            &&& plan.describes(
                s,
                stim,
                g.hops.len(),
                g.active_set(s),
                g.warm_set(s),
                g.proposed_set(s),
            )
            &&& rests_at(
                sighted(s, stim, g.active_set(s), g.warm_set(s)),
                plan,
                0,
                after,
                next,
            )
        }),
{
}

/// Once the cold node at which the visits stand has caught up, it is visited, and the visits go on
/// behind it.
pub proof fn law_caught_up(s: State, visits: Visits, update: ColdUpdate, after: State, next: Step)
    requires
        caught_up(s, visits, update, after, next),
    ensures
        ({
            let node = visits.plan.active_list@[visits.next as int];
            rests_at(
                visited(measured(s, node as int, update), node),
                visits.plan,
                visits.next + 1,
                after,
                next,
            )
        }),
{
}

} // verus!
