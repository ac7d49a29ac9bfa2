//! What holds of the bonds over a whole step, from the last walker on.

use crate::binary64::{is_at_most, is_less, ZERO};
use crate::connectome::advance::{advanced, regrown, BondCounts, StepNumbers};
use crate::connectome::gauge::Gauge;
use crate::connectome::run::{caught_up, follows, Step};
use crate::connectome::step::StepPlan;
use crate::connectome::{ColdUpdate, State};
use crate::graph::{bonded, Rows};
use crate::laws::bonds::{
    holds_weight, law_bonds_after_a_step, law_new_bonds_break_above_rest, law_rest_keeps_bonds,
};
use crate::laws::ends::law_catching_up_keeps_bonds;
use crate::laws::steps::lemma_caught_up;
use crate::laws::walks::{fresh_pairs, law_proposals_are_new, law_proposals_stay_new};
use vstd::prelude::*;

verus! {

/// Whether two graphs have the same edges in the same places, but for their strengths.
pub open spec fn same_bonds(g: Rows, h: Rows) -> bool {
    &&& g.len() == h.len()
    &&& forall|u: int| 0 <= u < g.len() ==> (#[trigger] h[u]).len() == g[u].len()
    &&& forall|u: int, k: int|
        0 <= u < g.len() && 0 <= k < g[u].len() ==> (#[trigger] h[u][k]).target == g[u][k].target
            && h[u][k].geom_weight == g[u][k].geom_weight
}

/// Whether a step visits its active nodes in the given states, catching up by the given updates.
pub open spec fn is_visiting(
    states: Seq<State>,
    steps: Seq<Step>,
    updates: Seq<ColdUpdate>,
) -> bool {
    &&& states.len() == updates.len() + 1
    &&& steps.len() == updates.len() + 1
    &&& forall|j: int| 0 <= j < states.len() ==> (#[trigger] states[j]).wf()
    &&& forall|j: int| 0 <= j < steps.len() ==> (#[trigger] steps[j]).wf(states[j])
    &&& forall|j: int|
        0 <= j < updates.len() ==> {
            &&& steps[j] is Visit
            &&& caught_up(
                states[j],
                steps[j]->Visit_0,
                #[trigger] updates[j],
                states[j + 1],
                steps[j + 1],
            )
        }
}

/// Visiting the active nodes changes no bond, no weight and not the temperature; what is planned
/// stays planned, and the proposed bonds stay new.
proof fn lemma_visiting(
    s: State,
    states: Seq<State>,
    steps: Seq<Step>,
    updates: Seq<ColdUpdate>,
    plan: StepPlan,
    j: int,
)
    requires
        is_visiting(states, steps, updates),
        0 <= j < states.len(),
        states[0].rows == s.rows,
        states[0].k_t == s.k_t,
        steps[0].planned() == Some(plan),
        fresh_pairs(states[0], plan),
    ensures
        same_bonds(s.rows, states[j].rows),
        states[j].k_t == s.k_t,
        steps[j].planned() == Some(plan),
        fresh_pairs(states[j], plan),
    decreases j,
{
    if j > 0 {
        lemma_visiting(s, states, steps, updates, plan, j - 1);
        let (before, after) = (states[j - 1], states[j]);
        let visits = steps[j - 1]->Visit_0;
        let update = updates[j - 1];
        assert(caught_up(before, visits, update, after, steps[j]));
        assert(steps[j - 1].wf(before));
        law_proposals_stay_new(before, visits, update, after, steps[j]);
        let node = visits.plan.active_list@[visits.next as int];
        law_catching_up_keeps_bonds(before, node, update);
        lemma_caught_up(before, visits, update, after, steps[j]);
        assert(same_bonds(s.rows, after.rows)) by {
            assert forall|u: int| 0 <= u < s.rows.len() implies (#[trigger] after.rows[u]).len()
                == s.rows[u].len() by {
                assert(before.rows[u].len() == s.rows[u].len());
            }
            assert forall|u: int, k: int|
                0 <= u < s.rows.len() && 0 <= k < s.rows[u].len() implies (
            #[trigger] after.rows[u][k]).target == s.rows[u][k].target && after.rows[u][k].geom_weight
                == s.rows[u][k].geom_weight by {
                assert(before.rows[u].len() == s.rows[u].len());
                assert(before.rows[u][k].target == s.rows[u][k].target);
            }
        }
    }
}

/// Where the edges are the same but for their strengths, so are the bonds and the weights.
proof fn lemma_same_bonds(g: Rows, h: Rows)
    requires
        same_bonds(g, h),
    ensures
        forall|u: int, v: int| #[trigger] bonded(h, u, v) == bonded(g, u, v),
        forall|u: int, target: usize, geom: u64|
            0 <= u < g.len() && #[trigger] holds_weight(h[u], target, geom) ==> holds_weight(
                g[u],
                target,
                geom,
            ),
{
    assert forall|u: int, v: int| #[trigger] bonded(h, u, v) == bonded(g, u, v) by {
        if bonded(h, u, v) {
            let k = choose|k: int| 0 <= k < h[u].len() && (#[trigger] h[u][k]).target == v;
            assert(g[u][k].target == v);
        }
        if bonded(g, u, v) {
            let k = choose|k: int| 0 <= k < g[u].len() && (#[trigger] g[u][k]).target == v;
            assert(h[u][k].target == v);
        }
    }
    assert forall|u: int, target: usize, geom: u64|
        0 <= u < g.len() && #[trigger] holds_weight(h[u], target, geom) implies holds_weight(
        g[u],
        target,
        geom,
    ) by {
        let k = choose|k: int|
            0 <= k < h[u].len() && (#[trigger] h[u][k]).target == target && h[u][k].geom_weight
                == geom;
        assert(h[u].len() == g[u].len());
        assert(g[u][k].target == target);
    }
}

/// Over a whole step, from the state `s` in which no walker is left: every proposed bond is made.
/// Above rest and with a floor above 0 at least as many break, and no bond is left that was not
/// there before the step. At rest, where nothing is proposed, none is made and none breaks. Either
/// way the bonds that are left have the weights that they had.
pub proof fn law_bonds_of_a_whole_step(
    s: State,
    stim: Seq<usize>,
    g: Gauge,
    states: Seq<State>,
    steps: Seq<Step>,
    updates: Seq<ColdUpdate>,
    numbers: StepNumbers,
    counts: BondCounts,
)
    requires
        s.wf(),
        g.wf(s),
        g.cursor is None,
        is_visiting(states, steps, updates),
        follows(s, stim, g, states[0], steps[0]),
        steps.last() is Compute,
        ({
            let plan = steps.last()->Compute_0;
            let at = states.last();
            &&& numbers.fits(at, plan.compute_list@)
            &&& at.directed_edge_count + 2 * plan.bond_pairs@.len() <= usize::MAX
            &&& regrown(
                at,
                plan.compute_list@,
                plan.bond_pairs@,
                numbers,
            ).directed_edge_count == at.directed_edge_count + 2 * counts.instantiated
            &&& advanced(
                at,
                plan.compute_list@,
                plan.bond_pairs@,
                numbers,
            ).directed_edge_count + 2 * counts.removed == at.directed_edge_count + 2
                * counts.instantiated
        }),
    ensures
        ({
            let plan = steps.last()->Compute_0;
            let end = advanced(
                states.last(),
                plan.compute_list@,
                plan.bond_pairs@,
                numbers,
            );
            let above = !is_at_most(s.k_t, ZERO) && is_less(ZERO, numbers.floor_root);
            let quiet = is_at_most(s.k_t, ZERO) && g.proposed_set(s).is_empty();
            &&& counts.instantiated == plan.bond_pairs@.len()
            &&& above ==> {
                &&& counts.removed >= counts.instantiated
                &&& forall|u: int, v: int| #[trigger]
                    bonded(end.rows, u, v) ==> bonded(s.rows, u, v)
            }
            &&& quiet ==> {
                &&& counts.instantiated == 0
                &&& counts.removed == 0
                &&& forall|u: int, v: int| #[trigger]
                    bonded(end.rows, u, v) == bonded(s.rows, u, v)
            }
            &&& above || quiet ==> forall|u: int, k: int|
                0 <= u < end.rows.len() && 0 <= k < end.rows[u].len() ==> holds_weight(
                    s.rows[u],
                    (#[trigger] end.rows[u][k]).target,
                    end.rows[u][k].geom_weight,
                )
        }),
{
    law_proposals_are_new(s, stim, g, states[0], steps[0]);
    let first = steps[0].planned()->0;
    let last = states.len() - 1;
    lemma_visiting(s, states, steps, updates, first, last);
    let at = states[last];
    let plan = steps.last()->Compute_0;
    assert(steps[last] == steps.last());
    assert(steps[last].wf(at));
    assert(at.wf());
    lemma_same_bonds(s.rows, at.rows);
    law_bonds_after_a_step(at, plan, numbers);
    let end = advanced(at, plan.compute_list@, plan.bond_pairs@, numbers);
    if !is_at_most(s.k_t, ZERO) && is_less(ZERO, numbers.floor_root) {
        law_new_bonds_break_above_rest(at, plan, numbers, counts);
        assert forall|u: int, v: int| #[trigger] bonded(end.rows, u, v) implies bonded(
            s.rows,
            u,
            v,
        ) by {
            assert(bonded(at.rows, u, v));
        }
    }
    if is_at_most(s.k_t, ZERO) && g.proposed_set(s).is_empty() {
        if plan.bond_pairs@.len() > 0 {
            assert(plan.bond_pairs@.to_set().contains(plan.bond_pairs@[0]));
            assert(g.proposed_set(s).contains(plan.bond_pairs@[0]));
        }
        law_rest_keeps_bonds(at, plan, numbers, counts);
        assert forall|u: int, v: int| #[trigger] bonded(end.rows, u, v) == bonded(s.rows, u, v) by {
            assert(bonded(at.rows, u, v) == bonded(s.rows, u, v));
        }
    }
    if (!is_at_most(s.k_t, ZERO) && is_less(ZERO, numbers.floor_root)) || (is_at_most(s.k_t, ZERO)
        && g.proposed_set(s).is_empty()) {
        assert forall|u: int, k: int| 0 <= u < end.rows.len() && 0 <= k < end.rows[u].len() implies holds_weight(
            s.rows[u],
            (#[trigger] end.rows[u][k]).target,
            end.rows[u][k].geom_weight,
        ) by {
            let e = end.rows[u][k];
            assert(bonded(end.rows, u, e.target as int));
            assert(bonded(s.rows, u, e.target as int));
            assert(holds_weight(at.rows[u], e.target, e.geom_weight));
        }
    }
}

} // verus!
