//! What the end of a step does to each node, and what is reported of it.

use crate::binary64::{clipped, is_at_most, is_far, is_finite, is_less, magnitude_of, Bits, ZERO};
use crate::connectome::advance::{
    advanced, field_after, k_t_after, positive_part, regrown, BondCounts, StepNumbers,
};
use crate::connectome::report::metrics_of;
use crate::connectome::step::{is_node_list, StepPlan};
use crate::connectome::{decoherence_floor, with_decohered, State};
use crate::graph::{all_advanced, decohered, degree_sum, grown};
use crate::laws::lists::law_listed;
use crate::laws::steps::law_top_speed;
use crate::members::lemma_place_of;
use vstd::prelude::*;

verus! {

/// The field after a step is the clip of the new value at each listed node, and elsewhere what it
/// was.
pub proof fn law_field(s: State, list: Seq<usize>, raw: Seq<Bits>)
    requires
        is_node_list(s, list),
        s.phi_curr.len() == s.rows.len(),
        s.rows.len() <= usize::MAX,
        raw.len() == list.len(),
    ensures
        ({
            let field = field_after(s, list, raw);
            &&& field.len() == s.phi_curr.len()
            &&& forall|k: int|
                0 <= k < list.len() ==> field[#[trigger] list[k] as int] == clipped(raw[k])
            &&& forall|i: usize|
                i < s.rows.len() && !list.contains(i) ==> #[trigger] field[i as int]
                    == s.phi_curr[i as int]
        }),
{
    let field = field_after(s, list, raw);
    assert forall|k: int| 0 <= k < list.len() implies field[#[trigger] list[k] as int] == clipped(
        raw[k],
    ) by {
        lemma_place_of(list, k);
    }
    assert forall|i: usize| i < s.rows.len() && !list.contains(i) implies #[trigger] field[i as int]
        == s.phi_curr[i as int] by {
        law_listed(list, i);
    }
}

/// What is positive stays, and all else counts as 0.
pub proof fn law_positive(x: Bits)
    ensures
        is_less(ZERO, x) ==> positive_part(x) == x,
        !is_less(ZERO, x) ==> positive_part(x) == ZERO,
{
}

/// The temperature after a step of two nodes or more is half the variance where that is positive,
/// and else 0; a step of less keeps it.
pub proof fn law_temperature(s: State, list: Seq<usize>, half_var: Bits)
    ensures
        list.len() >= 2 && is_less(ZERO, half_var) ==> k_t_after(s, list, half_var) == half_var,
        list.len() >= 2 && !is_less(ZERO, half_var) ==> k_t_after(s, list, half_var) == ZERO,
        list.len() < 2 ==> k_t_after(s, list, half_var) == s.k_t,
{
}

/// At rest the floor is 0 and no bond breaks. Above rest it is as handed in, and the bonds break that
/// do not reach it; nothing but the bonds and their count changes.
pub proof fn law_breaking(s: State, list: Seq<usize>, root: Bits)
    requires
        degree_sum(decohered(s.rows, list, root)) <= usize::MAX,
    ensures
        is_at_most(s.k_t, ZERO) ==> decoherence_floor(s.k_t, root) == ZERO && with_decohered(
            s,
            list,
            root,
        ) == s,
        !is_at_most(s.k_t, ZERO) ==> {
            let t = with_decohered(s, list, root);
            &&& decoherence_floor(s.k_t, root) == root
            &&& t.rows == decohered(s.rows, list, root)
            &&& t.directed_edge_count == degree_sum(t.rows)
            &&& t == (State {
                rows: t.rows,
                directed_edge_count: t.directed_edge_count,
                ..s
            })
        },
{
}

/// The end of a step, node by node. At place `k` of the list stands a node that takes on the clip of
/// its new field and its new debt and speed, and is unsettled where it is far from its well or fast.
/// A node that is not listed keeps its field, its debt and whether it is unsettled, and is still
/// where its field is finite. Registered drives are taken away, and the sums and the temperature
/// move on.
pub proof fn law_step_node_by_node(
    s: State,
    list: Seq<usize>,
    pairs: Seq<(usize, usize)>,
    numbers: StepNumbers,
)
    requires
        s.wf(),
        is_node_list(s, list),
        numbers.fits(s, list),
    ensures
        ({
            let t = advanced(s, list, pairs, numbers);
            &&& t.phi_curr.len() == s.rows.len()
            &&& t.phi_dot.len() == s.rows.len()
            &&& t.debt.len() == s.rows.len()
            &&& t.j_ext.len() == s.rows.len()
            &&& forall|k: int|
                0 <= k < list.len() ==> {
                    let i = #[trigger] list[k] as int;
                    &&& t.phi_curr[i] == clipped(numbers.phi_raw@[k])
                    &&& t.phi_dot[i] == numbers.phi_dot@[i]
                    &&& t.debt[i] == numbers.debt@[k]
                    &&& t.unsettled.contains(list[k]) <==> is_far(
                        clipped(numbers.phi_raw@[k]),
                        numbers.pos_thresh,
                    ) || is_less(numbers.vel_thresh, magnitude_of(numbers.phi_dot@[i]))
                }
            &&& forall|i: usize|
                #![trigger list.contains(i)]
                i < s.rows.len() && !list.contains(i) ==> {
                    &&& t.phi_curr[i as int] == s.phi_curr[i as int]
                    &&& t.debt[i as int] == s.debt[i as int]
                    &&& t.unsettled.contains(i) == s.unsettled.contains(i)
                    &&& t.phi_dot[i as int] == if is_finite(s.phi_curr[i as int]) {
                        ZERO
                    } else {
                        numbers.phi_dot@[i as int]
                    }
                }
            &&& t.phi_prev == s.phi_curr
            &&& t.last_visit == s.last_visit
            &&& t.observed == s.observed
            &&& t.tick == s.tick
            &&& t.transport_renormalization == s.transport_renormalization
            &&& t.dynamic_bond_geom_weight == s.dynamic_bond_geom_weight
            &&& forall|i: usize|
                i < s.rows.len() ==> #[trigger] t.j_ext[i as int] == if s.j_ext_nonzero.contains(i) {
                    ZERO
                } else {
                    s.j_ext[i as int]
                }
            &&& t.j_ext_nonzero.is_empty()
            &&& list.len() > 0 ==> t.phi_sum == numbers.phi_sum && t.phi_sumsq == numbers.phi_sumsq
            &&& list.len() == 0 ==> t.phi_sum == s.phi_sum && t.phi_sumsq == s.phi_sumsq
            &&& t.k_t == if list.len() >= 2 {
                if is_less(ZERO, numbers.half_var) {
                    numbers.half_var
                } else {
                    ZERO
                }
            } else {
                s.k_t
            }
        }),
{
    let t = advanced(s, list, pairs, numbers);
    assert forall|k: int| 0 <= k < list.len() implies {
        let i = #[trigger] list[k] as int;
        &&& t.phi_curr[i] == clipped(numbers.phi_raw@[k])
        &&& t.phi_dot[i] == numbers.phi_dot@[i]
        &&& t.debt[i] == numbers.debt@[k]
        &&& t.unsettled.contains(list[k]) <==> is_far(
            clipped(numbers.phi_raw@[k]),
            numbers.pos_thresh,
        ) || is_less(numbers.vel_thresh, magnitude_of(numbers.phi_dot@[i]))
    } by {
        lemma_place_of(list, k);
    }
    assert forall|i: usize|
        #![trigger list.contains(i)]
        i < s.rows.len() && !list.contains(i) implies {
        &&& t.phi_curr[i as int] == s.phi_curr[i as int]
        &&& t.debt[i as int] == s.debt[i as int]
        &&& t.unsettled.contains(i) == s.unsettled.contains(i)
        &&& t.phi_dot[i as int] == if is_finite(s.phi_curr[i as int]) {
            ZERO
        } else {
            numbers.phi_dot@[i as int]
        }
    } by {
        law_listed(list, i);
    }
}

/// The bonds of a step, in turn: the strengths at the listed nodes move on, the proposed bonds are
/// added, and above rest those break that do not reach the floor. The edges are counted anew.
pub proof fn law_step_bond_by_bond(
    s: State,
    list: Seq<usize>,
    pairs: Seq<(usize, usize)>,
    numbers: StepNumbers,
)
    ensures
        ({
            let moved = all_advanced(s.rows, list, numbers.bond_raw@);
            let more = grown(moved, pairs, s.dynamic_bond_geom_weight);
            let mid = regrown(s, list, pairs, numbers);
            let t = advanced(s, list, pairs, numbers);
            &&& mid == (State {
                rows: more,
                directed_edge_count: mid.directed_edge_count,
                ..s
            })
            &&& t.rows == if is_at_most(s.k_t, ZERO) {
                more
            } else {
                decohered(more, list, numbers.floor_root)
            }
            &&& degree_sum(more) <= usize::MAX ==> mid.directed_edge_count == degree_sum(more)
            &&& degree_sum(t.rows) <= usize::MAX ==> t.directed_edge_count == degree_sum(t.rows)
        }),
{
}

/// The report takes its counts from the plan, from the bonds made and broken, and from the state
/// after the step, and its means as handed in; the variance counts as 0 where it is not positive,
/// and without nodes there are no means.
pub proof fn law_report(
    s: State,
    plan: StepPlan,
    counts: BondCounts,
    phi_mean: Bits,
    spread: Bits,
    mean_degree: Bits,
)
    requires
        s.observed.len() <= u64::MAX,
        s.unsettled.len() <= u64::MAX,
    ensures
        ({
            let m = metrics_of(s, plan, counts, phi_mean, spread, mean_degree);
            &&& m.tick == s.tick
            &&& m.n_walkers == plan.n_walkers
            &&& m.n_active == plan.active_list@.len()
            &&& m.n_warm == plan.n_warm
            &&& m.n_computed == plan.compute_list@.len()
            &&& m.bonds_instantiated == counts.instantiated
            &&& m.bonds_removed == counts.removed
            &&& m.bonds_total == s.directed_edge_count / 2
            &&& m.k_t == s.k_t
            &&& m.stimulus_active == plan.n_stimulated
            &&& m.n_observed == s.observed.len()
            &&& m.n_unsettled == s.unsettled.len()
            &&& s.rows.len() > 0 ==> m.phi_mean == phi_mean && m.mean_degree == mean_degree
                && m.phi_var == if is_less(ZERO, spread) {
                spread
            } else {
                ZERO
            }
            &&& s.rows.len() == 0 ==> m.phi_mean == ZERO && m.phi_var == ZERO && m.mean_degree
                == ZERO
            &&& forall|k: int|
                0 <= k < plan.compute_list@.len() ==> !is_less(
                    m.phi_dot_max,
                    magnitude_of(s.phi_dot[#[trigger] plan.compute_list@[k] as int]),
                )
            &&& m.phi_dot_max == ZERO || exists|k: int|
                0 <= k < plan.compute_list@.len() && m.phi_dot_max == magnitude_of(
                    s.phi_dot[#[trigger] plan.compute_list@[k] as int],
                )
        }),
{
    law_top_speed(s.phi_dot, plan.compute_list@);
    assert(plan.active_list@.len() == plan.active_list.len());
    assert(plan.compute_list@.len() == plan.compute_list.len());
}

} // verus!
