//! What holds in every state that driving and stepping a new connectome leads to.
//!
//! A history is such states with the moves between them. A move is what one call of `stimulate`,
//! `begin_step`, `emit`, `hop`, `catch_up` or `advance` does: the contracts of these say of it what
//! [`makes`] says.

use crate::binary64::{is_at_most, is_finite, is_nan, lemma_one, Bits, ONE, ZERO};
use crate::connectome::advance::{advanced, speeds_after, StepNumbers};
use crate::connectome::gauge::Gauge;
use crate::connectome::run::{caught_up, follows, seen, Step, Visits};
use crate::connectome::step::{sighted, StepPlan};
use crate::connectome::{
    is_cold, measured, new_state, pairs_len, stimulated, visited, ColdUpdate, State,
};
use crate::graph::wired;
use crate::laws::ends::{
    law_catching_up_keeps_bonds, law_caught_up_strengths, law_new_strengths,
    law_new_weights_agree, law_strengths_stay_in_unit, law_weights_agree_after_a_step,
    strengths_in_unit, weights_agree,
};
use crate::laws::numbers::{in_unit, law_clip};
use crate::laws::start::are_levels;
use crate::laws::steps::{law_only_computed_nodes_change, lemma_caught_up, lemma_followed};
use crate::laws::stimuli::law_stimuli_change_drives_only;
use crate::members::{lemma_place_of, listed};
use vstd::prelude::*;

verus! {

/// What one call does to a connectome: it drives nodes, begins a step, goes on with its walkers,
/// catches up with a node, or ends the step.
pub enum Move {
    Stimulate { indices: Seq<i32>, amplitudes: Seq<Bits> },
    Begin { tick: i32 },
    Walk { stim: Seq<usize>, gauge: Gauge, next: Step },
    CatchUp { visits: Visits, update: ColdUpdate, next: Step },
    Advance { plan: StepPlan, numbers: StepNumbers },
}

/// Whether the move `m` leads from the state `s` to the state `t`.
pub open spec fn makes(s: State, m: Move, t: State) -> bool {
    match m {
        Move::Stimulate { indices, amplitudes } => t == stimulated(
            s,
            indices,
            amplitudes,
            pairs_len(indices, amplitudes),
        ),
        Move::Begin { tick } => t == (State { tick, ..s }),
        Move::Walk { stim, gauge, next } => follows(s, stim, gauge, t, next),
        Move::CatchUp { visits, update, next } => {
            &&& visits.wf(s)
            &&& update.psi@.len()
                == s.rows[visits.plan.active_list@[visits.next as int] as int].len()
            &&& caught_up(s, visits, update, t, next)
        },
        Move::Advance { plan, numbers } => {
            &&& plan.wf(s)
            &&& plan.all_seen(s)
            &&& numbers.fits(s, plan.compute_list@)
            &&& t == advanced(s, plan.compute_list@, plan.bond_pairs@, numbers)
        },
    }
}

/// Whether `s` is the state of a new connectome.
pub open spec fn is_start(s: State) -> bool {
    s == new_state(
        s.rows,
        s.phi_curr,
        s.phi_sum,
        s.phi_sumsq,
        s.transport_renormalization,
        s.dynamic_bond_geom_weight,
    )
}

/// Whether `states` are valid states from a new connectome on, with `moves` between them. Every call
/// leaves a valid state.
pub open spec fn is_history(states: Seq<State>, moves: Seq<Move>) -> bool {
    &&& states.len() == moves.len() + 1
    &&& is_start(states[0])
    &&& forall|k: int| 0 <= k < states.len() ==> (#[trigger] states[k]).wf()
    &&& forall|k: int| 0 <= k < moves.len() ==> makes(states[k], #[trigger] moves[k], states[k + 1])
}

/// What a move does to who is in sight, and what it leaves as it is: whoever is observed stays so,
/// a node not observed after the move keeps its field, its field before and its debt, and there are
/// as many nodes.
proof fn lemma_move(s: State, m: Move, t: State)
    requires
        s.wf(),
        t.wf(),
        makes(s, m, t),
    ensures
        t.n() == s.n(),
        forall|i: usize| #[trigger] s.observed.contains(i) ==> t.observed.contains(i),
        forall|i: usize|
            i < s.n() && !#[trigger] t.observed.contains(i) ==> {
                &&& t.phi_curr[i as int] == s.phi_curr[i as int]
                &&& t.phi_prev[i as int] == s.phi_prev[i as int] || t.phi_prev[i as int]
                    == s.phi_curr[i as int]
                &&& t.debt[i as int] == s.debt[i as int]
            },
        !(m is Advance) ==> t.phi_dot == s.phi_dot,
        m matches Move::Advance { plan, numbers } ==> t.phi_dot == speeds_after(
            s,
            plan.compute_list@,
            numbers.phi_dot@,
        ),
{
    match m {
        Move::Stimulate { indices, amplitudes } => {
            law_stimuli_change_drives_only(
                s,
                indices,
                amplitudes,
                pairs_len(indices, amplitudes),
            );
        },
        Move::Begin { .. } => {},
        Move::Walk { stim, gauge, next } => {
            if gauge.cursor is None {
                lemma_followed(s, stim, gauge, t, next);
                let mid = sighted(s, stim, gauge.active_set(s), gauge.warm_set(s));
                assert forall|i: usize| #[trigger] s.observed.contains(i) implies t.observed.contains(
                    i,
                ) by {
                    assert(mid.observed.contains(i));
                }
            }
        },
        Move::CatchUp { visits, update, next } => {
            lemma_caught_up(s, visits, update, t, next);
        },
        Move::Advance { plan, numbers } => {
            assert forall|i: usize| i < s.n() && !#[trigger] t.observed.contains(i) implies {
                &&& t.phi_curr[i as int] == s.phi_curr[i as int]
                &&& t.phi_prev[i as int] == s.phi_prev[i as int] || t.phi_prev[i as int]
                    == s.phi_curr[i as int]
                &&& t.debt[i as int] == s.debt[i as int]
            } by {
                law_only_computed_nodes_change(
                    s,
                    plan.compute_list@,
                    plan.bond_pairs@,
                    numbers,
                    i,
                );
                if listed(plan.compute_list@, i as int) {
                    assert(s.observed.contains(i));
                }
            }
        },
    }
}

/// What was once observed is observed in every later state, and there are always as many nodes.
pub proof fn law_observed_forever(states: Seq<State>, moves: Seq<Move>, a: int, b: int)
    requires
        is_history(states, moves),
        0 <= a <= b < states.len(),
    ensures
        states[b].n() == states[a].n(),
        forall|i: usize| #[trigger]
            states[a].observed.contains(i) ==> states[b].observed.contains(i),
    decreases b - a,
{
    if a < b {
        law_observed_forever(states, moves, a, b - 1);
        assert(makes(states[b - 1], moves[b - 1], states[b]));
        lemma_move(states[b - 1], moves[b - 1], states[b]);
        assert forall|i: usize| #[trigger] states[a].observed.contains(i) implies states[b].observed.contains(
            i,
        ) by {
            assert(states[b - 1].observed.contains(i));
        }
    }
}

/// A node that is not observed is as it was in the first state: never visited, with its first
/// field, also as the one before, without a debt, and still, as long as that field is finite. Where
/// the first field holds levels, it is 1.
pub proof fn law_unobserved_keep_their_start(
    states: Seq<State>,
    moves: Seq<Move>,
    k: int,
    i: usize,
)
    requires
        is_history(states, moves),
        0 <= k < states.len(),
        i < states[0].n(),
        !states[k].observed.contains(i),
    ensures
        states[k].n() == states[0].n(),
        states[k].last_visit[i as int] == -1,
        states[k].phi_curr[i as int] == states[0].phi_curr[i as int],
        states[k].phi_prev[i as int] == states[0].phi_curr[i as int],
        states[k].debt[i as int] == ZERO,
        is_finite(states[0].phi_curr[i as int]) ==> states[k].phi_dot[i as int] == ZERO,
        are_levels(states[0].rows, states[0].phi_curr) ==> states[k].phi_curr[i as int] == ONE
            && states[k].phi_prev[i as int] == ONE && states[k].phi_dot[i as int] == ZERO,
    decreases k,
{
    if k > 0 {
        let (s, m, t) = (states[k - 1], moves[k - 1], states[k]);
        assert(makes(s, m, t));
        lemma_move(s, m, t);
        law_observed_forever(states, moves, 0, k - 1);
        assert(s.observed.contains(i) ==> t.observed.contains(i));
        law_unobserved_keep_their_start(states, moves, k - 1, i);
        if let Move::Advance { plan, numbers } = m {
            if listed(plan.compute_list@, i as int) {
                assert(s.observed.contains(i));
            }
        }
    }
}

/// Whether the tick has reached 0 and every observed node was visited.
pub open spec fn observed_were_visited(s: State) -> bool {
    s.tick >= 0 && forall|i: usize| #[trigger]
        s.observed.contains(i) ==> i < s.last_visit.len() && s.last_visit[i as int] >= 0
}

/// Visiting keeps every observed node a visited one.
proof fn lemma_seen_visited(s: State, list: Seq<usize>, k: int)
    requires
        observed_were_visited(s),
        0 <= k <= list.len(),
        forall|j: int| 0 <= j < list.len() ==> #[trigger] list[j] < s.last_visit.len(),
    ensures
        observed_were_visited(seen(s, list, k).0),
    decreases list.len() - k,
{
    if k < list.len() && !is_cold(s, list[k] as int) {
        lemma_seen_visited(visited(s, list[k]), list, k + 1);
    }
}

/// A move at a tick from 0 on keeps every observed node a visited one.
proof fn lemma_move_visited(s: State, m: Move, t: State)
    requires
        s.wf(),
        t.wf(),
        makes(s, m, t),
        observed_were_visited(s),
        m matches Move::Begin { tick } ==> tick >= 0,
    ensures
        observed_were_visited(t),
{
    match m {
        Move::Stimulate { indices, amplitudes } => {
            law_stimuli_change_drives_only(
                s,
                indices,
                amplitudes,
                pairs_len(indices, amplitudes),
            );
        },
        Move::Begin { .. } => {},
        Move::Walk { stim, gauge, next } => {
            if gauge.cursor is None {
                let mid = sighted(s, stim, gauge.active_set(s), gauge.warm_set(s));
                let plan = next.planned()->0;
                lemma_followed(s, stim, gauge, t, next);
                lemma_move(s, m, t);
                assert forall|i: usize| #[trigger] mid.observed.contains(i) implies i
                    < mid.last_visit.len() && mid.last_visit[i as int] >= 0 by {
                    assert(t.observed.contains(i));
                }
                lemma_seen_visited(mid, plan.active_list@, 0);
            }
        },
        Move::CatchUp { visits, update, next } => {
            let node = visits.plan.active_list@[visits.next as int];
            let mid = visited(measured(s, node as int, update), node);
            lemma_seen_visited(mid, visits.plan.active_list@, visits.next + 1);
        },
        Move::Advance { .. } => {},
    }
}

/// With ticks from 0 on, the observed nodes are just those that were visited, and the others have
/// -1 for their last visit.
pub proof fn law_observed_were_visited(states: Seq<State>, moves: Seq<Move>, k: int)
    requires
        is_history(states, moves),
        0 <= k < states.len(),
        forall|j: int|
            0 <= j < k ==> ((#[trigger] moves[j]) matches Move::Begin { tick } ==> tick >= 0),
    ensures
        observed_were_visited(states[k]),
        forall|i: usize|
            i < states[k].n() ==> (#[trigger] states[k].observed.contains(i)
                <==> states[k].last_visit[i as int] >= 0),
        forall|i: usize|
            i < states[k].n() && !#[trigger] states[k].observed.contains(i)
                ==> states[k].last_visit[i as int] == -1,
    decreases k,
{
    if k > 0 {
        law_observed_were_visited(states, moves, k - 1);
        assert(makes(states[k - 1], moves[k - 1], states[k]));
        lemma_move_visited(states[k - 1], moves[k - 1], states[k]);
    }
}

/// Whether the field, now and before, is between 0 and 1 at every node, no debt is negative, and
/// neither is the temperature.
pub open spec fn field_in_range(s: State) -> bool {
    &&& forall|i: int| 0 <= i < s.phi_curr.len() ==> in_unit(#[trigger] s.phi_curr[i])
    &&& forall|i: int| 0 <= i < s.phi_prev.len() ==> in_unit(#[trigger] s.phi_prev[i])
    &&& forall|i: int| 0 <= i < s.debt.len() ==> is_at_most(ZERO, #[trigger] s.debt[i])
    &&& is_at_most(ZERO, s.k_t)
}

/// Whether what a node catches up with lies between 0 and 1, and its debt is not negative.
pub open spec fn update_in_range(update: ColdUpdate) -> bool {
    &&& in_unit(update.phi_curr)
    &&& in_unit(update.phi_prev)
    &&& is_at_most(ZERO, update.debt)
    &&& forall|k: int| 0 <= k < update.psi@.len() ==> in_unit(#[trigger] update.psi@[k])
}

/// Whether what a step clips is a number, and no debt is negative.
pub open spec fn numbers_in_range(numbers: StepNumbers) -> bool {
    &&& forall|k: int|
        0 <= k < numbers.phi_raw@.len() ==> !is_nan(#[trigger] numbers.phi_raw@[k])
    &&& forall|j: int, k: int|
        0 <= j < numbers.bond_raw@.len() && 0 <= k < numbers.bond_raw@[j]@.len() ==> !is_nan(
            #[trigger] numbers.bond_raw@[j]@[k],
        )
    &&& forall|k: int|
        0 <= k < numbers.debt@.len() ==> is_at_most(ZERO, #[trigger] numbers.debt@[k])
}

/// Whether the numbers that a move hands in are in range.
pub open spec fn hands_in_range(m: Move) -> bool {
    match m {
        Move::CatchUp { visits, update, next } => update_in_range(update),
        Move::Advance { plan, numbers } => numbers_in_range(numbers),
        _ => true,
    }
}

/// The end of a step keeps field and debts in range.
pub proof fn law_range_after_a_step(s: State, plan: StepPlan, numbers: StepNumbers)
    requires
        s.wf(),
        plan.wf(s),
        numbers.fits(s, plan.compute_list@),
        field_in_range(s),
        numbers_in_range(numbers),
    ensures
        field_in_range(advanced(s, plan.compute_list@, plan.bond_pairs@, numbers)),
{
    let list = plan.compute_list@;
    let t = advanced(s, list, plan.bond_pairs@, numbers);
    lemma_one();
    assert forall|i: int| 0 <= i < t.phi_curr.len() implies in_unit(#[trigger] t.phi_curr[i]) by {
        if listed(list, i) {
            let k = choose|k: int| 0 <= k < list.len() && #[trigger] list[k] == i;
            lemma_place_of(list, k);
            assert(!is_nan(numbers.phi_raw@[k]));
            law_clip(numbers.phi_raw@[k]);
        } else {
            assert(in_unit(s.phi_curr[i]));
        }
    }
    assert forall|i: int| 0 <= i < t.debt.len() implies is_at_most(ZERO, #[trigger] t.debt[i]) by {
        if listed(list, i) {
            let k = choose|k: int| 0 <= k < list.len() && #[trigger] list[k] == i;
            lemma_place_of(list, k);
            assert(is_at_most(ZERO, numbers.debt@[k]));
        } else {
            assert(is_at_most(ZERO, s.debt[i]));
        }
    }
}

/// A node that catches up with numbers in range leaves field and debts in range.
pub proof fn law_range_after_catching_up(s: State, node: usize, update: ColdUpdate)
    requires
        node < s.phi_curr.len(),
        node < s.phi_prev.len(),
        node < s.debt.len(),
        field_in_range(s),
        update_in_range(update),
    ensures
        field_in_range(measured(s, node as int, update)),
{
    let t = measured(s, node as int, update);
    assert forall|i: int| 0 <= i < t.phi_curr.len() implies in_unit(#[trigger] t.phi_curr[i]) by {
        assert(in_unit(s.phi_curr[i]));
    }
    assert forall|i: int| 0 <= i < t.phi_prev.len() implies in_unit(#[trigger] t.phi_prev[i]) by {
        assert(in_unit(s.phi_prev[i]));
    }
    assert forall|i: int| 0 <= i < t.debt.len() implies is_at_most(ZERO, #[trigger] t.debt[i]) by {
        assert(is_at_most(ZERO, s.debt[i]));
    }
}

/// Whether field, debts and strengths are in range, and both ends of every bond have one weight.
pub open spec fn in_range(s: State) -> bool {
    field_in_range(s) && strengths_in_unit(s.rows) && weights_agree(s.rows)
}

/// A move that hands in numbers in range leaves the state in range.
proof fn lemma_move_in_range(s: State, m: Move, t: State)
    requires
        s.wf(),
        t.wf(),
        makes(s, m, t),
        in_range(s),
        hands_in_range(m),
    ensures
        in_range(t),
{
    match m {
        Move::Stimulate { indices, amplitudes } => {
            law_stimuli_change_drives_only(
                s,
                indices,
                amplitudes,
                pairs_len(indices, amplitudes),
            );
        },
        Move::Begin { .. } => {},
        Move::Walk { stim, gauge, next } => {
            if gauge.cursor is None {
                lemma_followed(s, stim, gauge, t, next);
            }
        },
        Move::CatchUp { visits, update, next } => {
            let node = visits.plan.active_list@[visits.next as int];
            lemma_caught_up(s, visits, update, t, next);
            law_range_after_catching_up(s, node, update);
            law_caught_up_strengths(s, node, update);
            law_catching_up_keeps_bonds(s, node, update);
        },
        Move::Advance { plan, numbers } => {
            law_range_after_a_step(s, plan, numbers);
            law_strengths_stay_in_unit(s, plan.compute_list@, plan.bond_pairs@, numbers);
            law_weights_agree_after_a_step(s, plan.compute_list@, plan.bond_pairs@, numbers);
        },
    }
}

/// In every state, the field, now and before, and the strengths, now and before, lie between 0 and
/// 1, no debt and no temperature is negative, and both ends of every bond have one weight: this
/// holds from a connectome with the listed bonds and levels between 0 and 1 on, as long as the
/// numbers that are handed in are in range.
pub proof fn law_every_state_is_in_range(
    states: Seq<State>,
    moves: Seq<Move>,
    edges: Seq<(usize, usize, Bits)>,
    k: int,
)
    requires
        is_history(states, moves),
        states[0].rows == wired(states[0].n(), edges),
        forall|i: int|
            0 <= i < states[0].phi_curr.len() ==> in_unit(#[trigger] states[0].phi_curr[i]),
        0 <= k < states.len(),
        forall|j: int| 0 <= j < k ==> hands_in_range(#[trigger] moves[j]),
    ensures
        in_range(states[k]),
    decreases k,
{
    if k == 0 {
        law_new_weights_agree(states[0].n(), edges);
        law_new_strengths(states[0].n(), edges);
        lemma_one();
    } else {
        law_every_state_is_in_range(states, moves, edges, k - 1);
        assert(makes(states[k - 1], moves[k - 1], states[k]));
        lemma_move_in_range(states[k - 1], moves[k - 1], states[k]);
    }
}

} // verus!
