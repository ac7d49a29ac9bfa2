//! What holds of a step: who is in sight, what changes and what is reported.

use crate::binary64::{
    clipped, is_at_most, is_far, is_finite, is_less, is_nan, lemma_one, lemma_size_positive,
    magnitude_of, Bits, SIGN, ZERO,
};
use crate::connectome::advance::{advanced, stays_unsettled, BondCounts, StepNumbers};
use crate::connectome::gauge::Gauge;
use crate::connectome::report::{metrics_of, top_speed};
use crate::connectome::run::{caught_up, follows, rests_at, seen, Step, Visits};
use crate::connectome::step::{is_node_list, is_warm, sighted, StepPlan};
use crate::connectome::{is_cold, measured, visited, ColdUpdate, State};
use crate::graph::{all_advanced, lemma_decohered_none};
use crate::laws::numbers::{in_unit, law_clip};
use crate::members::{ascending, lemma_place_of, listed};
use vstd::prelude::*;
use vstd::set_lib::lemma_len_subset;

verus! {

/// Visiting marks each node from place `k` up to the one that was out of sight as seen now, and
/// changes no bond, no number and no other node's last visit.
pub proof fn law_visits(s: State, list: Seq<usize>, k: int)
    requires
        ascending(list),
        forall|j: int| 0 <= j < list.len() ==> #[trigger] list[j] < s.last_visit.len(),
        0 <= k <= list.len(),
        forall|j: int| 0 <= j < k ==> s.last_visit[#[trigger] list[j] as int] == s.tick,
    ensures
        ({
            let (end, place) = seen(s, list, k);
            &&& k <= place <= list.len()
            &&& end == (State { last_visit: end.last_visit, observed: end.observed, ..s })
            &&& end.last_visit.len() == s.last_visit.len()
            &&& forall|j: int|
                0 <= j < place ==> end.last_visit[#[trigger] list[j] as int] == s.tick
            &&& forall|j: int| k <= j < place ==> end.observed.contains(#[trigger] list[j])
            &&& forall|i: usize| #[trigger]
                s.observed.contains(i) ==> end.observed.contains(i)
            &&& forall|i: int|
                0 <= i < s.last_visit.len() && !listed(list, i) ==> #[trigger] end.last_visit[i]
                    == s.last_visit[i]
        }),
    decreases list.len() - k,
{
    if k < list.len() && !is_cold(s, list[k] as int) {
        let t = visited(s, list[k]);
        assert forall|j: int| 0 <= j < k + 1 implies t.last_visit[#[trigger] list[j] as int]
            == t.tick by {}
        law_visits(t, list, k + 1);
        let (end, place) = seen(t, list, k + 1);
        assert(seen(s, list, k) == (end, place));
        assert(t.observed.contains(list[k]));
        assert forall|i: usize| #[trigger] s.observed.contains(i) implies end.observed.contains(
            i,
        ) by {
            assert(t.observed.contains(i));
        }
        assert forall|i: int|
            0 <= i < s.last_visit.len() && !listed(list, i) implies #[trigger] end.last_visit[i]
            == s.last_visit[i] by {
            assert(list[k] != i);
        }
        assert(end == (State { last_visit: end.last_visit, observed: end.observed, ..s }));
    } else {
        assert(seen(s, list, k) == (s, k));
    }
}

/// Where the last walker leads: to a plan, with the stimulated and warm nodes in sight and some
/// active ones visited, and with nothing else changed.
pub proof fn lemma_followed(s: State, stim: Seq<usize>, g: Gauge, after: State, next: Step)
    requires
        g.cursor is None,
        s.last_visit.len() == s.n(),
        follows(s, stim, g, after, next),
    ensures
        ({
            let mid = sighted(s, stim, g.active_set(s), g.warm_set(s));
            &&& next.planned() matches Some(plan) && {
                &&& plan.describes(
                    s,
                    stim,
                    g.hops.len(),
                    g.active_set(s),
                    g.warm_set(s),
                    g.proposed_set(s),
                )
                &&& plan.wf(mid)
                &&& rests_at(mid, plan, 0, after, next)
            }
            &&& after == (State { last_visit: after.last_visit, observed: after.observed, ..s })
            &&& forall|i: usize| #[trigger]
                mid.observed.contains(i) ==> after.observed.contains(i)
        }),
{
    let mid = sighted(s, stim, g.active_set(s), g.warm_set(s));
    law_visits(mid, next.planned()->0.active_list@, 0);
}

/// Where catching up leads: to a later visit or the end of the visits, with more nodes in sight and
/// nothing changed but what the update says.
pub proof fn lemma_caught_up(
    s: State,
    visits: Visits,
    update: ColdUpdate,
    after: State,
    next: Step,
)
    requires
        s.wf(),
        visits.wf(s),
        caught_up(s, visits, update, after, next),
    ensures
        ({
            let node = visits.plan.active_list@[visits.next as int];
            &&& after == (State {
                last_visit: after.last_visit,
                observed: after.observed,
                ..measured(s, node as int, update)
            })
            &&& after.observed.contains(node)
        }),
        forall|i: usize| #[trigger] s.observed.contains(i) ==> after.observed.contains(i),
        next.planned() == Some(visits.plan),
        next matches Step::Visit(v) ==> v.next > visits.next,
{
    let list = visits.plan.active_list@;
    let node = list[visits.next as int];
    let mid = visited(measured(s, node as int, update), node);
    assert forall|j: int| 0 <= j < visits.next + 1 implies mid.last_visit[#[trigger] list[j] as int]
        == mid.tick by {}
    law_visits(mid, list, visits.next + 1);
    assert(mid.observed.contains(node));
    assert forall|i: usize| #[trigger] s.observed.contains(i) implies after.observed.contains(i) by {
        assert(mid.observed.contains(i));
    }
}

/// When a step asks for the numbers that end it, every active node was seen at this tick, and every
/// node to compute is observed.
pub proof fn law_active_nodes_are_seen(s: State, plan: StepPlan)
    requires
        Step::Compute(plan).wf(s),
    ensures
        forall|i: usize| #[trigger]
            listed(plan.active_list@, i as int) ==> s.last_visit[i as int] == s.tick,
        forall|i: usize| #[trigger]
            listed(plan.compute_list@, i as int) ==> s.observed.contains(i),
{
    let list = plan.active_list@;
    assert forall|i: usize| #[trigger] listed(list, i as int) implies s.last_visit[i as int]
        == s.tick by {
        let j = choose|j: int| 0 <= j < list.len() && #[trigger] list[j] == i;
        assert(s.last_visit[list[j] as int] == s.tick);
    }
}

/// What was once observed stays observed where the walkers lead; with the last of them the
/// stimulated and the warm nodes come to be observed.
pub proof fn law_observed_stay_observed(
    s: State,
    stim: Seq<usize>,
    g: Gauge,
    after: State,
    next: Step,
)
    requires
        s.wf(),
        follows(s, stim, g, after, next),
    ensures
        forall|i: usize| #[trigger] s.observed.contains(i) ==> after.observed.contains(i),
        forall|i: usize|
            g.cursor is None && #[trigger] listed(stim, i as int) ==> after.observed.contains(i),
        forall|i: usize|
            g.cursor is None && #[trigger] g.warm_set(s).contains(i) ==> after.observed.contains(
                i,
            ),
{
    if g.cursor is None {
        lemma_followed(s, stim, g, after, next);
        let mid = sighted(s, stim, g.active_set(s), g.warm_set(s));
        assert forall|i: usize|
            #![trigger after.observed.contains(i)]
            #![trigger s.observed.contains(i)]
            #![trigger g.warm_set(s).contains(i)]
            s.observed.contains(i) || listed(stim, i as int) || g.warm_set(s).contains(
                i,
            ) implies after.observed.contains(i) by {
            assert(mid.observed.contains(i));
        }
    }
}

/// What was once observed stays observed where a node catches up.
pub proof fn law_observed_stay_after_catching_up(
    s: State,
    visits: Visits,
    update: ColdUpdate,
    after: State,
    next: Step,
)
    requires
        s.wf(),
        visits.wf(s),
        caught_up(s, visits, update, after, next),
    ensures
        forall|i: usize| #[trigger] s.observed.contains(i) ==> after.observed.contains(i),
        after.observed.contains(visits.plan.active_list@[visits.next as int]),
        next.planned() == Some(visits.plan),
        next matches Step::Visit(v) ==> v.next > visits.next,
{
    lemma_caught_up(s, visits, update, after, next);
}

/// The nodes up to `n`, as a set.
proof fn lemma_nodes(n: nat) -> (nodes: Set<usize>)
    requires
        n <= usize::MAX,
    ensures
        nodes.finite(),
        nodes.len() == n,
        forall|i: usize| #[trigger] nodes.contains(i) <==> i < n,
{
    let all = Seq::new(n, |i: int| i as usize);
    assert(all.no_duplicates());
    all.unique_seq_to_set();
    assert forall|i: usize| #[trigger] all.to_set().contains(i) <==> i < n by {
        if i < n {
            assert(all[i as int] == i);
        }
    }
    all.to_set()
}

/// A set of nodes that all stand in an ascending list has at most as many as the list is long.
proof fn lemma_listed_len(set: Set<usize>, list: Seq<usize>)
    requires
        ascending(list),
        forall|i: usize| #[trigger] set.contains(i) ==> listed(list, i as int),
    ensures
        set.finite(),
        set.len() <= list.len(),
{
    assert(list.no_duplicates());
    list.unique_seq_to_set();
    assert(set.subset_of(list.to_set())) by {
        assert forall|i: usize| #[trigger] set.contains(i) implies list.to_set().contains(i) by {
            assert(listed(list, i as int));
            let k = choose|k: int| 0 <= k < list.len() && #[trigger] list[k] == i;
            assert(list[k] == i);
        }
    }
    lemma_len_subset(set, list.to_set());
}

/// An ascending list whose nodes all belong to a set is at most as long as the set is large.
proof fn lemma_list_len(list: Seq<usize>, set: Set<usize>)
    requires
        ascending(list),
        set.finite(),
        forall|i: usize| #[trigger] listed(list, i as int) ==> set.contains(i),
    ensures
        list.len() <= set.len(),
{
    assert(list.no_duplicates());
    list.unique_seq_to_set();
    assert(list.to_set().subset_of(set)) by {
        assert forall|i: usize| #[trigger] list.to_set().contains(i) implies set.contains(i) by {
            let k = choose|k: int| 0 <= k < list.len() && list[k] == i;
            assert(list[k] == i);
            assert(listed(list, i as int));
        }
    }
    lemma_len_subset(list.to_set(), set);
}

/// The counts of a step are ordered: stimulated nodes up to active ones, these up to the computed
/// ones, these up to the observed ones, and these up to all nodes; warm nodes, and the nodes that
/// are unsettled after the step, up to the computed ones.
pub proof fn law_counts_are_ordered(
    s: State,
    stim: Seq<usize>,
    n_walkers: nat,
    active: Set<usize>,
    warm: Set<usize>,
    pairs: Set<(usize, usize)>,
    plan: StepPlan,
    after: State,
    numbers: StepNumbers,
)
    requires
        is_node_list(s, stim),
        plan.describes(s, stim, n_walkers, active, warm, pairs),
        after.wf(),
        Step::Compute(plan).wf(after),
    ensures
        plan.n_stimulated <= plan.active_list@.len() <= plan.compute_list@.len()
            <= after.observed.len() <= after.n(),
        plan.n_warm <= plan.compute_list@.len(),
        advanced(after, plan.compute_list@, plan.bond_pairs@, numbers).unsettled.len()
            <= plan.compute_list@.len(),
{
    let list = plan.compute_list@;
    let end = advanced(after, list, plan.bond_pairs@, numbers);
    let nodes = lemma_nodes(after.n());
    assert(after.observed.subset_of(nodes));
    lemma_len_subset(after.observed, nodes);
    lemma_list_len(list, after.observed);
    let computed = list.to_set();
    assert(list.no_duplicates());
    list.unique_seq_to_set();
    assert forall|i: usize| #[trigger] listed(list, i as int) implies computed.contains(i) by {
        let k = choose|k: int| 0 <= k < list.len() && #[trigger] list[k] == i;
        assert(list[k] == i);
    }
    lemma_list_len(plan.active_list@, computed);
    let acting = plan.active_list@.to_set();
    assert(plan.active_list@.no_duplicates());
    plan.active_list@.unique_seq_to_set();
    assert forall|i: usize| #[trigger] listed(stim, i as int) implies acting.contains(i) by {
        assert(listed(plan.active_list@, i as int));
        let k = choose|k: int|
            0 <= k < plan.active_list@.len() && #[trigger] plan.active_list@[k] == i;
        assert(plan.active_list@[k] == i);
    }
    lemma_list_len(stim, acting);
    lemma_listed_len(Set::new(|i: usize| is_warm(s, active, warm, stim, i)), list);
    law_unsettled_were_computed(after, plan, numbers);
    lemma_listed_len(end.unsettled, list);
}

/// A node that is not computed keeps its field, its debt and whether it has settled, and is still
/// where its field is finite; a computed one has a field between 0 and 1, if it has a number at all.
/// Who is in sight stays the same.
pub proof fn law_only_computed_nodes_change(
    s: State,
    list: Seq<usize>,
    pairs: Seq<(usize, usize)>,
    numbers: StepNumbers,
    i: usize,
)
    requires
        s.wf(),
        is_node_list(s, list),
        numbers.fits(s, list),
        i < s.n(),
    ensures
        ({
            let t = advanced(s, list, pairs, numbers);
            &&& t.phi_prev == s.phi_curr
            &&& t.observed == s.observed
            &&& t.last_visit == s.last_visit
            &&& !listed(list, i as int) ==> {
                &&& t.phi_curr[i as int] == s.phi_curr[i as int]
                &&& t.debt[i as int] == s.debt[i as int]
                &&& t.unsettled.contains(i) == s.unsettled.contains(i)
                &&& is_finite(s.phi_curr[i as int]) ==> t.phi_dot[i as int] == ZERO
            }
            &&& listed(list, i as int) ==> is_nan(t.phi_curr[i as int]) || in_unit(
                t.phi_curr[i as int],
            )
        }),
{
    if listed(list, i as int) {
        let k = choose|k: int| 0 <= k < list.len() && #[trigger] list[k] == i;
        lemma_place_of(list, k);
        law_clip(numbers.phi_raw@[k]);
    }
}

/// After a step just those computed nodes are unsettled that are far from their wells or fast.
pub proof fn law_unsettled_were_computed(s: State, plan: StepPlan, numbers: StepNumbers)
    requires
        plan.wf(s),
    ensures
        forall|k: int|
            0 <= k < plan.compute_list@.len() ==> advanced(
                s,
                plan.compute_list@,
                plan.bond_pairs@,
                numbers,
            ).unsettled.contains(#[trigger] plan.compute_list@[k]) == (is_far(
                clipped(numbers.phi_raw@[k]),
                numbers.pos_thresh,
            ) || is_less(
                numbers.vel_thresh,
                magnitude_of(numbers.phi_dot@[plan.compute_list@[k] as int]),
            )),
        forall|i: usize| #[trigger]
            advanced(
                s,
                plan.compute_list@,
                plan.bond_pairs@,
                numbers,
            ).unsettled.contains(i) ==> listed(plan.compute_list@, i as int),
{
    let list = plan.compute_list@;
    assert forall|k: int| 0 <= k < list.len() implies advanced(
        s,
        list,
        plan.bond_pairs@,
        numbers,
    ).unsettled.contains(#[trigger] list[k]) == stays_unsettled(list, numbers, k) by {
        lemma_place_of(list, k);
    }
}

/// A connectome without a stimulus or an unsettled node computes nothing: its step changes neither
/// the field nor a bond, a debt, a sum or the temperature.
pub proof fn law_stillness(s: State, plan: StepPlan, numbers: StepNumbers)
    requires
        s.wf(),
        s.unsettled.is_empty(),
        plan.wf(s),
        plan.describes(s, Seq::empty(), 0, Set::empty(), Set::empty(), Set::empty()),
        numbers.fits(s, plan.compute_list@),
    ensures
        plan.active_list@.len() == 0,
        plan.compute_list@.len() == 0,
        plan.bond_pairs@.len() == 0,
        forall|i: int|
            0 <= i < s.n() && is_finite(s.phi_curr[i]) ==> #[trigger] advanced(
                s,
                plan.compute_list@,
                plan.bond_pairs@,
                numbers,
            ).phi_dot[i] == ZERO,
        ({
            let end = advanced(s, plan.compute_list@, plan.bond_pairs@, numbers);
            end == (State {
                phi_prev: s.phi_curr,
                phi_dot: end.phi_dot,
                j_ext: end.j_ext,
                j_ext_nonzero: Set::empty(),
                ..s
            })
        }),
{
    let list = plan.compute_list@;
    let pairs = plan.bond_pairs@;
    if list.len() > 0 {
        assert(listed(list, list[0] as int));
    }
    if plan.active_list@.len() > 0 {
        assert(listed(plan.active_list@, plan.active_list@[0] as int));
    }
    if pairs.len() > 0 {
        assert(pairs.to_set().contains(pairs[0]));
    }
    let moved = all_advanced(s.rows, list, numbers.bond_raw@);
    assert(moved =~= s.rows) by {
        assert forall|u: int| 0 <= u < s.rows.len() implies moved[u] == s.rows[u] by {}
    }
    lemma_decohered_none(s.rows, list, numbers.floor_root);
    let end = advanced(s, list, pairs, numbers);
    assert(end.phi_curr =~= s.phi_curr);
    assert(end.debt =~= s.debt);
    assert(end.unsettled =~= s.unsettled);
}

/// The largest speed is that of a listed node, or 0, and no listed speed exceeds it.
pub proof fn law_top_speed(phi_dot: Seq<Bits>, list: Seq<usize>)
    ensures
        !is_nan(top_speed(phi_dot, list)),
        forall|k: int|
            0 <= k < list.len() ==> !is_less(
                top_speed(phi_dot, list),
                magnitude_of(phi_dot[#[trigger] list[k] as int]),
            ),
        top_speed(phi_dot, list) == ZERO || exists|k: int|
            0 <= k < list.len() && top_speed(phi_dot, list) == magnitude_of(
                phi_dot[#[trigger] list[k] as int],
            ),
    decreases list.len(),
{
    lemma_one();
    if list.len() > 0 {
        let rest = list.drop_last();
        law_top_speed(phi_dot, rest);
        let top = top_speed(phi_dot, list);
        assert forall|k: int| 0 <= k < list.len() implies !is_less(
            top,
            magnitude_of(phi_dot[#[trigger] list[k] as int]),
        ) by {
            if k < rest.len() {
                assert(rest[k] == list[k]);
            }
        }
        if top == top_speed(phi_dot, rest) && top != ZERO {
            let k = choose|k: int|
                0 <= k < rest.len() && top == magnitude_of(
                    phi_dot[#[trigger] rest[k] as int],
                );
            assert(list[k] == rest[k]);
        } else if top != ZERO {
            assert(list[list.len() - 1] == list.last());
        }
    }
}

/// Whether nothing moves at the nodes that are not listed.
pub open spec fn still_elsewhere(phi_dot: Seq<Bits>, list: Seq<usize>) -> bool {
    forall|i: int|
        0 <= i < phi_dot.len() && !listed(list, i) ==> #[trigger] phi_dot[i] == ZERO
}

/// Where all other nodes are still, no speed at all exceeds the largest one among the listed nodes.
pub proof fn law_top_speed_of_all(phi_dot: Seq<Bits>, list: Seq<usize>)
    requires
        still_elsewhere(phi_dot, list),
    ensures
        forall|i: int|
            0 <= i < phi_dot.len() ==> !is_less(
                top_speed(phi_dot, list),
                magnitude_of(#[trigger] phi_dot[i]),
            ),
{
    law_top_speed(phi_dot, list);
    let top = top_speed(phi_dot, list);
    lemma_one();
    assert forall|i: int| 0 <= i < phi_dot.len() implies !is_less(
        top,
        magnitude_of(#[trigger] phi_dot[i]),
    ) by {
        if listed(list, i) {
            let k = choose|k: int| 0 <= k < list.len() && #[trigger] list[k] == i;
            assert(list[k] == i);
        } else {
            lemma_size_positive(magnitude_of(top) as int);
            if top != ZERO {
                let k = choose|k: int|
                    0 <= k < list.len() && top == magnitude_of(phi_dot[#[trigger] list[k] as int]);
                assert(top < SIGN);
            }
        }
    }
}

/// The speed that the report on a step gives is the largest of all nodes: none exceeds it, and it is
/// that of a node or 0, as long as the nodes that are not computed have finite fields.
pub proof fn law_reported_speed(
    s: State,
    plan: StepPlan,
    numbers: StepNumbers,
    counts: BondCounts,
    phi_mean: Bits,
    spread: Bits,
    mean_degree: Bits,
)
    requires
        s.wf(),
        plan.wf(s),
        numbers.fits(s, plan.compute_list@),
        forall|i: int|
            0 <= i < s.n() && !listed(plan.compute_list@, i) ==> is_finite(
                #[trigger] s.phi_curr[i],
            ),
    ensures
        ({
            let end = advanced(s, plan.compute_list@, plan.bond_pairs@, numbers);
            let most = metrics_of(
                end,
                plan,
                counts,
                phi_mean,
                spread,
                mean_degree,
            ).phi_dot_max;
            &&& !is_nan(most)
            &&& forall|i: int|
                0 <= i < end.phi_dot.len() ==> !is_less(
                    most,
                    magnitude_of(#[trigger] end.phi_dot[i]),
                )
            &&& most == ZERO || exists|i: int|
                0 <= i < end.phi_dot.len() && most == magnitude_of(#[trigger] end.phi_dot[i])
        }),
{
    let list = plan.compute_list@;
    let phi_dot = advanced(s, list, plan.bond_pairs@, numbers).phi_dot;
    let top = top_speed(phi_dot, list);
    assert(still_elsewhere(phi_dot, list)) by {
        assert forall|i: int| 0 <= i < phi_dot.len() && !listed(list, i) implies #[trigger] phi_dot[i]
            == ZERO by {
            assert(is_finite(s.phi_curr[i]));
        }
    }
    law_top_speed(phi_dot, list);
    law_top_speed_of_all(phi_dot, list);
    if top != ZERO {
        let k = choose|k: int|
            0 <= k < list.len() && top == magnitude_of(phi_dot[#[trigger] list[k] as int]);
        assert(top == magnitude_of(phi_dot[list[k] as int]));
    }
}

/// The report on a step keeps its counts in order: stimulated nodes up to active ones, these up to
/// the computed ones, these up to the observed ones, and these up to all nodes; warm and unsettled
/// nodes up to the computed ones. It counts each bond once, and reports neither a negative variance
/// nor a negative temperature.
pub proof fn law_report_is_in_order(
    s: State,
    stim: Seq<usize>,
    n_walkers: nat,
    active: Set<usize>,
    warm: Set<usize>,
    pairs: Set<(usize, usize)>,
    plan: StepPlan,
    after: State,
    numbers: StepNumbers,
    counts: BondCounts,
    phi_mean: Bits,
    spread: Bits,
    mean_degree: Bits,
)
    requires
        is_node_list(s, stim),
        plan.describes(s, stim, n_walkers, active, warm, pairs),
        after.wf(),
        Step::Compute(plan).wf(after),
        numbers.fits(after, plan.compute_list@),
        advanced(after, plan.compute_list@, plan.bond_pairs@, numbers).wf(),
    ensures
        ({
            let end = advanced(after, plan.compute_list@, plan.bond_pairs@, numbers);
            let m = metrics_of(end, plan, counts, phi_mean, spread, mean_degree);
            &&& m.tick == after.tick
            &&& m.stimulus_active <= m.n_active <= m.n_computed <= m.n_observed <= end.n()
            &&& m.n_warm <= m.n_computed
            &&& m.n_unsettled <= m.n_computed
            &&& m.n_observed == end.observed.len()
            &&& m.n_unsettled == end.unsettled.len()
            &&& 2 * m.bonds_total == end.directed_edge_count
            &&& is_at_most(ZERO, m.phi_var)
            &&& is_at_most(ZERO, m.k_t)
        }),
{
    law_counts_are_ordered(s, stim, n_walkers, active, warm, pairs, plan, after, numbers);
    lemma_one();
}

} // verus!
