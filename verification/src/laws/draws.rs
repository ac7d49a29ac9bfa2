//! What draws pick, and what each pick does to a gauge step.

use crate::binary64::{is_at_most, is_less, magnitude_of, whole, Bits, ZERO};
use crate::connectome::gauge::{
    gauge_start, is_fast, is_slow, lemma_start_from, lemma_start_same, ordered,
    proposes, Cursor, Gauge,
};
use crate::connectome::{first_reached, lemma_first_reached, picked, State, WEIGHT_FLOOR};
use crate::graph::{bonded, Edge};
use crate::laws::encodings::law_whole;
use vstd::prelude::*;

verus! {

/// A draw picks the first neighbor whose share reaches it, the last one where none does, and nobody
/// where there is no bond or the bonds weigh too little.
pub proof fn law_pick(row: Seq<Edge>, w_sum: Bits, u: Bits, cdf: Seq<Bits>)
    requires
        cdf.len() == row.len(),
    ensures
        picked(row, w_sum, u, cdf) is None <==> row.len() == 0 || is_less(w_sum, WEIGHT_FLOOR),
        row.len() > 0 && !is_less(w_sum, WEIGHT_FLOOR) ==> forall|k: int|
            0 <= k < row.len() && is_at_most(u, #[trigger] cdf[k]) && (forall|j: int|
                0 <= j < k ==> !is_at_most(u, #[trigger] cdf[j])) ==> picked(row, w_sum, u, cdf)
                == Some(row[k].target),
        row.len() > 0 && !is_less(w_sum, WEIGHT_FLOOR) && (forall|k: int|
            0 <= k < row.len() ==> !is_at_most(u, #[trigger] cdf[k])) ==> picked(
            row,
            w_sum,
            u,
            cdf,
        ) == Some(row[row.len() - 1].target),
{
    lemma_first_reached(cdf, u, 0);
    let p = first_reached(cdf, u, 0);
    if row.len() > 0 && !is_less(w_sum, WEIGHT_FLOOR) {
        assert forall|k: int|
            0 <= k < row.len() && is_at_most(u, #[trigger] cdf[k]) && (forall|j: int|
                0 <= j < k ==> !is_at_most(u, #[trigger] cdf[j])) implies picked(
            row,
            w_sum,
            u,
            cdf,
        ) == Some(row[k].target) by {
            assert(p == k) by {
                if p < k {
                    assert(is_at_most(u, cdf[p]));
                } else if k < p {
                    assert(!is_at_most(u, cdf[k]));
                }
            }
        }
    }
}

/// A node is fast where its speed is above the threshold, and slow where it is not; one whose speed
/// is no number is neither.
pub proof fn law_fast_and_slow(s: State, v_th: Bits, i: int)
    ensures
        is_fast(s, v_th, i) <==> is_less(v_th, magnitude_of(s.phi_dot[i])),
        is_slow(s, v_th, i) <==> is_at_most(magnitude_of(s.phi_dot[i]), v_th),
{
}

/// Whether the candidate at `slot` of `g` is a node with walkers to send.
pub open spec fn has_walkers(g: Gauge, s: State, slot: int) -> bool {
    g.candidates[slot] < s.rows.len() && g.counts[slot] > 0
}

/// Whether a gauge step that turns to the candidates from `slot` on stands at `cursor`: before the
/// first hop of the first walker of the first one that has walkers to send, or nowhere where none
/// has.
pub open spec fn turns_to(g: Gauge, s: State, slot: int, cursor: Option<Cursor>) -> bool {
    match cursor {
        None => forall|k: int|
            slot <= k < g.candidates.len() ==> !#[trigger] has_walkers(g, s, k),
        Some(c) => {
            &&& slot <= c.slot < g.candidates.len()
            &&& has_walkers(g, s, c.slot as int)
            &&& forall|k: int| slot <= k < c.slot ==> !#[trigger] has_walkers(g, s, k)
            &&& c.emission == 0
            &&& c.hop == 0
            &&& c.node == g.candidates[c.slot as int]
        },
    }
}

/// A gauge step turns to where the search leads.
proof fn lemma_turns_to(g: Gauge, s: State, slot: int)
    requires
        0 <= slot,
        g.candidates.len() <= usize::MAX,
    ensures
        turns_to(g, s, slot, g.start_from(s.n(), slot)),
{
    lemma_start_from(g, s.n(), slot);
    assert forall|k: int| g.emits(s.n(), k) == #[trigger] has_walkers(g, s, k) by {}
}

/// A gauge step starts without hops. Fast is what is above `v_root`, and above 0 at rest. Where that
/// is above 0, every candidate has as many walkers as its ratio rounded down, and the first one with
/// walkers has its turn; else there are no candidates. A walker has as many hops as `reach` rounded
/// down, and one at least.
pub proof fn law_gauge_starts(
    s: State,
    candidates: Seq<usize>,
    ratios: Seq<Bits>,
    v_root: Bits,
    reach: Bits,
)
    requires
        ratios.len() == candidates.len(),
        candidates.len() <= usize::MAX,
    ensures
        ({
            let g = gauge_start(s, candidates, ratios, v_root, reach);
            &&& g.hops.len() == 0
            &&& g.v_th == if is_at_most(s.k_t, ZERO) { ZERO } else { v_root }
            &&& g.h_max == if whole(reach) > 1 { whole(reach) } else { 1 }
            &&& g.counts.len() == g.candidates.len()
            &&& is_at_most(g.v_th, ZERO) ==> g.candidates.len() == 0 && g.cursor is None
            &&& !is_at_most(g.v_th, ZERO) ==> {
                &&& g.candidates == candidates
                &&& forall|k: int|
                    0 <= k < ratios.len() ==> #[trigger] g.counts[k] == whole(ratios[k])
                &&& turns_to(g, s, 0, g.cursor)
            }
        }),
{
    let g = gauge_start(s, candidates, ratios, v_root, reach);
    lemma_turns_to(g, s, 0);
    let idle = Gauge { cursor: None, ..g };
    lemma_start_same(g, idle, s.n(), 0);
    law_whole(reach);
    assert forall|k: int| 0 <= k < ratios.len() && !is_at_most(g.v_th, ZERO) implies #[trigger] g.counts[k]
        == whole(ratios[k]) by {
        law_whole(ratios[k]);
    }
}

/// A pick adds a hop from where the walker is to the node picked. The walker goes on from there while
/// it has hops left and the node is not slow. Else, or where nobody is picked, the next walker of
/// the same candidate has its turn, and after the last one the next candidate with walkers.
pub proof fn law_pick_moves_on(g: Gauge, s: State, c: Cursor, pick: Option<usize>)
    requires
        g.counts.len() == g.candidates.len(),
        g.candidates.len() <= usize::MAX,
        c.slot < g.candidates.len(),
    ensures
        ({
            let t = g.next(s, c, pick);
            &&& t == (Gauge { cursor: t.cursor, hops: t.hops, ..g })
            &&& pick is None ==> t.hops == g.hops
            &&& pick matches Some(to) ==> t.hops == g.hops.push((c.node, to))
            &&& if pick is Some && c.hop + 1 < g.h_max && !is_at_most(
                magnitude_of(s.phi_dot[pick->0 as int]),
                g.v_th,
            ) {
                t.cursor matches Some(d) && d.slot == c.slot && d.emission == c.emission && d.hop
                    == c.hop + 1 && d.node == pick->0
            } else if c.emission + 1 < g.counts[c.slot as int] {
                t.cursor matches Some(d) && d.slot == c.slot && d.emission == c.emission + 1
                    && d.hop == 0 && d.node == g.candidates[c.slot as int]
            } else {
                turns_to(g, s, c.slot + 1, t.cursor)
            }
        }),
{
    lemma_turns_to(g, s, c.slot + 1);
}

/// Whether a hop of `g` starts or ends at `i`.
pub open spec fn touches(g: Gauge, i: usize) -> bool {
    exists|h: int| 0 <= h < g.hops.len() && ((#[trigger] g.hops[h]).0 == i || g.hops[h].1 == i)
}

/// Whether a candidate with walkers to send is `i`, up to the one that has its turn.
pub open spec fn had_its_turn(g: Gauge, s: State, i: usize) -> bool {
    exists|k: int|
        0 <= k < g.candidates.len() && #[trigger] g.candidates[k] == i && i < s.rows.len()
            && g.counts[k] > 0 && (g.cursor matches Some(c) ==> k <= c.slot)
}

/// Active is who sent walkers or was hopped from or to; warm is who has a bond to an active node and
/// is not active.
pub proof fn law_active_and_warm(g: Gauge, s: State, i: usize)
    ensures
        g.active_set(s).contains(i) <==> had_its_turn(g, s, i) || touches(g, i),
        g.warm_set(s).contains(i) <==> !g.active_set(s).contains(i) && exists|a: usize| #[trigger]
            g.active_set(s).contains(a) && bonded(s.rows, a as int, i as int),
{
    if g.has_emitted(s.n(), i) {
        let k = choose|k: int|
            0 <= k < g.candidates.len() && #[trigger] g.candidates[k] == i && g.emits(s.n(), k) && (
            g.cursor matches Some(c) ==> k <= c.slot);
        assert(g.candidates[k] == i);
    }
    if had_its_turn(g, s, i) {
        let k = choose|k: int|
            0 <= k < g.candidates.len() && #[trigger] g.candidates[k] == i && i < s.rows.len()
                && g.counts[k] > 0 && (g.cursor matches Some(c) ==> k <= c.slot);
        assert(g.candidates[k] == i && g.emits(s.n(), k));
    }
}

/// Whether a hop from `a` to `t` lets `a` and `k` be bonded: both are fast, they have no bond yet, and
/// `k` is `t` or another neighbor of `t`.
pub open spec fn closes_gap(s: State, v_th: Bits, a: usize, t: usize, k: usize) -> bool {
    &&& is_less(v_th, magnitude_of(s.phi_dot[a as int]))
    &&& is_less(v_th, magnitude_of(s.phi_dot[k as int]))
    &&& !bonded(s.rows, a as int, k as int)
    &&& k == t || (k != a && bonded(s.rows, t as int, k as int))
}

/// Just those bonds are proposed that some hop lets be made, the smaller node first.
pub proof fn law_proposed(g: Gauge, s: State, pair: (usize, usize))
    ensures
        g.proposed_set(s).contains(pair) <==> exists|h: int, k: usize|
            0 <= h < g.hops.len() && #[trigger] closes_gap(
                s,
                g.v_th,
                g.hops[h].0,
                g.hops[h].1,
                k,
            ) && (if g.hops[h].0 < k {
                pair == (g.hops[h].0, k)
            } else {
                pair == (k, g.hops[h].0)
            }),
{
    if g.is_proposed(s, pair) {
        let (h, k) = choose|h: int, k: usize|
            0 <= h < g.hops.len() && #[trigger] proposes(s, g.v_th, g.hops[h], k) && pair
                == ordered(g.hops[h].0, k);
        assert(closes_gap(s, g.v_th, g.hops[h].0, g.hops[h].1, k));
    }
    if exists|h: int, k: usize|
        0 <= h < g.hops.len() && #[trigger] closes_gap(s, g.v_th, g.hops[h].0, g.hops[h].1, k) && (
        if g.hops[h].0 < k {
            pair == (g.hops[h].0, k)
        } else {
            pair == (k, g.hops[h].0)
        }) {
        let (h, k) = choose|h: int, k: usize|
            0 <= h < g.hops.len() && #[trigger] closes_gap(
                s,
                g.v_th,
                g.hops[h].0,
                g.hops[h].1,
                k,
            ) && (if g.hops[h].0 < k {
                pair == (g.hops[h].0, k)
            } else {
                pair == (k, g.hops[h].0)
            });
        assert(proposes(s, g.v_th, g.hops[h], k));
    }
}

} // verus!
