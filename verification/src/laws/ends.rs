//! What holds of the two ends of a bond: their weights and strengths.

use crate::binary64::{clipped, is_at_most, is_nan, lemma_half, lemma_one, Bits, HALF, ZERO};
use crate::connectome::advance::{advanced, regrown, StepNumbers};
use crate::connectome::{measured, ColdUpdate, State};
use crate::graph::{
    acceptable, all_advanced, bonded, breaks, grown, lemma_filter_origin, lemma_same_targets,
    simple_graph, wired, with_bond, with_strengths, Edge, Rows,
};
use crate::laws::bonds::{
    law_new_graph, lemma_advanced_shape, lemma_grown_rows, lemma_grown_simple,
};
use crate::laws::numbers::{in_unit, law_clip};
use crate::members::{listed, place_of};
use vstd::prelude::*;

verus! {

/// Whether both ends of every bond have one weight.
pub open spec fn weights_agree(g: Rows) -> bool {
    forall|u: int, k: int, v: int, l: int|
        0 <= u < g.len() && 0 <= k < g[u].len() && 0 <= v < g.len() && 0 <= l < g[v].len()
            && g[u][k].target == v && g[v][l].target == u ==> (#[trigger] g[u][k]).geom_weight == (
        #[trigger] g[v][l]).geom_weight
}

/// A new bond has one weight.
proof fn lemma_with_bond_weights(g: Rows, u: usize, v: usize, psi: Bits, geom: Bits)
    requires
        simple_graph(g),
        acceptable(g, (u, v, geom)),
        weights_agree(g),
    ensures
        weights_agree(with_bond(g, u, v, psi, geom)),
{
    let h = with_bond(g, u, v, psi, geom);
    assert(bonded(g, v as int, u as int) ==> bonded(g, u as int, v as int));
    assert forall|a: int, k: int, b: int, l: int|
        0 <= a < h.len() && 0 <= k < h[a].len() && 0 <= b < h.len() && 0 <= l < h[b].len()
            && h[a][k].target == b && h[b][l].target == a implies (#[trigger] h[a][k]).geom_weight == (
    #[trigger] h[b][l]).geom_weight by {
        if k < g[a].len() {
            assert(h[a][k] == g[a][k]);
            assert(bonded(g, a, b));
        }
        if l < g[b].len() {
            assert(h[b][l] == g[b][l]);
            assert(bonded(g, b, a));
        }
    }
}

/// Rows that lead to the same nodes with the same weights keep the ends of bonds alike.
proof fn lemma_same_ends(g: Rows, h: Rows)
    requires
        weights_agree(g),
        g.len() == h.len(),
        forall|u: int| 0 <= u < g.len() ==> (#[trigger] h[u]).len() == g[u].len(),
        forall|u: int, k: int|
            0 <= u < g.len() && 0 <= k < g[u].len() ==> (#[trigger] h[u][k]).target == g[u][k].target
                && h[u][k].geom_weight == g[u][k].geom_weight,
    ensures
        weights_agree(h),
{
    assert forall|u: int, k: int, v: int, l: int|
        0 <= u < h.len() && 0 <= k < h[u].len() && 0 <= v < h.len() && 0 <= l < h[v].len()
            && h[u][k].target == v && h[v][l].target == u implies (#[trigger] h[u][k]).geom_weight == (
    #[trigger] h[v][l]).geom_weight by {
        assert(h[u].len() == g[u].len() && h[v].len() == g[v].len());
        assert(g[u][k].geom_weight == g[v][l].geom_weight);
    }
}

/// Both ends of every bond of a new graph have one weight.
pub proof fn law_new_weights_agree(n: nat, edges: Seq<(usize, usize, Bits)>)
    ensures
        weights_agree(wired(n, edges)),
    decreases edges.len(),
{
    if edges.len() > 0 {
        let rest = edges.drop_last();
        let edge = edges.last();
        law_new_weights_agree(n, rest);
        law_new_graph(n, rest);
        if acceptable(wired(n, rest), edge) {
            lemma_with_bond_weights(wired(n, rest), edge.0, edge.1, HALF, edge.2);
        }
    }
}

/// Growing keeps the ends of bonds alike.
proof fn lemma_grown_weights(g: Rows, pairs: Seq<(usize, usize)>, geom: Bits)
    requires
        simple_graph(g),
        weights_agree(g),
    ensures
        weights_agree(grown(g, pairs, geom)),
    decreases pairs.len(),
{
    if pairs.len() > 0 {
        let rest = pairs.drop_last();
        lemma_grown_weights(g, rest, geom);
        lemma_grown_simple(g, rest, geom);
        let (u, v) = pairs.last();
        if acceptable(grown(g, rest, geom), (u, v, geom)) {
            lemma_with_bond_weights(grown(g, rest, geom), u, v, ZERO, geom);
        }
    }
}

/// A step keeps one weight at both ends of every bond.
pub proof fn law_weights_agree_after_a_step(
    s: State,
    list: Seq<usize>,
    pairs: Seq<(usize, usize)>,
    numbers: StepNumbers,
)
    requires
        s.wf(),
        weights_agree(s.rows),
    ensures
        weights_agree(advanced(s, list, pairs, numbers).rows),
{
    let moved = all_advanced(s.rows, list, numbers.bond_raw@);
    lemma_advanced_shape(s.rows, list, numbers.bond_raw@);
    assert(weights_agree(moved)) by {
        assert forall|u: int| 0 <= u < s.rows.len() implies (#[trigger] moved[u]).len()
            == s.rows[u].len() by {}
        lemma_same_ends(s.rows, moved);
    }
    lemma_grown_weights(moved, pairs, s.dynamic_bond_geom_weight);
    let mid = regrown(s, list, pairs, numbers).rows;
    let end = advanced(s, list, pairs, numbers).rows;
    if !is_at_most(s.k_t, ZERO) {
        let floor = numbers.floor_root;
        assert forall|u: int, k: int, v: int, l: int|
            0 <= u < end.len() && 0 <= k < end[u].len() && 0 <= v < end.len() && 0 <= l
                < end[v].len() && end[u][k].target == v && end[v][l].target == u implies (
        #[trigger] end[u][k]).geom_weight == (#[trigger] end[v][l]).geom_weight by {
            let p = |e: Edge| !breaks(mid, list, floor, u, e.target as int);
            let q = |e: Edge| !breaks(mid, list, floor, v, e.target as int);
            assert(end[u] == mid[u].filter(p));
            assert(end[v] == mid[v].filter(q));
            let a = lemma_filter_origin(mid[u], p, k);
            let b = lemma_filter_origin(mid[v], q, l);
            assert(mid[u][a].geom_weight == mid[v][b].geom_weight);
        }
    }
}

/// What happened to a node out of sight changes no bond and no weight, only strengths.
pub proof fn law_catching_up_keeps_bonds(s: State, node: usize, update: ColdUpdate)
    requires
        s.wf(),
        node < s.n(),
    ensures
        forall|u: int, v: int| #[trigger]
            bonded(measured(s, node as int, update).rows, u, v) == bonded(s.rows, u, v),
        forall|u: int, k: int|
            0 <= u < s.n() && 0 <= k < s.rows[u].len() ==> {
                let e = #[trigger] measured(s, node as int, update).rows[u][k];
                e.target == s.rows[u][k].target && e.geom_weight == s.rows[u][k].geom_weight
            },
        weights_agree(s.rows) ==> weights_agree(measured(s, node as int, update).rows),
        measured(s, node as int, update).last_visit == s.last_visit,
        measured(s, node as int, update).observed == s.observed,
{
    let row = with_strengths(s.rows[node as int], update.psi@);
    lemma_same_targets(s.rows, node as int, row);
    if weights_agree(s.rows) {
        let h = measured(s, node as int, update).rows;
        assert forall|u: int| 0 <= u < s.rows.len() implies (#[trigger] h[u]).len()
            == s.rows[u].len() by {}
        lemma_same_ends(s.rows, h);
    }
}

/// Whether `p` holds of every strength in `g`, of those now and of those before.
pub open spec fn strengths_are(g: Rows, p: spec_fn(Bits) -> bool) -> bool {
    forall|u: int, k: int|
        0 <= u < g.len() && 0 <= k < g[u].len() ==> p((#[trigger] g[u][k]).psi_curr) && p(
            g[u][k].psi_prev,
        )
}

/// What holds of 0, of every strength and of every new one still holds of every strength after a
/// step.
proof fn lemma_strengths_kept(
    s: State,
    list: Seq<usize>,
    pairs: Seq<(usize, usize)>,
    numbers: StepNumbers,
    p: spec_fn(Bits) -> bool,
)
    requires
        strengths_are(s.rows, p),
        p(ZERO),
        forall|u: int, k: int|
            0 <= u < s.rows.len() && listed(list, u) && 0 <= k < s.rows[u].len() ==> p(
                clipped(#[trigger] numbers.bond_raw@[place_of(list, u)]@[k]),
            ),
    ensures
        strengths_are(advanced(s, list, pairs, numbers).rows, p),
{
    let moved = all_advanced(s.rows, list, numbers.bond_raw@);
    assert forall|u: int, k: int| 0 <= u < moved.len() && 0 <= k < moved[u].len() implies p(
        (#[trigger] moved[u][k]).psi_curr,
    ) && p(moved[u][k].psi_prev) by {
        assert(p(s.rows[u][k].psi_curr) && p(s.rows[u][k].psi_prev));
        if listed(list, u) {
            assert(p(clipped(numbers.bond_raw@[place_of(list, u)]@[k])));
        }
    }
    let mid = regrown(s, list, pairs, numbers).rows;
    lemma_grown_rows(moved, pairs, s.dynamic_bond_geom_weight);
    assert forall|u: int, k: int| 0 <= u < mid.len() && 0 <= k < mid[u].len() implies p(
        (#[trigger] mid[u][k]).psi_curr,
    ) && p(mid[u][k].psi_prev) by {
        if k < moved[u].len() {
            assert(mid[u][k] == moved[u][k]);
        }
    }
    let end = advanced(s, list, pairs, numbers).rows;
    if !is_at_most(s.k_t, ZERO) {
        assert forall|u: int, k: int| 0 <= u < end.len() && 0 <= k < end[u].len() implies p(
            (#[trigger] end[u][k]).psi_curr,
        ) && p(end[u][k].psi_prev) by {
            let floor = numbers.floor_root;
            let q = |e: Edge| !breaks(mid, list, floor, u, e.target as int);
            assert(end[u] == mid[u].filter(q));
            let o = lemma_filter_origin(mid[u], q, k);
            assert(mid[u][o] == end[u][k]);
        }
    }
}

/// A step keeps every strength, now and before, between 0 and 1, as far as it is a number.
pub proof fn law_strengths_stay_clipped(
    s: State,
    list: Seq<usize>,
    pairs: Seq<(usize, usize)>,
    numbers: StepNumbers,
)
    requires
        strengths_are(s.rows, |x: Bits| clipped(x) == x),
    ensures
        strengths_are(advanced(s, list, pairs, numbers).rows, |x: Bits| clipped(x) == x),
{
    let p = |x: Bits| clipped(x) == x;
    law_clip(ZERO);
    lemma_one();
    assert forall|u: int, k: int|
        0 <= u < s.rows.len() && listed(list, u) && 0 <= k < s.rows[u].len() implies p(
        clipped(#[trigger] numbers.bond_raw@[place_of(list, u)]@[k]),
    ) by {
        law_clip(numbers.bond_raw@[place_of(list, u)]@[k]);
    }
    lemma_strengths_kept(s, list, pairs, numbers, p);
}

/// Whether every strength in `g`, now and before, is a number between 0 and 1.
pub open spec fn strengths_in_unit(g: Rows) -> bool {
    strengths_are(g, |x: Bits| in_unit(x))
}

/// A step whose new strengths are numbers keeps every strength, now and before, between 0 and 1.
pub proof fn law_strengths_stay_in_unit(
    s: State,
    list: Seq<usize>,
    pairs: Seq<(usize, usize)>,
    numbers: StepNumbers,
)
    requires
        numbers.fits(s, list),
        strengths_in_unit(s.rows),
        forall|j: int, k: int|
            0 <= j < numbers.bond_raw@.len() && 0 <= k < numbers.bond_raw@[j]@.len() ==> !is_nan(
                #[trigger] numbers.bond_raw@[j]@[k],
            ),
    ensures
        strengths_in_unit(advanced(s, list, pairs, numbers).rows),
{
    let p = |x: Bits| in_unit(x);
    lemma_one();
    assert forall|u: int, k: int|
        0 <= u < s.rows.len() && listed(list, u) && 0 <= k < s.rows[u].len() implies p(
        clipped(#[trigger] numbers.bond_raw@[place_of(list, u)]@[k]),
    ) by {
        let j = place_of(list, u);
        assert(0 <= j < list.len() && list[j] == u);
        law_clip(numbers.bond_raw@[j]@[k]);
    }
    lemma_strengths_kept(s, list, pairs, numbers, p);
}

/// A node that catches up with strengths between 0 and 1 leaves all strengths there.
pub proof fn law_caught_up_strengths(s: State, node: usize, update: ColdUpdate)
    requires
        node < s.n(),
        update.psi@.len() == s.rows[node as int].len(),
        strengths_in_unit(s.rows),
        forall|k: int| 0 <= k < update.psi@.len() ==> in_unit(#[trigger] update.psi@[k]),
    ensures
        strengths_in_unit(measured(s, node as int, update).rows),
{
    let h = measured(s, node as int, update).rows;
    assert forall|u: int, k: int| 0 <= u < h.len() && 0 <= k < h[u].len() implies in_unit(
        (#[trigger] h[u][k]).psi_curr,
    ) && in_unit(h[u][k].psi_prev) by {
        assert(in_unit(s.rows[u][k].psi_curr) && in_unit(s.rows[u][k].psi_prev));
        if u == node {
            assert(in_unit(update.psi@[k]));
        }
    }
}

/// Every strength of a new graph lies between 0 and 1.
pub proof fn law_new_strengths(n: nat, edges: Seq<(usize, usize, Bits)>)
    ensures
        strengths_in_unit(wired(n, edges)),
    decreases edges.len(),
{
    if edges.len() > 0 {
        let rest = edges.drop_last();
        law_new_strengths(n, rest);
        law_new_graph(n, rest);
        lemma_half();
        lemma_one();
        let (g, h) = (wired(n, rest), wired(n, edges));
        assert forall|u: int, k: int| 0 <= u < h.len() && 0 <= k < h[u].len() implies in_unit(
            (#[trigger] h[u][k]).psi_curr,
        ) && in_unit(h[u][k].psi_prev) by {
            if k < g[u].len() {
                assert(h[u][k] == g[u][k]);
            }
        }
    }
}

} // verus!
