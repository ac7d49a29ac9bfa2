//! What holds of the bonds: which come, which break, which stay.

use crate::binary64::{is_at_most, is_less, Bits, HALF, ZERO};
use crate::connectome::advance::{advanced, regrown, BondCounts, StepNumbers};
use crate::connectome::step::StepPlan;
use crate::connectome::{is_boundary, new_state, State};
use crate::graph::{
    acceptable, all_advanced, bonded, breaks, decohered, degree_sum, faint, fresh_edge, grown,
    leads_to, lemma_decohered_bonds, lemma_filter_agree, lemma_filter_all, lemma_filter_origin,
    lemma_with_bond, seen_faint, simple_graph, simple_row, wired, with_bond, Edge, Rows,
};
use crate::members::{ascending_pairs, listed, pair_before};
use vstd::prelude::*;

verus! {

/// Whether `edge` joins `a` and `b`.
pub open spec fn joins(edge: (usize, usize, Bits), a: int, b: int) -> bool {
    (edge.0 == a && edge.1 == b) || (edge.0 == b && edge.1 == a)
}

/// The bonds of a new graph are those listed between two different nodes, in whatever order and
/// however often.
pub proof fn law_new_graph(n: nat, edges: Seq<(usize, usize, Bits)>)
    ensures
        wired(n, edges).len() == n,
        simple_graph(wired(n, edges)),
        forall|a: int, b: int| #[trigger]
            bonded(wired(n, edges), a, b) <==> 0 <= a < n && 0 <= b < n && a != b && exists|k: int|
                0 <= k < edges.len() && joins(#[trigger] edges[k], a, b),
    decreases edges.len(),
{
    let g = wired(n, edges);
    if edges.len() > 0 {
        let rest = edges.drop_last();
        let edge = edges.last();
        let before = wired(n, rest);
        law_new_graph(n, rest);
        if acceptable(before, edge) {
            lemma_with_bond(before, edge.0, edge.1, HALF, edge.2);
        }
        assert forall|a: int, b: int| #[trigger]
            bonded(g, a, b) <==> 0 <= a < n && 0 <= b < n && a != b && exists|k: int|
                0 <= k < edges.len() && joins(#[trigger] edges[k], a, b) by {
            assert(bonded(before, edge.0 as int, edge.1 as int) ==> bonded(
                before,
                edge.1 as int,
                edge.0 as int,
            ));
            if bonded(before, a, b) {
                let k = choose|k: int| 0 <= k < rest.len() && joins(#[trigger] rest[k], a, b);
                assert(edges[k] == rest[k]);
            } else if bonded(g, a, b) {
                assert(joins(edges[edges.len() - 1], a, b));
            }
            if exists|k: int| 0 <= k < edges.len() && joins(#[trigger] edges[k], a, b) {
                let k = choose|k: int| 0 <= k < edges.len() && joins(#[trigger] edges[k], a, b);
                if k < rest.len() {
                    assert(joins(rest[k], a, b));
                }
            }
        }
    } else {
        assert forall|a: int, b: int| !#[trigger] bonded(g, a, b) by {}
    }
}

/// Whether `row` holds the edge that a new bond to `target` with the weight `geom` starts with.
pub open spec fn holds_new(row: Seq<Edge>, target: usize, geom: Bits) -> bool {
    exists|k: int|
        0 <= k < row.len() && #[trigger] row[k] == fresh_edge(target, HALF, geom)
}

/// Of the listings of one bond, the first one gives its weight; a new bond is half as strong as it
/// can be, at both ends.
pub proof fn law_first_listing_counts(n: nat, edges: Seq<(usize, usize, Bits)>, k: int)
    requires
        0 <= k < edges.len(),
        edges[k].0 < n,
        edges[k].1 < n,
        edges[k].0 != edges[k].1,
        forall|l: int|
            0 <= l < k ==> !joins(#[trigger] edges[l], edges[k].0 as int, edges[k].1 as int),
    ensures
        holds_new(wired(n, edges)[edges[k].0 as int], edges[k].1, edges[k].2),
        holds_new(wired(n, edges)[edges[k].1 as int], edges[k].0, edges[k].2),
    decreases edges.len(),
{
    let (u, v, geom) = edges[k];
    let rest = edges.drop_last();
    let before = wired(n, rest);
    let g = wired(n, edges);
    law_new_graph(n, rest);
    if k == rest.len() {
        if bonded(before, u as int, v as int) {
            let l = choose|l: int|
                0 <= l < rest.len() && joins(#[trigger] rest[l], u as int, v as int);
            assert(edges[l] == rest[l]);
        }
        assert(g[u as int][before[u as int].len() as int] == fresh_edge(
            v,
            HALF,
            geom,
        ));
        assert(g[v as int][before[v as int].len() as int] == fresh_edge(
            u,
            HALF,
            geom,
        ));
    } else {
        assert(rest[k] == edges[k]);
        assert forall|l: int| 0 <= l < k implies !joins(
            #[trigger] rest[l],
            rest[k].0 as int,
            rest[k].1 as int,
        ) by {
            assert(rest[l] == edges[l]);
        }
        law_first_listing_counts(n, rest, k);
        let a = choose|a: int|
            0 <= a < before[u as int].len() && #[trigger] before[u as int][a]
                == fresh_edge(v, HALF, geom);
        let b = choose|b: int|
            0 <= b < before[v as int].len() && #[trigger] before[v as int][b]
                == fresh_edge(u, HALF, geom);
        assert(g[u as int][a] == before[u as int][a]);
        assert(g[v as int][b] == before[v as int][b]);
    }
}

/// A new bond is held at both ends, and no other bond comes or goes with it.
pub proof fn law_new_bond(g: Rows, u: usize, v: usize, psi: Bits, geom: Bits)
    requires
        simple_graph(g),
        acceptable(g, (u, v, geom)),
    ensures
        forall|a: int, b: int| #[trigger]
            bonded(with_bond(g, u, v, psi, geom), a, b) <==> bonded(g, a, b) || (a == u && b == v)
                || (a == v && b == u),
        degree_sum(with_bond(g, u, v, psi, geom)) == degree_sum(g) + 2,
{
    lemma_with_bond(g, u, v, psi, geom);
}

/// Pairs of nodes that have no bond yet, each named once, all become bonds.
pub proof fn law_every_proposal_becomes_a_bond(
    g: Rows,
    pairs: Seq<(usize, usize)>,
    geom: Bits,
)
    requires
        simple_graph(g),
        ascending_pairs(pairs),
        forall|k: int|
            0 <= k < pairs.len() ==> (#[trigger] pairs[k]).0 < pairs[k].1 < g.len() && !bonded(
                g,
                pairs[k].0 as int,
                pairs[k].1 as int,
            ),
    ensures
        simple_graph(grown(g, pairs, geom)),
        grown(g, pairs, geom).len() == g.len(),
        degree_sum(grown(g, pairs, geom)) == degree_sum(g) + 2 * pairs.len(),
        forall|a: int, b: int| #[trigger]
            bonded(grown(g, pairs, geom), a, b) <==> bonded(g, a, b) || exists|k: int|
                0 <= k < pairs.len() && ((#[trigger] pairs[k]).0 == a && pairs[k].1 == b || pairs[k].0
                    == b && pairs[k].1 == a),
    decreases pairs.len(),
{
    if pairs.len() > 0 {
        let rest = pairs.drop_last();
        assert forall|k: int| 0 <= k < rest.len() implies (#[trigger] rest[k]).0 < rest[k].1
            < g.len() && !bonded(g, rest[k].0 as int, rest[k].1 as int) by {
            assert(rest[k] == pairs[k]);
        }
        law_every_proposal_becomes_a_bond(g, rest, geom);
        let h = grown(g, rest, geom);
        let (u, v) = pairs.last();
        assert(pairs[pairs.len() - 1] == (u, v));
        assert(!bonded(h, u as int, v as int)) by {
            if bonded(h, u as int, v as int) {
                let k = choose|k: int|
                    0 <= k < rest.len() && ((#[trigger] rest[k]).0 == u && rest[k].1 == v
                        || rest[k].0 == v && rest[k].1 == u);
                assert(rest[k] == pairs[k]);
                assert(pair_before(pairs[k], pairs[pairs.len() - 1]));
            }
        }
        lemma_with_bond(h, u, v, ZERO, geom);
        let all = grown(g, pairs, geom);
        assert forall|a: int, b: int| #[trigger]
            bonded(all, a, b) <==> bonded(g, a, b) || exists|k: int|
                0 <= k < pairs.len() && ((#[trigger] pairs[k]).0 == a && pairs[k].1 == b || pairs[k].0
                    == b && pairs[k].1 == a) by {
            if bonded(h, a, b) && !bonded(g, a, b) {
                let k = choose|k: int|
                    0 <= k < rest.len() && ((#[trigger] rest[k]).0 == a && rest[k].1 == b
                        || rest[k].0 == b && rest[k].1 == a);
                assert(pairs[k] == rest[k]);
            }
            if exists|k: int|
                0 <= k < pairs.len() && ((#[trigger] pairs[k]).0 == a && pairs[k].1 == b || pairs[k].0
                    == b && pairs[k].1 == a) {
                let k = choose|k: int|
                    0 <= k < pairs.len() && ((#[trigger] pairs[k]).0 == a && pairs[k].1 == b
                        || pairs[k].0 == b && pairs[k].1 == a);
                if k < rest.len() {
                    assert(rest[k] == pairs[k]);
                }
            }
        }
    }
}

/// Which bonds break does not depend on the order in which the nodes are listed.
pub proof fn law_decoherence_ignores_order(
    g: Rows,
    a: Seq<usize>,
    b: Seq<usize>,
    floor: Bits,
)
    requires
        simple_graph(g),
        forall|u: int| #[trigger] listed(a, u) == listed(b, u),
    ensures
        decohered(g, a, floor) == decohered(g, b, floor),
{
    let (x, y) = (decohered(g, a, floor), decohered(g, b, floor));
    assert forall|u: int| 0 <= u < g.len() implies #[trigger] x[u] == y[u] by {
        lemma_filter_agree(
            g[u],
            |e: Edge| !breaks(g, a, floor, u, e.target as int),
            |e: Edge| !breaks(g, b, floor, u, e.target as int),
        );
    }
    assert(x =~= y);
}

/// After decoherence no listed node sees a faint bond, so letting bonds break once more changes
/// nothing.
pub proof fn law_decoherence_is_final(g: Rows, list: Seq<usize>, floor: Bits)
    requires
        simple_graph(g),
    ensures
        forall|u: int, v: int|
            0 <= u < g.len() && listed(list, u) ==> !#[trigger] seen_faint(
                decohered(g, list, floor),
                floor,
                u,
                v,
            ),
        decohered(decohered(g, list, floor), list, floor) == decohered(g, list, floor),
{
    let h = decohered(g, list, floor);
    lemma_decohered_bonds(g, list, floor);
    assert forall|u: int, v: int| 0 <= u < g.len() && listed(list, u) implies !#[trigger] seen_faint(
        h,
        floor,
        u,
        v,
    ) by {
        if seen_faint(h, floor, u, v) {
            let k = choose|k: int|
                0 <= k < h[u].len() && (#[trigger] h[u][k]).target == v && faint(
                    h[u][k].psi_curr,
                    floor,
                );
            let p = |e: Edge| !breaks(g, list, floor, u, e.target as int);
            let o = lemma_filter_origin(g[u], p, k);
            assert(g[u][o].target == v);
        }
    }
    let again = decohered(h, list, floor);
    assert forall|u: int| 0 <= u < h.len() implies #[trigger] again[u] == h[u] by {
        let p = |e: Edge| !breaks(h, list, floor, u, e.target as int);
        assert forall|k: int| 0 <= k < h[u].len() implies p(#[trigger] h[u][k]) by {
            let v = h[u][k].target as int;
            assert(simple_row(h[u], u, h.len() as int));
            assert(0 <= v < g.len());
        }
        lemma_filter_all(h[u], p);
    }
    assert(again =~= h);
}

/// Moving the strengths of bonds on changes no bond.
pub proof fn lemma_advanced_shape(g: Rows, list: Seq<usize>, raw: Seq<Vec<Bits>>)
    requires
        simple_graph(g),
    ensures
        simple_graph(all_advanced(g, list, raw)),
        degree_sum(all_advanced(g, list, raw)) == degree_sum(g),
        forall|u: int, v: int| #[trigger]
            bonded(all_advanced(g, list, raw), u, v) == bonded(g, u, v),
{
    let h = all_advanced(g, list, raw);
    assert forall|u: int| 0 <= u < g.len() implies (#[trigger] h[u]).len() == g[u].len() by {}
    lemma_degree_sum_same(g, h);
    assert forall|u: int, v: int| #[trigger] bonded(h, u, v) == bonded(g, u, v) by {
        if bonded(h, u, v) {
            let k = choose|k: int| 0 <= k < h[u].len() && (#[trigger] h[u][k]).target == v;
            assert(g[u][k].target == v);
        }
        if bonded(g, u, v) {
            let k = choose|k: int| 0 <= k < g[u].len() && (#[trigger] g[u][k]).target == v;
            assert(h[u][k].target == v);
        }
    }
    assert forall|u: int| 0 <= u < h.len() implies simple_row(
        #[trigger] h[u],
        u,
        h.len() as int,
    ) by {
        assert(simple_row(g[u], u, g.len() as int));
        assert forall|k: int| 0 <= k < h[u].len() implies (#[trigger] h[u][k]).target
            == g[u][k].target by {}
    }
    assert forall|u: int, v: int| #[trigger] bonded(h, u, v) implies bonded(h, v, u) by {
        assert(bonded(g, u, v));
        assert(bonded(g, v, u));
    }
}

/// Rows of the same lengths hold the same number of edges.
proof fn lemma_degree_sum_same(g: Rows, h: Rows)
    requires
        g.len() == h.len(),
        forall|u: int| 0 <= u < g.len() ==> (#[trigger] h[u]).len() == g[u].len(),
    ensures
        degree_sum(g) == degree_sum(h),
    decreases g.len(),
{
    if g.len() > 0 {
        assert forall|u: int| 0 <= u < g.len() - 1 implies (#[trigger] h.drop_last()[u]).len()
            == g.drop_last()[u].len() by {
            assert(h[u].len() == g[u].len());
        }
        lemma_degree_sum_same(g.drop_last(), h.drop_last());
        assert(h[h.len() - 1].len() == g[g.len() - 1].len());
    }
}

/// The bonds after a step: those from before and the proposed ones, without those that break. At
/// rest none breaks.
pub proof fn law_bonds_after_a_step(s: State, plan: StepPlan, numbers: StepNumbers)
    requires
        s.wf(),
        plan.wf(s),
        numbers.fits(s, plan.compute_list@),
        s.directed_edge_count + 2 * plan.bond_pairs@.len() <= usize::MAX,
        forall|k: int|
            0 <= k < plan.bond_pairs@.len() ==> !bonded(
                s.rows,
                (#[trigger] plan.bond_pairs@[k]).0 as int,
                plan.bond_pairs@[k].1 as int,
            ),
    ensures
        ({
            let list = plan.compute_list@;
            let pairs = plan.bond_pairs@;
            let mid = regrown(s, list, pairs, numbers);
            let end = advanced(s, list, pairs, numbers);
            &&& mid.directed_edge_count == s.directed_edge_count + 2 * pairs.len()
            &&& forall|u: int, v: int| #[trigger]
                bonded(mid.rows, u, v) <==> bonded(s.rows, u, v) || exists|k: int|
                    0 <= k < pairs.len() && ((#[trigger] pairs[k]).0 == u && pairs[k].1 == v
                        || pairs[k].0 == v && pairs[k].1 == u)
            &&& is_at_most(s.k_t, ZERO) ==> end.rows == mid.rows
            &&& !is_at_most(s.k_t, ZERO) ==> forall|u: int, v: int| #[trigger]
                bonded(end.rows, u, v) <==> bonded(mid.rows, u, v) && !breaks(
                    mid.rows,
                    list,
                    numbers.floor_root,
                    u,
                    v,
                )
        }),
{
    let list = plan.compute_list@;
    let pairs = plan.bond_pairs@;
    let moved = all_advanced(s.rows, list, numbers.bond_raw@);
    lemma_advanced_shape(s.rows, list, numbers.bond_raw@);
    assert forall|k: int| 0 <= k < pairs.len() implies (#[trigger] pairs[k]).0 < pairs[k].1
        < moved.len() && !bonded(moved, pairs[k].0 as int, pairs[k].1 as int) by {}
    law_every_proposal_becomes_a_bond(moved, pairs, s.dynamic_bond_geom_weight);
    let mid = regrown(s, list, pairs, numbers);
    lemma_decohered_bonds(mid.rows, list, numbers.floor_root);
}

/// A row whose edges lead to nodes that another one leads to, each once, is no longer than that.
proof fn lemma_row_len(a: Seq<Edge>, b: Seq<Edge>)
    requires
        forall|k: int, l: int|
            0 <= k < l < a.len() ==> (#[trigger] a[k]).target != (#[trigger] a[l]).target,
        forall|k: int| 0 <= k < a.len() ==> leads_to(b, (#[trigger] a[k]).target as int),
    ensures
        a.len() <= b.len(),
    decreases a.len(),
{
    if a.len() > 0 {
        let last = a.last();
        assert(a[a.len() - 1] == last);
        let j = choose|j: int| 0 <= j < b.len() && (#[trigger] b[j]).target == last.target;
        let less = a.drop_last();
        let rest = b.remove(j);
        assert forall|k: int| 0 <= k < less.len() implies leads_to(
            rest,
            (#[trigger] less[k]).target as int,
        ) by {
            assert(a[k].target != a[a.len() - 1].target);
            let l = choose|l: int| 0 <= l < b.len() && (#[trigger] b[l]).target == a[k].target;
            if l < j {
                assert(rest[l] == b[l]);
            } else {
                assert(rest[l - 1] == b[l]);
            }
        }
        lemma_row_len(less, rest);
    }
}

/// Rows that are no longer hold no more edges.
proof fn lemma_degree_sum_at_most(g: Rows, h: Rows)
    requires
        g.len() == h.len(),
        forall|u: int| 0 <= u < g.len() ==> (#[trigger] g[u]).len() <= h[u].len(),
    ensures
        degree_sum(g) <= degree_sum(h),
    decreases g.len(),
{
    if g.len() > 0 {
        assert forall|u: int| 0 <= u < g.len() - 1 implies (#[trigger] g.drop_last()[u]).len()
            <= h.drop_last()[u].len() by {
            assert(g[u].len() <= h[u].len());
        }
        lemma_degree_sum_at_most(g.drop_last(), h.drop_last());
        assert(g[g.len() - 1].len() <= h[h.len() - 1].len());
    }
}

/// Graphs with the same bonds have the same degrees, and so as many edges and the same boundary.
proof fn lemma_same_bonds_same_degrees(g: Rows, h: Rows)
    requires
        simple_graph(g),
        simple_graph(h),
        g.len() == h.len(),
        forall|u: int, v: int| #[trigger] bonded(g, u, v) == bonded(h, u, v),
    ensures
        forall|u: int| 0 <= u < g.len() ==> (#[trigger] g[u]).len() == h[u].len(),
        degree_sum(g) == degree_sum(h),
        forall|u: int| 0 <= u < g.len() ==> #[trigger] is_boundary(g, u) == is_boundary(h, u),
{
    assert forall|u: int| 0 <= u < g.len() implies (#[trigger] g[u]).len() == h[u].len() by {
        assert(simple_row(g[u], u, g.len() as int));
        assert(simple_row(h[u], u, h.len() as int));
        assert forall|k: int| 0 <= k < g[u].len() implies leads_to(
            h[u],
            (#[trigger] g[u][k]).target as int,
        ) by {
            assert(bonded(g, u, g[u][k].target as int));
        }
        assert forall|k: int| 0 <= k < h[u].len() implies leads_to(
            g[u],
            (#[trigger] h[u][k]).target as int,
        ) by {
            assert(bonded(g, u, h[u][k].target as int));
        }
        lemma_row_len(g[u], h[u]);
        lemma_row_len(h[u], g[u]);
    }
    lemma_degree_sum_same(h, g);
    assert forall|u: int| 0 <= u < g.len() implies #[trigger] is_boundary(g, u) == is_boundary(
        h,
        u,
    ) by {
        if is_boundary(g, u) && g[u].len() > 0 {
            let j = choose|j: int| 0 <= j < g.len() && (#[trigger] g[j]).len() > g[u].len();
            assert(h[j].len() > h[u].len());
        }
        if is_boundary(h, u) && h[u].len() > 0 {
            let j = choose|j: int| 0 <= j < h.len() && (#[trigger] h[j]).len() > h[u].len();
            assert(g[j].len() > g[u].len());
        }
    }
}

/// Whether some entry of `edges` joins `a` and `b`.
pub open spec fn names(edges: Seq<(usize, usize, Bits)>, a: int, b: int) -> bool {
    exists|k: int| 0 <= k < edges.len() && joins(#[trigger] edges[k], a, b)
}

/// Every edge of a new graph starts as a new bond does, with the weight of an entry for it.
proof fn lemma_wired_origin(n: nat, edges: Seq<(usize, usize, Bits)>, u: int, k: int) -> (origin:
    int)
    requires
        0 <= u < n,
        0 <= k < wired(n, edges)[u].len(),
    ensures
        0 <= origin < edges.len(),
        joins(edges[origin], u, wired(n, edges)[u][k].target as int),
        wired(n, edges)[u][k] == fresh_edge(
            wired(n, edges)[u][k].target,
            HALF,
            edges[origin].2,
        ),
    decreases edges.len(),
{
    let rest = edges.drop_last();
    let before = wired(n, rest);
    law_new_graph(n, rest);
    if k < before[u].len() {
        let origin = lemma_wired_origin(n, rest, u, k);
        assert(edges[origin] == rest[origin]);
        assert(wired(n, edges)[u][k] == before[u][k]);
        origin
    } else {
        edges.len() - 1
    }
}

/// Two lists that name the same bonds between different nodes, in whatever order, however often and
/// from whichever end, make connectomes that agree in all but the order of the edges at a node.
/// Where the entries for one bond give one weight, the same edges stand at each node.
pub proof fn law_order_of_entries(
    n: nat,
    a: Seq<(usize, usize, Bits)>,
    b: Seq<(usize, usize, Bits)>,
    levels: Seq<Bits>,
    phi_sum: Bits,
    phi_sumsq: Bits,
    transport_renormalization: Bits,
    dynamic_bond_geom_weight: Bits,
)
    requires
        forall|u: int, v: int|
            0 <= u < n && 0 <= v < n && u != v ==> #[trigger] names(a, u, v) == names(b, u, v),
    ensures
        ({
            let x = new_state(
                wired(n, a),
                levels,
                phi_sum,
                phi_sumsq,
                transport_renormalization,
                dynamic_bond_geom_weight,
            );
            let y = new_state(
                wired(n, b),
                levels,
                phi_sum,
                phi_sumsq,
                transport_renormalization,
                dynamic_bond_geom_weight,
            );
            &&& y == (State { rows: y.rows, ..x })
            &&& forall|u: int, v: int| #[trigger] bonded(x.rows, u, v) == bonded(y.rows, u, v)
            &&& forall|u: int|
                0 <= u < n ==> (#[trigger] x.rows[u]).len() == y.rows[u].len()
        }),
        (forall|k: int, l: int|
            0 <= k < a.len() && 0 <= l < b.len() && joins(
                #[trigger] a[k],
                (#[trigger] b[l]).0 as int,
                b[l].1 as int,
            ) ==> a[k].2 == b[l].2) ==> forall|u: int|
            0 <= u < n ==> #[trigger] wired(n, a)[u].to_set() == wired(n, b)[u].to_set(),
{
    let (g, h) = (wired(n, a), wired(n, b));
    law_new_graph(n, a);
    law_new_graph(n, b);
    assert forall|u: int, v: int| #[trigger] bonded(g, u, v) == bonded(h, u, v) by {
        if 0 <= u < n && 0 <= v < n && u != v {
            assert(names(a, u, v) == names(b, u, v));
        }
    }
    lemma_same_bonds_same_degrees(g, h);
    let x = new_state(
        g,
        levels,
        phi_sum,
        phi_sumsq,
        transport_renormalization,
        dynamic_bond_geom_weight,
    );
    let y = new_state(
        h,
        levels,
        phi_sum,
        phi_sumsq,
        transport_renormalization,
        dynamic_bond_geom_weight,
    );
    assert(x.last_visit =~= y.last_visit);
    assert(x.observed =~= y.observed);
    assert(x.unsettled =~= y.unsettled);
    if forall|k: int, l: int|
        0 <= k < a.len() && 0 <= l < b.len() && joins(
            #[trigger] a[k],
            (#[trigger] b[l]).0 as int,
            b[l].1 as int,
        ) ==> a[k].2 == b[l].2 {
        assert forall|u: int| 0 <= u < n implies #[trigger] wired(n, a)[u].to_set() == wired(n, b)[u].to_set() by {
            assert forall|k: int| 0 <= k < g[u].len() implies h[u].contains(
                #[trigger] g[u][k],
            ) by {
                let o = lemma_wired_origin(n, a, u, k);
                let v = g[u][k].target;
                assert(bonded(g, u, v as int));
                assert(bonded(h, u, v as int));
                let l = choose|l: int| 0 <= l < h[u].len() && (#[trigger] h[u][l]).target == v;
                let p = lemma_wired_origin(n, b, u, l);
                assert(joins(a[o], b[p].0 as int, b[p].1 as int));
                assert(h[u][l] == g[u][k]);
            }
            assert forall|k: int| 0 <= k < h[u].len() implies g[u].contains(
                #[trigger] h[u][k],
            ) by {
                let p = lemma_wired_origin(n, b, u, k);
                let v = h[u][k].target;
                assert(bonded(h, u, v as int));
                assert(bonded(g, u, v as int));
                let l = choose|l: int| 0 <= l < g[u].len() && (#[trigger] g[u][l]).target == v;
                let o = lemma_wired_origin(n, a, u, l);
                assert(joins(a[o], b[p].0 as int, b[p].1 as int));
                assert(g[u][l] == h[u][k]);
            }
            assert(g[u].to_set() =~= h[u].to_set());
        }
    }
}

/// Growing leaves the edges that are there in their places; the new ones behind them have no
/// strength and belong to a pair.
pub proof fn lemma_grown_rows(g: Rows, pairs: Seq<(usize, usize)>, geom: Bits)
    ensures
        grown(g, pairs, geom).len() == g.len(),
        forall|u: int|
            0 <= u < g.len() ==> (#[trigger] grown(g, pairs, geom)[u]).len() >= g[u].len(),
        forall|u: int, k: int|
            0 <= u < g.len() && 0 <= k < g[u].len() ==> #[trigger] grown(g, pairs, geom)[u][k]
                == g[u][k],
        forall|u: int, k: int|
            0 <= u < g.len() && g[u].len() <= k < grown(g, pairs, geom)[u].len() ==> {
                let e = #[trigger] grown(g, pairs, geom)[u][k];
                e == fresh_edge(e.target, ZERO, geom) && paired(pairs, u, e.target as int)
            },
    decreases pairs.len(),
{
    if pairs.len() > 0 {
        let rest = pairs.drop_last();
        lemma_grown_rows(g, rest, geom);
        let h = grown(g, rest, geom);
        let all = grown(g, pairs, geom);
        assert forall|u: int, v: int| paired(rest, u, v) implies #[trigger] paired(pairs, u, v) by {
            let j = choose|j: int|
                0 <= j < rest.len() && ((#[trigger] rest[j]).0 == u && rest[j].1 == v || rest[j].0
                    == v && rest[j].1 == u);
            assert(pairs[j] == rest[j]);
        }
        assert forall|u: int, k: int| 0 <= u < g.len() && 0 <= k < g[u].len() implies #[trigger] all[u][k]
            == g[u][k] by {
            assert(h[u].len() >= g[u].len());
            assert(h[u][k] == g[u][k]);
        }
        assert forall|u: int, k: int| 0 <= u < g.len() && g[u].len() <= k < all[u].len() implies {
            let e = #[trigger] all[u][k];
            e == fresh_edge(e.target, ZERO, geom) && paired(pairs, u, e.target as int)
        } by {
            if k < h[u].len() {
                assert(all[u][k] == h[u][k]);
            } else {
                assert(pairs[pairs.len() - 1] == pairs.last());
            }
        }
    }
}

/// Whether some pair joins `u` and `v`.
pub open spec fn paired(pairs: Seq<(usize, usize)>, u: int, v: int) -> bool {
    exists|j: int|
        0 <= j < pairs.len() && ((#[trigger] pairs[j]).0 == u && pairs[j].1 == v || pairs[j].0 == v
            && pairs[j].1 == u)
}

/// Above rest and with a floor above 0, a bond that a step proposes at a computed node breaks in
/// that step, since it starts without strength: the step leaves no bond that was not there before
/// it, breaks at least as many as it makes, and those that are left keep their weights.
pub proof fn law_new_bonds_break_above_rest(
    s: State,
    plan: StepPlan,
    numbers: StepNumbers,
    counts: BondCounts,
)
    requires
        s.wf(),
        plan.wf(s),
        numbers.fits(s, plan.compute_list@),
        !is_at_most(s.k_t, ZERO),
        is_less(ZERO, numbers.floor_root),
        forall|k: int|
            0 <= k < plan.bond_pairs@.len() ==> listed(
                plan.compute_list@,
                (#[trigger] plan.bond_pairs@[k]).0 as int,
            ) || listed(plan.compute_list@, plan.bond_pairs@[k].1 as int),
        advanced(
            s,
            plan.compute_list@,
            plan.bond_pairs@,
            numbers,
        ).directed_edge_count + 2 * counts.removed == s.directed_edge_count + 2
            * counts.instantiated,
    ensures
        ({
            let end = advanced(s, plan.compute_list@, plan.bond_pairs@, numbers);
            &&& forall|u: int, v: int| #[trigger] bonded(end.rows, u, v) ==> bonded(s.rows, u, v)
            &&& forall|u: int, k: int|
                0 <= u < end.rows.len() && 0 <= k < end.rows[u].len() ==> holds_weight(
                    s.rows[u],
                    (#[trigger] end.rows[u][k]).target,
                    end.rows[u][k].geom_weight,
                )
        }),
        counts.removed >= counts.instantiated,
{
    let list = plan.compute_list@;
    let pairs = plan.bond_pairs@;
    let floor = numbers.floor_root;
    let moved = all_advanced(s.rows, list, numbers.bond_raw@);
    let mid = regrown(s, list, pairs, numbers).rows;
    let end = advanced(s, list, pairs, numbers);
    lemma_advanced_shape(s.rows, list, numbers.bond_raw@);
    lemma_grown_rows(moved, pairs, s.dynamic_bond_geom_weight);
    lemma_grown_simple(moved, pairs, s.dynamic_bond_geom_weight);
    lemma_decohered_bonds(mid, list, floor);
    assert forall|u: int, k: int|
        0 <= u < mid.len() && moved[u].len() <= k < mid[u].len() implies breaks(
        mid,
        list,
        floor,
        u,
        (#[trigger] mid[u][k]).target as int,
    ) by {
        let v = mid[u][k].target as int;
        assert(paired(pairs, u, v));
        assert(simple_row(mid[u], u, mid.len() as int));
        assert(bonded(mid, u, v));
        assert(bonded(mid, v, u));
        let l = choose|l: int| 0 <= l < mid[v].len() && (#[trigger] mid[v][l]).target == u;
        if l < moved[v].len() {
            assert(moved[v][l] == mid[v][l]);
            assert(bonded(moved, v, u));
            assert(bonded(moved, u, v));
            let m = choose|m: int| 0 <= m < moved[u].len() && (#[trigger] moved[u][m]).target == v;
            assert(mid[u][m] == moved[u][m]);
            assert(mid[u][m].target != mid[u][k].target);
        }
        assert(mid[v][l].psi_curr == ZERO);
        assert(mid[u][k].psi_curr == ZERO);
        assert(seen_faint(mid, floor, u, v));
        assert(seen_faint(mid, floor, v, u));
    }
    assert forall|u: int, k: int| 0 <= u < end.rows.len() && 0 <= k < end.rows[u].len() implies holds_weight(
        s.rows[u],
        (#[trigger] end.rows[u][k]).target,
        end.rows[u][k].geom_weight,
    ) by {
        let p = |e: Edge| !breaks(mid, list, floor, u, e.target as int);
        assert(end.rows[u] == mid[u].filter(p));
        let o = lemma_filter_origin(mid[u], p, k);
        assert(o < moved[u].len());
        assert(moved[u][o] == mid[u][o]);
        assert(s.rows[u][o].target == end.rows[u][k].target);
    }
    assert forall|u: int, v: int| #[trigger] bonded(end.rows, u, v) implies bonded(s.rows, u, v) by {
        let k = choose|k: int| 0 <= k < end.rows[u].len() && (#[trigger] end.rows[u][k]).target == v;
        assert(holds_weight(s.rows[u], end.rows[u][k].target, end.rows[u][k].geom_weight));
    }
    assert forall|u: int| 0 <= u < end.rows.len() implies (#[trigger] end.rows[u]).len()
        <= s.rows[u].len() by {
        assert(simple_row(end.rows[u], u, end.rows.len() as int));
        assert forall|k: int| 0 <= k < end.rows[u].len() implies leads_to(
            s.rows[u],
            (#[trigger] end.rows[u][k]).target as int,
        ) by {
            assert(bonded(end.rows, u, end.rows[u][k].target as int));
        }
        lemma_row_len(end.rows[u], s.rows[u]);
    }
    lemma_degree_sum_at_most(end.rows, s.rows);
}

/// Whether `row` holds an edge to `target` with the weight `geom`.
pub open spec fn holds_weight(row: Seq<Edge>, target: usize, geom: Bits) -> bool {
    exists|k: int|
        0 <= k < row.len() && (#[trigger] row[k]).target == target && row[k].geom_weight == geom
}

/// Growing leaves a graph a graph.
pub proof fn lemma_grown_simple(g: Rows, pairs: Seq<(usize, usize)>, geom: Bits)
    requires
        simple_graph(g),
    ensures
        simple_graph(grown(g, pairs, geom)),
    decreases pairs.len(),
{
    if pairs.len() > 0 {
        lemma_grown_simple(g, pairs.drop_last(), geom);
        let h = grown(g, pairs.drop_last(), geom);
        let (u, v) = pairs.last();
        if acceptable(h, (u, v, geom)) {
            lemma_with_bond(h, u, v, ZERO, geom);
        }
    }
}

/// At rest a step that proposes nothing makes no bond and breaks none.
pub proof fn law_rest_keeps_bonds(
    s: State,
    plan: StepPlan,
    numbers: StepNumbers,
    counts: BondCounts,
)
    requires
        s.wf(),
        plan.wf(s),
        numbers.fits(s, plan.compute_list@),
        is_at_most(s.k_t, ZERO),
        plan.bond_pairs@.len() == 0,
        regrown(
            s,
            plan.compute_list@,
            plan.bond_pairs@,
            numbers,
        ).directed_edge_count == s.directed_edge_count + 2 * counts.instantiated,
        advanced(
            s,
            plan.compute_list@,
            plan.bond_pairs@,
            numbers,
        ).directed_edge_count + 2 * counts.removed == s.directed_edge_count + 2
            * counts.instantiated,
    ensures
        counts.instantiated == 0,
        counts.removed == 0,
        forall|u: int, v: int| #[trigger]
            bonded(
                advanced(s, plan.compute_list@, plan.bond_pairs@, numbers).rows,
                u,
                v,
            ) == bonded(s.rows, u, v),
        ({
            let end = advanced(s, plan.compute_list@, plan.bond_pairs@, numbers);
            forall|u: int, k: int|
                0 <= u < end.rows.len() && 0 <= k < end.rows[u].len() ==> holds_weight(
                    s.rows[u],
                    (#[trigger] end.rows[u][k]).target,
                    end.rows[u][k].geom_weight,
                )
        }),
{
    law_bonds_after_a_step(s, plan, numbers);
    let end = advanced(s, plan.compute_list@, plan.bond_pairs@, numbers);
    assert forall|u: int, k: int| 0 <= u < end.rows.len() && 0 <= k < end.rows[u].len() implies holds_weight(
        s.rows[u],
        (#[trigger] end.rows[u][k]).target,
        end.rows[u][k].geom_weight,
    ) by {
        assert(end.rows == all_advanced(s.rows, plan.compute_list@, numbers.bond_raw@));
        assert(s.rows[u][k].target == end.rows[u][k].target);
    }
}

} // verus!
