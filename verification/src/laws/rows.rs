//! What operations on the rows of a graph do to each edge.

use crate::binary64::{clipped, is_at_most, Bits, HALF, ZERO};
use crate::graph::{
    acceptable, all_advanced, bonded, breaks, decohered, degree_sum, faint, fits_rows, grown,
    is_max_degree, lemma_filter_agree, seen_faint, simple_graph, simple_row, wired,
    with_bond, with_strengths, Edge, Rows,
};
use crate::laws::bonds::{law_new_graph, lemma_grown_rows};
use crate::laws::lists::law_listed;
use crate::members::{ascending, lemma_place_of};
use vstd::prelude::*;

verus! {

/// A node is bonded to those that its edges lead to.
pub proof fn law_bonded(g: Rows, u: int, v: int)
    ensures
        bonded(g, u, v) <==> 0 <= u < g.len() && exists|k: int|
            0 <= k < g[u].len() && (#[trigger] g[u][k]).target == v,
{
}

/// In a graph every edge leads to another node, no two at a node lead to the same one, and for each
/// there is one that leads back.
pub proof fn law_graph(g: Rows)
    requires
        simple_graph(g),
    ensures
        forall|u: int, k: int|
            0 <= u < g.len() && 0 <= k < g[u].len() ==> (#[trigger] g[u][k]).target < g.len()
                && g[u][k].target != u,
        forall|u: int, k: int, l: int|
            0 <= u < g.len() && 0 <= k < l < g[u].len() ==> (#[trigger] g[u][k]).target != (
            #[trigger] g[u][l]).target,
        forall|u: int, k: int|
            0 <= u < g.len() && 0 <= k < g[u].len() ==> leads_back(
                g,
                u,
                (#[trigger] g[u][k]).target as int,
            ),
{
    assert forall|u: int, k: int| 0 <= u < g.len() && 0 <= k < g[u].len() implies (
    #[trigger] g[u][k]).target < g.len() && g[u][k].target != u by {
        assert(simple_row(g[u], u, g.len() as int));
    }
    assert forall|u: int, k: int, l: int| 0 <= u < g.len() && 0 <= k < l < g[u].len() implies (
    #[trigger] g[u][k]).target != (#[trigger] g[u][l]).target by {
        assert(simple_row(g[u], u, g.len() as int));
    }
    assert forall|u: int, k: int| 0 <= u < g.len() && 0 <= k < g[u].len() implies leads_back(
        g,
        u,
        (#[trigger] g[u][k]).target as int,
    ) by {
        assert(bonded(g, u, g[u][k].target as int));
        assert(bonded(g, g[u][k].target as int, u));
    }
}

/// Whether an edge of `v` leads to `u`.
pub open spec fn leads_back(g: Rows, u: int, v: int) -> bool {
    exists|l: int| 0 <= l < g[v].len() && (#[trigger] g[v][l]).target == u
}

/// The edges are counted row by row.
pub proof fn law_degree_sum(g: Rows, row: Seq<Edge>)
    ensures
        degree_sum(Seq::empty()) == 0,
        degree_sum(g.push(row)) == degree_sum(g) + row.len(),
{
    assert(g.push(row).drop_last() =~= g);
}

/// The largest degree is that of some node, or 1 where no node has more, and none has more.
pub proof fn law_max_degree(g: Rows, most: nat)
    ensures
        is_max_degree(g, most) <==> most >= 1 && (forall|u: int|
            0 <= u < g.len() ==> (#[trigger] g[u]).len() <= most) && (most == 1 || exists|u: int|
            0 <= u < g.len() && (#[trigger] g[u]).len() == most),
{
}

/// Whether `h` is `g` with one more bond, an edge behind the others at both of its nodes, with the
/// strength `psi`, now and before, and the weight `geom`.
pub open spec fn one_bond_more(g: Rows, h: Rows, u: usize, v: usize, psi: Bits, geom: Bits) -> bool {
    &&& h.len() == g.len()
    &&& h[u as int] == g[u as int].push(
        Edge { target: v, psi_curr: psi, psi_prev: psi, geom_weight: geom },
    )
    &&& h[v as int] == g[v as int].push(
        Edge { target: u, psi_curr: psi, psi_prev: psi, geom_weight: geom },
    )
    &&& forall|i: int| 0 <= i < g.len() && i != u && i != v ==> #[trigger] h[i] == g[i]
}

/// A bond that is added stands behind the others at both of its nodes.
pub proof fn law_bond_appended(g: Rows, u: usize, v: usize, psi: Bits, geom: Bits)
    requires
        u < g.len(),
        v < g.len(),
        u != v,
    ensures
        one_bond_more(g, with_bond(g, u, v, psi, geom), u, v, psi, geom),
        acceptable(g, (u, v, geom)) <==> !exists|k: int|
            0 <= k < g[u as int].len() && (#[trigger] g[u as int][k]).target == v,
{
}

/// A new graph without entries has no edges. One more entry adds a bond of strength one half with
/// its weight, if it names two different nodes that have no bond yet, and else adds nothing.
pub proof fn law_one_more_entry(n: nat, edges: Seq<(usize, usize, Bits)>, edge: (usize, usize, Bits))
    ensures
        wired(n, Seq::empty()).len() == n,
        forall|u: int| 0 <= u < n ==> (#[trigger] wired(n, Seq::empty())[u]).len() == 0,
        ({
            let g = wired(n, edges);
            let h = wired(n, edges.push(edge));
            let (u, v, geom) = edge;
            if u < n && v < n && u != v && !exists|k: int|
                0 <= k < g[u as int].len() && (#[trigger] g[u as int][k]).target == v {
                one_bond_more(g, h, u, v, HALF, geom)
            } else {
                h == g
            }
        }),
{
    law_new_graph(n, edges);
    assert(edges.push(edge).drop_last() =~= edges);
    let g = wired(n, edges);
    let (u, v, geom) = edge;
    if u < n && v < n && u != v {
        law_bond_appended(g, u, v, HALF, geom);
    }
}

/// Growing by no pair changes nothing. One more pair adds a bond without strength and with the
/// weight `geom`, if it names two different nodes that have no bond yet, and else adds nothing.
pub proof fn law_one_more_pair(g: Rows, pairs: Seq<(usize, usize)>, pair: (usize, usize), geom: Bits)
    ensures
        grown(g, Seq::empty(), geom) == g,
        ({
            let h = grown(g, pairs, geom);
            let t = grown(g, pairs.push(pair), geom);
            let (u, v) = pair;
            &&& h.len() == g.len()
            &&& if u < h.len() && v < h.len() && u != v && !exists|k: int|
                0 <= k < h[u as int].len() && (#[trigger] h[u as int][k]).target == v {
                one_bond_more(h, t, u, v, ZERO, geom)
            } else {
                t == h
            }
        }),
{
    lemma_grown_rows(g, pairs, geom);
    assert(pairs.push(pair).drop_last() =~= pairs);
    let h = grown(g, pairs, geom);
    let (u, v) = pair;
    if u < h.len() && v < h.len() && u != v {
        law_bond_appended(h, u, v, ZERO, geom);
    }
}

/// Moving on gives every edge of a listed node the clip of its new strength, with the one that it
/// had as the one before, and leaves all else as it is.
pub proof fn law_edges_move_on(g: Rows, list: Seq<usize>, raw: Seq<Vec<Bits>>)
    requires
        ascending(list),
        fits_rows(g, list, raw),
    ensures
        ({
            let h = all_advanced(g, list, raw);
            &&& h.len() == g.len()
            &&& forall|k: int|
                0 <= k < list.len() ==> h[#[trigger] list[k] as int].len()
                    == g[list[k] as int].len()
            &&& forall|k: int, j: int|
                0 <= k < list.len() && 0 <= j < raw[k]@.len() ==> h[list[k] as int][j] == (Edge {
                    target: g[list[k] as int][j].target,
                    psi_curr: clipped(#[trigger] raw[k]@[j]),
                    psi_prev: g[list[k] as int][j].psi_curr,
                    geom_weight: g[list[k] as int][j].geom_weight,
                })
            &&& forall|u: int|
                0 <= u < g.len() && (forall|k: int| 0 <= k < list.len() ==> #[trigger] list[k] != u)
                    ==> #[trigger] h[u] == g[u]
        }),
{
    let h = all_advanced(g, list, raw);
    assert forall|k: int| 0 <= k < list.len() implies h[#[trigger] list[k] as int].len()
        == g[list[k] as int].len() by {
        lemma_place_of(list, k);
    }
    assert forall|k: int, j: int| 0 <= k < list.len() && 0 <= j < raw[k]@.len() implies h[list[k] as int][j]
        == (Edge {
        target: g[list[k] as int][j].target,
        psi_curr: clipped(#[trigger] raw[k]@[j]),
        psi_prev: g[list[k] as int][j].psi_curr,
        geom_weight: g[list[k] as int][j].geom_weight,
    }) by {
        lemma_place_of(list, k);
        assert(list[k] < g.len() && raw[k]@.len() == g[list[k] as int].len());
    }
}

/// Giving a row new strengths changes nothing else about its edges.
pub proof fn law_edges_take_strengths(row: Seq<Edge>, psi: Seq<Bits>)
    ensures
        with_strengths(row, psi).len() == row.len(),
        forall|k: int|
            0 <= k < row.len() ==> #[trigger] with_strengths(row, psi)[k] == (Edge {
                target: row[k].target,
                psi_curr: psi[k],
                psi_prev: row[k].psi_prev,
                geom_weight: row[k].geom_weight,
            }),
{
}

/// Whether an edge of `u` to `v` has a strength that does not reach `floor`, or is no number.
pub open spec fn sees_below(g: Rows, floor: Bits, u: int, v: int) -> bool {
    exists|k: int|
        0 <= k < g[u].len() && (#[trigger] g[u][k]).target == v && !is_at_most(
            floor,
            g[u][k].psi_curr,
        )
}

/// Just those edges stay, in their order, whose bond no listed end sees below the floor.
pub proof fn law_edges_break(g: Rows, list: Seq<usize>, floor: Bits)
    requires
        simple_graph(g),
        g.len() <= usize::MAX,
    ensures
        decohered(g, list, floor).len() == g.len(),
        forall|u: usize|
            u < g.len() ==> #[trigger] decohered(g, list, floor)[u as int] == g[u as int].filter(
                |e: Edge|
                    !(list.contains(u) && sees_below(g, floor, u as int, e.target as int)) && !(
                    list.contains(e.target) && sees_below(g, floor, e.target as int, u as int)),
            ),
{
    assert forall|u: usize| u < g.len() implies #[trigger] decohered(g, list, floor)[u as int]
        == g[u as int].filter(
        |e: Edge|
            !(list.contains(u) && sees_below(g, floor, u as int, e.target as int)) && !(
            list.contains(e.target) && sees_below(g, floor, e.target as int, u as int)),
    ) by {
        let p = |e: Edge| !breaks(g, list, floor, u as int, e.target as int);
        let q = |e: Edge|
            !(list.contains(u) && sees_below(g, floor, u as int, e.target as int)) && !(
            list.contains(e.target) && sees_below(g, floor, e.target as int, u as int));
        let row = g[u as int];
        assert forall|k: int| 0 <= k < row.len() implies p(#[trigger] row[k]) == q(row[k]) by {
            let v = row[k].target;
            law_listed(list, u);
            law_listed(list, v);
            lemma_sees_below(g, floor, u as int, v as int);
            lemma_sees_below(g, floor, v as int, u as int);
        }
        lemma_filter_agree(row, p, q);
    }
}

/// An end sees a bond faint where it sees it below the floor.
proof fn lemma_sees_below(g: Rows, floor: Bits, u: int, v: int)
    ensures
        seen_faint(g, floor, u, v) == sees_below(g, floor, u, v),
{
    if seen_faint(g, floor, u, v) {
        let k = choose|k: int|
            0 <= k < g[u].len() && (#[trigger] g[u][k]).target == v && faint(
                g[u][k].psi_curr,
                floor,
            );
        assert(g[u][k].target == v);
    }
    if sees_below(g, floor, u, v) {
        let k = choose|k: int|
            0 <= k < g[u].len() && (#[trigger] g[u][k]).target == v && !is_at_most(
                floor,
                g[u][k].psi_curr,
            );
        assert(g[u][k].target == v);
    }
}

} // verus!
