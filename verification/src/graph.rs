//! The bonds between nodes: a graph without loops or double edges, kept from both ends.

use crate::binary64::{at_most, clip01, clipped, is_at_most, Bits, HALF, ZERO};
use crate::members::{
    ascending, lemma_listed_push, lemma_listed_take, lemma_place_of, listed, place_of,
};
use vstd::prelude::*;

verus! {

/// One end of a bond: the node at the other end, and the bond's state as seen from this one.
#[derive(Clone, Copy)]
pub struct Edge {
    pub target: usize,
    pub psi_curr: Bits,
    pub psi_prev: Bits,
    pub geom_weight: Bits,
}

/// The rows of an adjacency list: the edges that leave each node, oldest first.
pub type Rows = Seq<Seq<Edge>>;

/// The rows that a nested vector holds.
pub open spec fn rows_of(adj: Seq<Vec<Edge>>) -> Rows {
    Seq::new(adj.len(), |u: int| adj[u]@)
}

/// Whether an edge of `row` leads to `v`.
pub open spec fn leads_to(row: Seq<Edge>, v: int) -> bool {
    exists|k: int| 0 <= k < row.len() && (#[trigger] row[k]).target == v
}

/// Whether node `u` holds an edge to node `v`.
pub open spec fn bonded(g: Rows, u: int, v: int) -> bool {
    0 <= u < g.len() && leads_to(g[u], v)
}

/// Whether every edge of `row`, the row of `u` among `n` nodes, leads to another node, and no two
/// lead to the same one.
pub open spec fn simple_row(row: Seq<Edge>, u: int, n: int) -> bool {
    &&& forall|k: int| 0 <= k < row.len() ==> (#[trigger] row[k]).target < n && row[k].target != u
    &&& forall|k: int, l: int|
        0 <= k < l < row.len() ==> (#[trigger] row[k]).target != (#[trigger] row[l]).target
}

/// Whether the rows form a graph: no loops, no double edges, every bond held at both ends.
pub open spec fn simple_graph(g: Rows) -> bool {
    &&& forall|u: int| 0 <= u < g.len() ==> simple_row(#[trigger] g[u], u, g.len() as int)
    &&& forall|u: int, v: int| #[trigger] bonded(g, u, v) ==> bonded(g, v, u)
}

/// The number of edges in all rows.
pub open spec fn degree_sum(g: Rows) -> nat
    decreases g.len(),
{
    if g.len() == 0 {
        0
    } else {
        degree_sum(g.drop_last()) + g.last().len()
    }
}

/// A new edge to `target`, without a past.
pub open spec fn fresh_edge(target: usize, psi: Bits, geom: Bits) -> Edge {
    Edge { target, psi_curr: psi, psi_prev: psi, geom_weight: geom }
}

/// `g` with a bond between `u` and `v` added at the end of both rows.
pub open spec fn with_bond(g: Rows, u: usize, v: usize, psi: Bits, geom: Bits) -> Rows {
    g.update(u as int, g[u as int].push(fresh_edge(v, psi, geom))).update(
        v as int,
        g[v as int].push(fresh_edge(u, psi, geom)),
    )
}

/// Whether the bond that `edge` asks for can be added to `g`.
pub open spec fn acceptable(g: Rows, edge: (usize, usize, Bits)) -> bool {
    edge.0 < g.len() && edge.1 < g.len() && edge.0 != edge.1 && !bonded(
        g,
        edge.0 as int,
        edge.1 as int,
    )
}

/// The rows of `n` nodes after the listed bonds have been asked for in turn. One that leads out of
/// range, back to its start or between nodes that are bonded already is passed over.
pub open spec fn wired(n: nat, edges: Seq<(usize, usize, Bits)>) -> Rows
    decreases edges.len(),
{
    if edges.len() == 0 {
        Seq::new(n, |u: int| Seq::<Edge>::empty())
    } else {
        let g = wired(n, edges.drop_last());
        let edge = edges.last();
        if acceptable(g, edge) {
            with_bond(g, edge.0, edge.1, HALF, edge.2)
        } else {
            g
        }
    }
}

/// `g` after the listed bonds have been asked for in turn, each with strength 0 and the weight
/// `geom`. One that leads out of range or between nodes that are bonded already is passed over.
pub open spec fn grown(g: Rows, pairs: Seq<(usize, usize)>, geom: Bits) -> Rows
    decreases pairs.len(),
{
    if pairs.len() == 0 {
        g
    } else {
        let h = grown(g, pairs.drop_last(), geom);
        let (u, v) = pairs.last();
        if acceptable(h, (u, v, geom)) {
            with_bond(h, u, v, ZERO, geom)
        } else {
            h
        }
    }
}

/// `g` with the row of each listed node one step later, by the new strengths at its place.
pub open spec fn all_advanced(g: Rows, list: Seq<usize>, raw: Seq<Vec<Bits>>) -> Rows {
    Seq::new(
        g.len(),
        |u: int|
            if listed(list, u) {
                with_advanced(g[u], raw[place_of(list, u)]@)
            } else {
                g[u]
            },
    )
}

/// Whether each listed node is a node of `g`, and `raw` has a value for each of its edges.
pub open spec fn fits_rows(g: Rows, list: Seq<usize>, raw: Seq<Vec<Bits>>) -> bool {
    &&& raw.len() == list.len()
    &&& forall|k: int|
        0 <= k < list.len() ==> (#[trigger] list[k]) < g.len() && raw[k]@.len()
            == g[list[k] as int].len()
}

/// Changing one row changes the number of edges by what that row gains or loses.
pub proof fn lemma_degree_sum_update(g: Rows, u: int, row: Seq<Edge>)
    requires
        0 <= u < g.len(),
    ensures
        degree_sum(g.update(u, row)) == degree_sum(g) - g[u].len() + row.len(),
    decreases g.len(),
{
    let h = g.update(u, row);
    if u == g.len() - 1 {
        assert(h.drop_last() =~= g.drop_last());
    } else {
        assert(h.drop_last() =~= g.drop_last().update(u, row));
        lemma_degree_sum_update(g.drop_last(), u, row);
    }
}

/// No row holds more edges than all rows together.
pub proof fn lemma_row_at_most_sum(g: Rows, u: int)
    requires
        0 <= u < g.len(),
    ensures
        g[u].len() <= degree_sum(g),
    decreases g.len(),
{
    if u < g.len() - 1 {
        lemma_row_at_most_sum(g.drop_last(), u);
    }
}

/// Empty rows hold no edges.
proof fn lemma_degree_sum_empty(n: nat)
    ensures
        degree_sum(Seq::new(n, |u: int| Seq::<Edge>::empty())) == 0,
    decreases n,
{
    let g: Rows = Seq::new(n, |u: int| Seq::<Edge>::empty());
    if n > 0 {
        assert(g.drop_last() =~= Seq::new((n - 1) as nat, |u: int| Seq::<Edge>::empty()));
        lemma_degree_sum_empty((n - 1) as nat);
    }
}

/// A new bond between two nodes that had none leaves the graph a graph.
pub proof fn lemma_with_bond(g: Rows, u: usize, v: usize, psi: Bits, geom: Bits)
    requires
        simple_graph(g),
        acceptable(g, (u, v, geom)),
    ensures
        simple_graph(with_bond(g, u, v, psi, geom)),
        degree_sum(with_bond(g, u, v, psi, geom)) == degree_sum(g) + 2,
        forall|a: int, b: int| #[trigger]
            bonded(with_bond(g, u, v, psi, geom), a, b) <==> bonded(g, a, b) || (a == u && b == v)
                || (a == v && b == u),
{
    let h = with_bond(g, u, v, psi, geom);
    let half = g.update(u as int, g[u as int].push(fresh_edge(v, psi, geom)));
    lemma_degree_sum_update(g, u as int, half[u as int]);
    lemma_degree_sum_update(half, v as int, h[v as int]);
    assert forall|a: int, b: int| #[trigger] bonded(h, a, b) <==> bonded(g, a, b) || (a == u && b
        == v) || (a == v && b == u) by {
        if bonded(g, a, b) {
            let k = choose|k: int| 0 <= k < g[a].len() && (#[trigger] g[a][k]).target == b;
            assert(h[a][k].target == b);
        }
        if a == u && b == v {
            assert(h[a][g[a].len() as int].target == b);
        }
        if a == v && b == u {
            assert(h[a][g[a].len() as int].target == b);
        }
        if bonded(h, a, b) {
            let k = choose|k: int| 0 <= k < h[a].len() && (#[trigger] h[a][k]).target == b;
            if k < g[a].len() {
                assert(g[a][k].target == b);
            }
        }
    }
    assert(bonded(g, v as int, u as int) ==> bonded(g, u as int, v as int));
    assert forall|a: int| 0 <= a < h.len() implies simple_row(#[trigger] h[a], a, h.len() as int) by {
        assert(simple_row(g[a], a, g.len() as int));
        let row = h[a];
        assert forall|k: int, l: int| 0 <= k < l < row.len() implies (#[trigger] row[k]).target != (
        #[trigger] row[l]).target by {
            assert(g[a][k] == row[k]);
            if l == g[a].len() {
                if row[k].target == row[l].target {
                    assert(bonded(g, a, row[l].target as int));
                }
            } else {
                assert(g[a][l] == row[l]);
            }
        }
    }
}

/// Whether a bond of strength `psi` does not reach `floor`.
pub open spec fn faint(psi: Bits, floor: Bits) -> bool {
    !is_at_most(floor, psi)
}

/// Whether `u` holds an edge to `v` that does not reach `floor`.
pub open spec fn seen_faint(g: Rows, floor: Bits, u: int, v: int) -> bool {
    exists|k: int|
        0 <= k < g[u].len() && (#[trigger] g[u][k]).target == v && faint(g[u][k].psi_curr, floor)
}

/// Whether one of the first `k` edges of `row` leads to `v` and does not reach `floor`.
spec fn faint_among(row: Seq<Edge>, k: int, floor: Bits, v: int) -> bool {
    exists|l: int| 0 <= l < k && (#[trigger] row[l]).target == v && faint(row[l].psi_curr, floor)
}

/// Whether the bond between `u` and `v` breaks: one of its ends is listed and sees it faint.
pub open spec fn breaks(g: Rows, list: Seq<usize>, floor: Bits, u: int, v: int) -> bool {
    (listed(list, u) && seen_faint(g, floor, u, v)) || (listed(list, v) && seen_faint(
        g,
        floor,
        v,
        u,
    ))
}

/// `g` without the bonds that break; the other edges stay in their order.
pub open spec fn decohered(g: Rows, list: Seq<usize>, floor: Bits) -> Rows {
    Seq::new(
        g.len(),
        |u: int| g[u].filter(|e: Edge| !breaks(g, list, floor, u, e.target as int)),
    )
}

/// Two conditions that agree on a sequence select the same part of it.
pub proof fn lemma_filter_agree<A>(s: Seq<A>, p: spec_fn(A) -> bool, q: spec_fn(A) -> bool)
    requires
        forall|k: int| 0 <= k < s.len() ==> p(#[trigger] s[k]) == q(s[k]),
    ensures
        s.filter(p) == s.filter(q),
    decreases s.len(),
{
    reveal(Seq::filter);
    if s.len() > 0 {
        let rest = s.drop_last();
        assert forall|k: int| 0 <= k < rest.len() implies p(#[trigger] rest[k]) == q(rest[k]) by {
            assert(rest[k] == s[k]);
        }
        lemma_filter_agree(rest, p, q);
    }
}

/// Selecting twice is selecting by both conditions.
proof fn lemma_filter_twice<A>(s: Seq<A>, p: spec_fn(A) -> bool, q: spec_fn(A) -> bool)
    ensures
        s.filter(p).filter(q) == s.filter(|x: A| p(x) && q(x)),
    decreases s.len(),
{
    reveal(Seq::filter);
    if s.len() > 0 {
        lemma_filter_twice(s.drop_last(), p, q);
        if p(s.last()) {
            let kept = s.drop_last().filter(p);
            assert(kept.push(s.last()).drop_last() =~= kept);
        }
    }
}

/// A condition that holds throughout selects everything.
pub proof fn lemma_filter_all<A>(s: Seq<A>, p: spec_fn(A) -> bool)
    requires
        forall|k: int| 0 <= k < s.len() ==> p(#[trigger] s[k]),
    ensures
        s.filter(p) == s,
    decreases s.len(),
{
    reveal(Seq::filter);
    if s.len() > 0 {
        let rest = s.drop_last();
        assert forall|k: int| 0 <= k < rest.len() implies p(#[trigger] rest[k]) by {
            assert(rest[k] == s[k]);
        }
        lemma_filter_all(rest, p);
        assert(rest.push(s.last()) =~= s);
    }
}

/// What is selected meets the condition and comes from the sequence.
pub proof fn lemma_filter_origin<A>(s: Seq<A>, p: spec_fn(A) -> bool, k: int) -> (origin: int)
    requires
        0 <= k < s.filter(p).len(),
    ensures
        0 <= origin < s.len(),
        s[origin] == s.filter(p)[k],
        p(s[origin]),
{
    broadcast use Seq::lemma_filter_pred;

    let kept = s.filter(p);
    assert(kept.contains(kept[k]));
    s.lemma_filter_contains_rev(p, kept[k]);
    let origin = choose|o: int| 0 <= o < s.len() && s[o] == kept[k];
    origin
}

/// What meets the condition is selected.
proof fn lemma_filter_keeps<A>(s: Seq<A>, p: spec_fn(A) -> bool, k: int) -> (place: int)
    requires
        0 <= k < s.len(),
        p(s[k]),
    ensures
        0 <= place < s.filter(p).len(),
        s.filter(p)[place] == s[k],
{
    s.lemma_filter_contains(p, k);
    let place = choose|o: int| 0 <= o < s.filter(p).len() && s.filter(p)[o] == s[k];
    place
}

/// A part of a row without loops or double edges has none either.
proof fn lemma_filter_simple(row: Seq<Edge>, p: spec_fn(Edge) -> bool, u: int, n: int)
    requires
        simple_row(row, u, n),
    ensures
        simple_row(row.filter(p), u, n),
    decreases row.len(),
{
    reveal(Seq::filter);
    if row.len() > 0 {
        let rest = row.drop_last();
        assert(simple_row(rest, u, n)) by {
            assert(forall|k: int| 0 <= k < rest.len() ==> #[trigger] rest[k] == row[k]);
        }
        lemma_filter_simple(rest, p, u, n);
        if p(row.last()) {
            let kept = rest.filter(p);
            let all = kept.push(row.last());
            assert forall|k: int, l: int| 0 <= k < l < all.len() implies (#[trigger] all[k]).target
                != (#[trigger] all[l]).target by {
                assert(all[k] == kept[k]);
                if l == kept.len() {
                    let o = lemma_filter_origin(rest, p, k);
                    assert(row[o] == kept[k]);
                    assert(row[row.len() - 1] == all[l]);
                } else {
                    assert(all[l] == kept[l]);
                }
            }
            assert forall|k: int| 0 <= k < all.len() implies (#[trigger] all[k]).target < n
                && all[k].target != u by {
                if k < kept.len() {
                    assert(all[k] == kept[k]);
                } else {
                    assert(all[k] == row[row.len() - 1]);
                }
            }
        }
    }
}

/// Taking out the only edge to `v` shortens a row by one.
proof fn lemma_drop_target(row: Seq<Edge>, u: int, n: int, v: usize)
    requires
        simple_row(row, u, n),
    ensures
        row.filter(|e: Edge| e.target != v).len() == row.len() - if leads_to(row, v as int) {
            1int
        } else {
            0
        },
    decreases row.len(),
{
    let p = |e: Edge| e.target != v;
    reveal(Seq::filter);
    if row.len() > 0 {
        let rest = row.drop_last();
        assert(forall|k: int| 0 <= k < rest.len() ==> #[trigger] rest[k] == row[k]);
        lemma_drop_target(rest, u, n, v);
        if leads_to(rest, v as int) {
            let k = choose|k: int| 0 <= k < rest.len() && (#[trigger] rest[k]).target == v;
            assert(row[k].target == v);
            assert(row[row.len() - 1].target != v);
        } else if leads_to(row, v as int) {
            let k = choose|k: int| 0 <= k < row.len() && (#[trigger] row[k]).target == v;
            if k < rest.len() {
                assert(rest[k].target == v);
            }
            assert(row[row.len() - 1].target == v);
        } else {
            assert(row[row.len() - 1].target != v);
        }
    }
}

/// In a row without double edges, an edge is faint as soon as the row holds a faint one to the
/// same node.
proof fn lemma_seen_is_edge(g: Rows, floor: Bits, u: int, k: int)
    requires
        simple_graph(g),
        0 <= u < g.len(),
        0 <= k < g[u].len(),
    ensures
        seen_faint(g, floor, u, g[u][k].target as int) == faint(g[u][k].psi_curr, floor),
{
    let row = g[u];
    assert(simple_row(row, u, g.len() as int));
    let v = row[k].target as int;
    if seen_faint(g, floor, u, v) {
        let l = choose|l: int|
            0 <= l < g[u].len() && (#[trigger] g[u][l]).target == v && faint(
                g[u][l].psi_curr,
                floor,
            );
        if l < k {
            assert(row[l].target != row[k].target);
        } else if k < l {
            assert(row[k].target != row[l].target);
        }
    }
    if faint(g[u][k].psi_curr, floor) {
        assert(g[u][k].target == v);
    }
}

/// Which bonds are left when others break.
pub proof fn lemma_decohered_bonds(g: Rows, list: Seq<usize>, floor: Bits)
    requires
        simple_graph(g),
    ensures
        forall|u: int, v: int| #[trigger]
            bonded(decohered(g, list, floor), u, v) <==> bonded(g, u, v) && !breaks(
                g,
                list,
                floor,
                u,
                v,
            ),
        simple_graph(decohered(g, list, floor)),
{
    let h = decohered(g, list, floor);
    assert forall|u: int, v: int| #[trigger] bonded(h, u, v) <==> bonded(g, u, v) && !breaks(
        g,
        list,
        floor,
        u,
        v,
    ) by {
        if 0 <= u < g.len() {
            let p = |e: Edge| !breaks(g, list, floor, u, e.target as int);
            if bonded(h, u, v) {
                let k = choose|k: int| 0 <= k < h[u].len() && (#[trigger] h[u][k]).target == v;
                let o = lemma_filter_origin(g[u], p, k);
                assert(g[u][o].target == v);
            }
            if bonded(g, u, v) && !breaks(g, list, floor, u, v) {
                let k = choose|k: int| 0 <= k < g[u].len() && (#[trigger] g[u][k]).target == v;
                let o = lemma_filter_keeps(g[u], p, k);
                assert(h[u][o].target == v);
            }
        }
    }
    assert forall|u: int| 0 <= u < h.len() implies simple_row(#[trigger] h[u], u, h.len() as int) by {
        let p = |e: Edge| !breaks(g, list, floor, u, e.target as int);
        assert(simple_row(g[u], u, g.len() as int));
        lemma_filter_simple(g[u], p, u, g.len() as int);
    }
    assert forall|u: int, v: int| #[trigger] bonded(h, u, v) implies bonded(h, v, u) by {
        assert(bonded(g, u, v));
        assert(bonded(g, v, u));
    }
}

/// Letting bonds break at the listed nodes and then at one more node is letting them break at all
/// of these.
pub proof fn lemma_decohered_push(g: Rows, list: Seq<usize>, floor: Bits, i: usize)
    requires
        simple_graph(g),
    ensures
        decohered(decohered(g, list, floor), seq![i], floor) == decohered(g, list.push(i), floor),
{
    let h = decohered(g, list, floor);
    let more = list.push(i);
    let one = seq![i];
    lemma_decohered_bonds(g, list, floor);
    assert forall|u: int| listed(more, u) == (listed(list, u) || u == i) by {
        lemma_listed_push(list, i, u);
    }
    assert forall|u: int| listed(one, u) == (u == i) by {
        if u == i {
            assert(one[0] == u);
        }
    }
    // What an end sees of a bond does not change while the bond holds.
    assert forall|u: int, v: int|
        0 <= u < g.len() && 0 <= v < g.len() && !breaks(g, list, floor, u, v) implies #[trigger] seen_faint(
        h,
        floor,
        u,
        v,
    ) == seen_faint(g, floor, u, v) by {
        let p = |e: Edge| !breaks(g, list, floor, u, e.target as int);
        if seen_faint(h, floor, u, v) {
            let k = choose|k: int|
                0 <= k < h[u].len() && (#[trigger] h[u][k]).target == v && faint(
                    h[u][k].psi_curr,
                    floor,
                );
            let o = lemma_filter_origin(g[u], p, k);
            assert(g[u][o].target == v);
        }
        if seen_faint(g, floor, u, v) {
            let k = choose|k: int|
                0 <= k < g[u].len() && (#[trigger] g[u][k]).target == v && faint(
                    g[u][k].psi_curr,
                    floor,
                );
            let o = lemma_filter_keeps(g[u], p, k);
            assert(h[u][o].target == v);
        }
    }
    let left = decohered(h, one, floor);
    let right = decohered(g, more, floor);
    assert forall|u: int| 0 <= u < g.len() implies left[u] == right[u] by {
        let p = |e: Edge| !breaks(g, list, floor, u, e.target as int);
        let q = |e: Edge| !breaks(h, one, floor, u, e.target as int);
        let r = |e: Edge| !breaks(g, more, floor, u, e.target as int);
        lemma_filter_twice(g[u], p, q);
        let both = |e: Edge| p(e) && q(e);
        assert(simple_row(g[u], u, g.len() as int));
        assert forall|k: int| 0 <= k < g[u].len() implies both(#[trigger] g[u][k]) == r(g[u][k]) by {
            let v = g[u][k].target as int;
            assert(0 <= v < g.len());
            assert(breaks(g, list, floor, u, v) == breaks(g, list, floor, v, u));
        }
        lemma_filter_agree(g[u], both, r);
    }
    assert(left =~= right);
}

/// Where no listed node has a bond, none breaks.
pub proof fn lemma_decohered_none(g: Rows, list: Seq<usize>, floor: Bits)
    requires
        simple_graph(g),
        forall|u: int| 0 <= u < g.len() && listed(list, u) ==> (#[trigger] g[u]).len() == 0,
    ensures
        decohered(g, list, floor) == g,
{
    let h = decohered(g, list, floor);
    assert forall|u: int| 0 <= u < g.len() implies h[u] == g[u] by {
        let p = |e: Edge| !breaks(g, list, floor, u, e.target as int);
        assert(simple_row(g[u], u, g.len() as int));
        assert forall|k: int| 0 <= k < g[u].len() implies p(#[trigger] g[u][k]) by {
            let v = g[u][k].target as int;
            assert(bonded(g, u, v));
            assert(bonded(g, v, u));
            assert(g[v].len() > 0);
        }
        lemma_filter_all(g[u], p);
    }
    assert(h =~= g);
}

/// Whether `most` is the largest number of edges at a node, or 1 where no node has more.
pub open spec fn is_max_degree(g: Rows, most: nat) -> bool {
    &&& most >= 1
    &&& forall|u: int| 0 <= u < g.len() ==> (#[trigger] g[u]).len() <= most
    &&& most == 1 || exists|u: int| 0 <= u < g.len() && (#[trigger] g[u]).len() == most
}

/// `row` with the given strengths in place of its own.
pub open spec fn with_strengths(row: Seq<Edge>, psi: Seq<Bits>) -> Seq<Edge> {
    Seq::new(row.len(), |k: int| Edge { psi_curr: psi[k], ..row[k] })
}

/// `row` one step later: the clipped new strengths, and the old ones as those before.
pub open spec fn with_advanced(row: Seq<Edge>, raw: Seq<Bits>) -> Seq<Edge> {
    Seq::new(
        row.len(),
        |k: int| Edge { psi_curr: clipped(raw[k]), psi_prev: row[k].psi_curr, ..row[k] },
    )
}

/// A row that leads to the same nodes in the same order changes nothing about the graph's shape.
pub proof fn lemma_same_targets(g: Rows, u: int, row: Seq<Edge>)
    requires
        simple_graph(g),
        0 <= u < g.len(),
        row.len() == g[u].len(),
        forall|k: int| 0 <= k < row.len() ==> (#[trigger] row[k]).target == g[u][k].target,
    ensures
        simple_graph(g.update(u, row)),
        degree_sum(g.update(u, row)) == degree_sum(g),
        forall|a: int, b: int| #[trigger] bonded(g.update(u, row), a, b) == bonded(g, a, b),
{
    let h = g.update(u, row);
    lemma_degree_sum_update(g, u, row);
    assert forall|a: int, b: int| #[trigger] bonded(h, a, b) == bonded(g, a, b) by {
        if bonded(h, a, b) {
            let k = choose|k: int| 0 <= k < h[a].len() && (#[trigger] h[a][k]).target == b;
            assert(g[a][k].target == b);
        }
        if bonded(g, a, b) {
            let k = choose|k: int| 0 <= k < g[a].len() && (#[trigger] g[a][k]).target == b;
            assert(h[a][k].target == b);
        }
    }
    assert forall|a: int| 0 <= a < h.len() implies simple_row(#[trigger] h[a], a, h.len() as int) by {
        assert(simple_row(g[a], a, g.len() as int));
        assert forall|k: int| 0 <= k < h[a].len() implies (#[trigger] h[a][k]).target
            == g[a][k].target by {}
    }
    assert forall|a: int, b: int| #[trigger] bonded(h, a, b) implies bonded(h, b, a) by {
        assert(bonded(g, a, b));
        assert(bonded(g, b, a));
    }
}

/// The nodes' adjacency list and the number of edges in it.
pub struct Graph {
    adj: Vec<Vec<Edge>>,
    directed_edge_count: usize,
}

impl Graph {
    /// The rows of the adjacency list.
    pub closed spec fn rows(&self) -> Rows {
        rows_of(self.adj@)
    }

    /// The recorded number of edges.
    pub closed spec fn count(&self) -> usize {
        self.directed_edge_count
    }

    /// The rows form a graph, and the recorded number of edges is right: two for each bond.
    pub open spec fn wf(&self) -> bool {
        &&& simple_graph(self.rows())
        &&& self.count() == degree_sum(self.rows())
        &&& self.count() % 2 == 0
    }

    /// The number of nodes.
    pub fn len(&self) -> (n: usize)
        ensures
            n == self.rows().len(),
    {
        self.adj.len()
    }

    /// The number of edges in all rows.
    pub fn directed_edge_count(&self) -> (count: usize)
        ensures
            count == self.count(),
    {
        self.directed_edge_count
    }

    /// The edges of `node`.
    pub fn row(&self, node: usize) -> (row: &Vec<Edge>)
        requires
            node < self.rows().len(),
        ensures
            row@ == self.rows()[node as int],
    {
        &self.adj[node]
    }

    /// Whether `u` holds an edge to `v`.
    pub fn has_bond(&self, u: usize, v: usize) -> (r: bool)
        requires
            u < self.rows().len(),
        ensures
            r == bonded(self.rows(), u as int, v as int),
    {
        let row = &self.adj[u];
        for k in 0..row.len()
            invariant
                row@ == self.rows()[u as int],
                u < self.rows().len(),
                forall|l: int| 0 <= l < k ==> (#[trigger] row@[l]).target != v,
        {
            if row[k].target == v {
                assert(row@[k as int].target == v);
                return true;
            }
        }
        false
    }

    /// Bonds `u` and `v`, which had no bond.
    pub fn add_bond(&mut self, u: usize, v: usize, psi_init: Bits, geom_weight: Bits)
        requires
            old(self).wf(),
            acceptable(old(self).rows(), (u, v, geom_weight)),
            old(self).count() + 2 <= usize::MAX,
        ensures
            final(self).wf(),
            final(self).rows() == with_bond(old(self).rows(), u, v, psi_init, geom_weight),
            final(self).count() == old(self).count() + 2,
    {
        proof {
            lemma_with_bond(self.rows(), u, v, psi_init, geom_weight);
        }
        let ghost before = self.adj@;
        self.adj[u].push(
            Edge { target: v, psi_curr: psi_init, psi_prev: psi_init, geom_weight },
        );
        self.adj[v].push(
            Edge { target: u, psi_curr: psi_init, psi_prev: psi_init, geom_weight },
        );
        self.directed_edge_count += 2;
        assert(self.rows() =~= with_bond(rows_of(before), u, v, psi_init, geom_weight));
    }

    /// The graph of `n` nodes with the listed bonds.
    pub fn new(n: usize, edges: &[(usize, usize, Bits)]) -> (graph: Self)
        requires
            2 * edges@.len() <= usize::MAX,
        ensures
            graph.wf(),
            graph.rows() == wired(n as nat, edges@),
    {
        let mut adj: Vec<Vec<Edge>> = Vec::new();
        for i in 0..n
            invariant
                adj@.len() == i,
                forall|u: int| 0 <= u < i ==> (#[trigger] adj@[u])@ == Seq::<Edge>::empty(),
        {
            adj.push(Vec::new());
        }
        let mut graph = Graph { adj, directed_edge_count: 0 };
        proof {
            lemma_degree_sum_empty(n as nat);
            assert(graph.rows() =~= wired(n as nat, edges@.take(0)));
        }
        for k in 0..edges.len()
            invariant
                graph.wf(),
                graph.rows().len() == n,
                graph.rows() == wired(n as nat, edges@.take(k as int)),
                graph.count() <= 2 * k,
                2 * edges@.len() <= usize::MAX,
        {
            let (u, v, geom) = edges[k];
            assert(edges@.take(k + 1).drop_last() =~= edges@.take(k as int));
            if u < n && v < n && u != v && !graph.has_bond(u, v) {
                graph.add_bond(u, v, HALF, geom);
            }
        }
        assert(edges@.take(edges@.len() as int) =~= edges@);
        graph
    }

    /// The largest number of edges at a node, but at least 1.
    pub fn max_degree(&self) -> (most: usize)
        ensures
            is_max_degree(self.rows(), most as nat),
    {
        let mut most: usize = 1;
        for u in 0..self.adj.len()
            invariant
                most >= 1,
                forall|v: int| 0 <= v < u ==> (#[trigger] self.rows()[v]).len() <= most,
                most == 1 || exists|v: int| 0 <= v < u && (#[trigger] self.rows()[v]).len() == most,
        {
            let degree = self.adj[u].len();
            assert(self.rows()[u as int].len() == degree);
            if degree > most {
                most = degree;
            }
        }
        most
    }

    /// Gives each edge of `node` a new strength, without touching the one before it.
    pub fn set_strengths(&mut self, node: usize, psi: &[Bits])
        requires
            old(self).wf(),
            node < old(self).rows().len(),
            psi@.len() == old(self).rows()[node as int].len(),
        ensures
            final(self).wf(),
            final(self).rows() == old(self).rows().update(
                node as int,
                with_strengths(old(self).rows()[node as int], psi@),
            ),
            final(self).count() == old(self).count(),
    {
        let ghost g = self.rows();
        let ghost row = g[node as int];
        let degree = self.adj[node].len();
        for k in 0..degree
            invariant
                node < g.len(),
                row == g[node as int],
                degree == row.len(),
                psi@.len() == row.len(),
                self.rows().len() == g.len(),
                self.directed_edge_count == old(self).count(),
                forall|u: int| 0 <= u < g.len() && u != node ==> #[trigger] self.rows()[u] == g[u],
                self.rows()[node as int].len() == row.len(),
                forall|l: int|
                    0 <= l < row.len() ==> #[trigger] self.rows()[node as int][l] == if l < k {
                        with_strengths(row, psi@)[l]
                    } else {
                        row[l]
                    },
        {
            let ghost before = self.adj@;
            self.adj[node][k].psi_curr = psi[k];
            assert(self.rows() =~= rows_of(before).update(node as int, self.adj@[node as int]@));
        }
        proof {
            assert(self.rows()[node as int] =~= with_strengths(row, psi@));
            assert(self.rows() =~= g.update(node as int, with_strengths(row, psi@)));
            lemma_same_targets(g, node as int, with_strengths(row, psi@));
        }
    }

    /// Moves each edge of `node` on to the clipped new strength and keeps the one that it had.
    pub fn advance_strengths(&mut self, node: usize, raw: &[Bits])
        requires
            old(self).wf(),
            node < old(self).rows().len(),
            raw@.len() == old(self).rows()[node as int].len(),
        ensures
            final(self).wf(),
            final(self).rows() == old(self).rows().update(
                node as int,
                with_advanced(old(self).rows()[node as int], raw@),
            ),
            final(self).count() == old(self).count(),
    {
        let ghost g = self.rows();
        let ghost row = g[node as int];
        let mut next: Vec<Edge> = Vec::new();
        let edges = &self.adj[node];
        for k in 0..edges.len()
            invariant
                edges@ == row,
                raw@.len() == row.len(),
                next@ == with_advanced(row, raw@).take(k as int),
        {
            let edge = edges[k];
            next.push(
                Edge {
                    target: edge.target,
                    psi_curr: clip01(raw[k]),
                    psi_prev: edge.psi_curr,
                    geom_weight: edge.geom_weight,
                },
            );
        }
        let ghost next_row = next@;
        self.adj[node] = next;
        proof {
            assert(next_row =~= with_advanced(row, raw@));
            assert(self.rows() =~= g.update(node as int, next_row));
            lemma_same_targets(g, node as int, next_row);
        }
    }

    /// Moves the row of each listed node one step on.
    pub fn advance_all(&mut self, list: &[usize], raw: &[Vec<Bits>])
        requires
            old(self).wf(),
            ascending(list@),
            fits_rows(old(self).rows(), list@, raw@),
        ensures
            final(self).wf(),
            final(self).rows() == all_advanced(old(self).rows(), list@, raw@),
            final(self).count() == old(self).count(),
            forall|u: int, v: int| #[trigger]
                bonded(final(self).rows(), u, v) == bonded(old(self).rows(), u, v),
    {
        let ghost g = self.rows();
        for k in 0..list.len()
            invariant
                self.wf(),
                ascending(list@),
                fits_rows(g, list@, raw@),
                self.rows().len() == g.len(),
                self.count() == old(self).count(),
                forall|u: int|
                    0 <= u < g.len() ==> #[trigger] self.rows()[u] == if listed(
                        list@.take(k as int),
                        u,
                    ) {
                        with_advanced(g[u], raw@[place_of(list@, u)]@)
                    } else {
                        g[u]
                    },
                forall|u: int, v: int| #[trigger] bonded(self.rows(), u, v) == bonded(g, u, v),
        {
            let i = list[k];
            let ghost before = self.rows();
            proof {
                lemma_place_of(list@, k as int);
                lemma_listed_take(list@, k as int);
                assert(!listed(list@.take(k as int), i as int));
                lemma_same_targets(
                    before,
                    i as int,
                    with_advanced(before[i as int], raw@[k as int]@),
                );
            }
            self.advance_strengths(i, raw[k].as_slice());
        }
        assert(list@.take(list@.len() as int) =~= list@);
        assert(self.rows() =~= all_advanced(g, list@, raw@));
    }

    /// Asks for the listed bonds in turn, and says how many were new.
    pub fn grow(&mut self, pairs: &[(usize, usize)], geom: Bits) -> (instantiated: usize)
        requires
            old(self).wf(),
            forall|k: int| 0 <= k < pairs@.len() ==> (#[trigger] pairs@[k]).0 != pairs@[k].1,
            old(self).count() + 2 * pairs@.len() <= usize::MAX,
        ensures
            final(self).wf(),
            final(self).rows() == grown(old(self).rows(), pairs@, geom),
            final(self).rows().len() == old(self).rows().len(),
            final(self).count() == old(self).count() + 2 * instantiated,
            instantiated <= pairs@.len(),
    {
        let ghost g = self.rows();
        let n = self.adj.len();
        let mut instantiated: usize = 0;
        assert(pairs@.take(0) =~= Seq::empty());
        for k in 0..pairs.len()
            invariant
                self.wf(),
                n == self.rows().len(),
                forall|k: int| 0 <= k < pairs@.len() ==> (#[trigger] pairs@[k]).0 != pairs@[k].1,
                old(self).count() + 2 * pairs@.len() <= usize::MAX,
                self.rows() == grown(g, pairs@.take(k as int), geom),
                self.count() == old(self).count() + 2 * instantiated,
                instantiated <= k,
        {
            let (u, v) = pairs[k];
            assert(pairs@.take(k + 1).drop_last() =~= pairs@.take(k as int));
            if u < n && v < n && !self.has_bond(u, v) {
                self.add_bond(u, v, ZERO, geom);
                instantiated += 1;
            }
        }
        assert(pairs@.take(pairs@.len() as int) =~= pairs@);
        instantiated
    }

    /// Lets the bonds break that `i` sees below `floor`, and says how many these were.
    fn decohere_node(&mut self, i: usize, floor: Bits) -> (removed: usize)
        requires
            old(self).wf(),
            i < old(self).rows().len(),
        ensures
            final(self).wf(),
            final(self).rows() == decohered(old(self).rows(), seq![i], floor),
            final(self).count() + 2 * removed == old(self).count(),
    {
        let ghost g = self.rows();
        let mut alive: Vec<Edge> = Vec::new();
        let mut dead: Vec<usize> = Vec::new();
        let row = &self.adj[i];
        let ghost strong = |e: Edge| !faint(e.psi_curr, floor);
        assert(simple_row(g[i as int], i as int, g.len() as int));
        for k in 0..row.len()
            invariant
                row@ == g[i as int],
                i < g.len(),
                simple_row(row@, i as int, g.len() as int),
                strong == (|e: Edge| !faint(e.psi_curr, floor)),
                alive@ == row@.take(k as int).filter(strong),
                alive@.len() + dead@.len() == k,
                forall|d: int|
                    0 <= d < dead@.len() ==> faint_among(
                        row@,
                        k as int,
                        floor,
                        #[trigger] dead@[d] as int,
                    ),
                forall|l: int|
                    0 <= l < k && faint((#[trigger] row@[l]).psi_curr, floor) ==> listed(
                        dead@,
                        row@[l].target as int,
                    ),
                forall|d: int, f: int|
                    0 <= d < f < dead@.len() ==> (#[trigger] dead@[d]) != (#[trigger] dead@[f]),
        {
            reveal(Seq::filter);
            assert(row@.take(k + 1).drop_last() =~= row@.take(k as int));
            let edge = row[k];
            let ghost dead_before = dead@;
            assert forall|v: int| faint_among(row@, k as int, floor, v) implies faint_among(
                row@,
                k + 1,
                floor,
                v,
            ) by {
                let l = choose|l: int|
                    0 <= l < k && (#[trigger] row@[l]).target == v && faint(row@[l].psi_curr, floor);
                assert(row@[l].target == v);
            }
            if at_most(floor, edge.psi_curr) {
                alive.push(edge);
            } else {
                dead.push(edge.target);
                assert(dead@[dead_before.len() as int] == row@[k as int].target);
            }
            assert forall|l: int|
                0 <= l < k + 1 && faint((#[trigger] row@[l]).psi_curr, floor) implies listed(
                dead@,
                row@[l].target as int,
            ) by {
                if l < k {
                    let d = choose|d: int|
                        0 <= d < dead_before.len() && #[trigger] dead_before[d] == row@[l].target;
                    assert(dead@[d] == row@[l].target);
                }
            }
        }
        proof {
            assert(row@.take(row@.len() as int) =~= row@);
        }
        let dead_count = dead.len();
        self.adj[i] = alive;
        let ghost cut_row = alive@;
        let ghost others = |e: Edge| e.target != i;
        proof {
            lemma_degree_sum_update(g, i as int, cut_row);
            assert(self.rows() =~= g.update(i as int, cut_row));
        }
        for t in 0..dead_count
            invariant
                simple_graph(g),
                i < g.len(),
                self.rows().len() == g.len(),
                dead@.len() == dead_count,
                others == (|e: Edge| e.target != i),
                forall|d: int| 0 <= d < dead@.len() ==> bonded(g, i as int, #[trigger] dead@[d] as int),
                forall|d: int, f: int|
                    0 <= d < f < dead@.len() ==> (#[trigger] dead@[d]) != (#[trigger] dead@[f]),
                self.rows()[i as int] == cut_row,
                forall|u: int|
                    0 <= u < g.len() && u != i ==> #[trigger] self.rows()[u] == if listed(
                        dead@.take(t as int),
                        u,
                    ) {
                        g[u].filter(others)
                    } else {
                        g[u]
                    },
                self.directed_edge_count == degree_sum(self.rows()) + (dead_count - t),
                self.directed_edge_count + 2 * t == old(self).count(),
        {
            let j = dead[t];
            let ghost before = self.rows();
            assert(bonded(g, j as int, i as int)) by {
                assert(bonded(g, i as int, j as int));
            }
            assert(simple_row(g[j as int], j as int, g.len() as int));
            assert(j != i) by {
                assert(simple_row(g[i as int], i as int, g.len() as int));
            }
            assert(!listed(dead@.take(t as int), j as int));
            let mirror = &self.adj[j];
            assert(mirror@ == self.rows()[j as int]);
            let mut kept: Vec<Edge> = Vec::new();
            for k in 0..mirror.len()
                invariant
                    others == (|e: Edge| e.target != i),
                    kept@ == mirror@.take(k as int).filter(others),
            {
                reveal(Seq::filter);
                assert(mirror@.take(k + 1).drop_last() =~= mirror@.take(k as int));
                let edge = mirror[k];
                if edge.target != i {
                    kept.push(edge);
                }
            }
            let ghost kept_row = kept@;
            let before_len = mirror.len();
            let kept_len = kept.len();
            proof {
                assert(mirror@.take(mirror@.len() as int) =~= mirror@);
                lemma_drop_target(g[j as int], j as int, g.len() as int, i);
                lemma_degree_sum_update(before, j as int, kept_row);
                lemma_row_at_most_sum(before, j as int);
            }
            let removed_mirror = before_len - kept_len;
            self.adj[j] = kept;
            self.directed_edge_count = self.directed_edge_count.saturating_sub(1 + removed_mirror);
            proof {
                assert(self.rows() =~= before.update(j as int, kept_row));
                lemma_listed_take(dead@, t as int);
            }
        }
        proof {
            assert(dead@.take(dead_count as int) =~= dead@);
            let one = seq![i];
            let h = decohered(g, one, floor);
            assert forall|u: int| listed(one, u) == (u == i) by {
                if u == i {
                    assert(one[0] == u);
                }
            }
            assert forall|u: int| 0 <= u < g.len() implies #[trigger] self.rows()[u] == h[u] by {
                let p = |e: Edge| !breaks(g, one, floor, u, e.target as int);
                let own = g[u];
                assert(simple_row(own, u, g.len() as int));
                if u == i {
                    assert forall|k: int| 0 <= k < own.len() implies strong(#[trigger] own[k]) == p(
                        own[k],
                    ) by {
                        lemma_seen_is_edge(g, floor, u, k);
                    }
                    lemma_filter_agree(own, strong, p);
                } else {
                    assert(listed(dead@, u) == seen_faint(g, floor, i as int, u)) by {
                        if listed(dead@, u) {
                            let d = choose|d: int| 0 <= d < dead@.len() && #[trigger] dead@[d] == u;
                            let l = choose|l: int|
                                0 <= l < g[i as int].len() && (#[trigger] g[i as int][l]).target
                                    == dead@[d] && faint(g[i as int][l].psi_curr, floor);
                            assert(g[i as int][l].target == u);
                        }
                        if seen_faint(g, floor, i as int, u) {
                            let l = choose|l: int|
                                0 <= l < g[i as int].len() && (#[trigger] g[i as int][l]).target
                                    == u && faint(g[i as int][l].psi_curr, floor);
                            assert(listed(dead@, g[i as int][l].target as int));
                        }
                    }
                    if listed(dead@, u) {
                        lemma_filter_agree(own, others, p);
                    } else {
                        assert forall|k: int| 0 <= k < own.len() implies p(#[trigger] own[k]) by {}
                        lemma_filter_all(own, p);
                    }
                }
            }
            assert(self.rows() =~= h);
            lemma_decohered_bonds(g, one, floor);
        }
        dead_count
    }

    /// Lets the bonds break that a listed node sees below `floor`, and says how many these were.
    pub fn decohere(&mut self, list: &[usize], floor: Bits) -> (removed: usize)
        requires
            old(self).wf(),
        ensures
            final(self).wf(),
            final(self).rows() == decohered(old(self).rows(), list@, floor),
            final(self).count() + 2 * removed == old(self).count(),
    {
        let ghost g = self.rows();
        let mut removed: usize = 0;
        proof {
            lemma_decohered_none(g, list@.take(0), floor);
        }
        for k in 0..list.len()
            invariant
                self.wf(),
                g == old(self).rows(),
                simple_graph(g),
                self.rows() == decohered(g, list@.take(k as int), floor),
                self.count() + 2 * removed == old(self).count(),
        {
            let i = list[k];
            proof {
                lemma_decohered_push(g, list@.take(k as int), floor, i);
                assert(list@.take(k as int).push(i) =~= list@.take(k + 1));
            }
            if i >= self.adj.len() || self.adj[i].is_empty() {
                proof {
                    lemma_decohered_none(self.rows(), seq![i], floor);
                }
            } else {
                removed += self.decohere_node(i, floor);
            }
        }
        assert(list@.take(list@.len() as int) =~= list@);
        removed
    }
}

} // verus!
