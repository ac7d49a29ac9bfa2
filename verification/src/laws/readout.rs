//! What callers of the interface hand in and get back.

use crate::api::{edges_at, held, named_edges};
use crate::binary64::{Bits, HALF};
use crate::connectome::{NativeConnectome, State};
use crate::graph::{bonded, fresh_edge, simple_graph, wired, Edge};
use crate::laws::bonds::{holds_new, joins, law_first_listing_counts, law_new_graph};
use crate::laws::numbers::law_copies_are_prefixes;
use vstd::prelude::*;

verus! {

/// A caller holds the state of the connectome that they have, or none.
pub proof fn law_held(conn: Option<&NativeConnectome>)
    ensures
        conn matches Some(c) ==> held(conn) == Some(c@),
        conn is None ==> held(conn) is None,
{
}

/// The edges that are read of a node are those that stand in its row, from the first on, as many as
/// there is room for. Without a connectome, or of what is no node, there are none.
pub proof fn law_edges_read(s: State, node: usize, cap: usize)
    ensures
        edges_at(None, node, cap).len() == 0,
        node >= s.rows.len() ==> edges_at(Some(s), node, cap).len() == 0,
        node < s.rows.len() ==> {
            let row = s.rows[node as int];
            let out = edges_at(Some(s), node, cap);
            &&& out.len() == if row.len() < cap { row.len() } else { cap as nat }
            &&& forall|k: int|
                0 <= k < row.len() && k < cap ==> {
                    &&& (#[trigger] out[k]).target == row[k].target
                    &&& out[k].psi_curr == row[k].psi_curr
                    &&& out[k].psi_prev == row[k].psi_prev
                    &&& out[k].geom_weight == row[k].geom_weight
                }
        },
{
    if node < s.rows.len() {
        law_copies_are_prefixes(s.rows[node as int], cap);
    }
}

/// One more entry counts where it names no negative node, and then stands behind the others.
pub proof fn law_one_more_named(us: Seq<i32>, vs: Seq<i32>, geoms: Seq<Bits>, k: nat)
    ensures
        named_edges(us, vs, geoms, 0).len() == 0,
        us[k as int] >= 0 && vs[k as int] >= 0 ==> {
            let (more, before) = (
                named_edges(us, vs, geoms, k + 1),
                named_edges(us, vs, geoms, k),
            );
            &&& more.len() == before.len() + 1
            &&& forall|j: int| 0 <= j < before.len() ==> #[trigger] more[j] == before[j]
            &&& more.last().0 == us[k as int]
            &&& more.last().1 == vs[k as int]
            &&& more.last().2 == geoms[k as int]
        },
        us[k as int] < 0 || vs[k as int] < 0 ==> named_edges(us, vs, geoms, k + 1) == named_edges(
            us,
            vs,
            geoms,
            k,
        ),
{
}

/// Every edge that is named comes from an entry.
proof fn lemma_named_origin(us: Seq<i32>, vs: Seq<i32>, geoms: Seq<Bits>, k: nat, p: int) -> (l: int)
    requires
        0 <= p < named_edges(us, vs, geoms, k).len(),
    ensures
        0 <= l < k,
        us[l] >= 0,
        vs[l] >= 0,
        named_edges(us, vs, geoms, k)[p] == (us[l] as usize, vs[l] as usize, geoms[l]),
    decreases k,
{
    let last = (k - 1) as nat;
    law_one_more_named(us, vs, geoms, last);
    if p < named_edges(us, vs, geoms, last).len() {
        lemma_named_origin(us, vs, geoms, last, p)
    } else {
        last as int
    }
}

/// Every entry without a negative node is named, and is the first to name its bond where no entry
/// before it names that.
proof fn lemma_named_place(us: Seq<i32>, vs: Seq<i32>, geoms: Seq<Bits>, k: nat, l: int) -> (p: int)
    requires
        0 <= l < k,
        us[l] >= 0,
        vs[l] >= 0,
    ensures
        0 <= p < named_edges(us, vs, geoms, k).len(),
        named_edges(us, vs, geoms, k)[p] == (us[l] as usize, vs[l] as usize, geoms[l]),
        (forall|j: int|
            0 <= j < l ==> !((#[trigger] us[j] == us[l] && vs[j] == vs[l]) || (us[j] == vs[l] && vs[j]
                == us[l])))
            ==> forall|q: int|
            0 <= q < p ==> !joins(
                #[trigger] named_edges(us, vs, geoms, k)[q],
                us[l] as int,
                vs[l] as int,
            ),
    decreases k,
{
    let last = (k - 1) as nat;
    law_one_more_named(us, vs, geoms, last);
    let edges = named_edges(us, vs, geoms, k);
    let before = named_edges(us, vs, geoms, last);
    if l < last {
        let p = lemma_named_place(us, vs, geoms, last, l);
        if forall|j: int|
            0 <= j < l ==> !((#[trigger] us[j] == us[l] && vs[j] == vs[l]) || (us[j] == vs[l] && vs[j]
                == us[l])) {
            assert forall|q: int| 0 <= q < p implies !joins(
                #[trigger] edges[q],
                us[l] as int,
                vs[l] as int,
            ) by {
                assert(edges[q] == before[q]);
            }
        }
        p
    } else {
        if forall|j: int|
            0 <= j < l ==> !((#[trigger] us[j] == us[l] && vs[j] == vs[l]) || (us[j] == vs[l] && vs[j]
                == us[l])) {
            assert forall|q: int| 0 <= q < before.len() implies !joins(
                #[trigger] edges[q],
                us[l] as int,
                vs[l] as int,
            ) by {
                let j = lemma_named_origin(us, vs, geoms, last, q);
                assert(us[j] == us[j]);
            }
        }
        before.len() as int
    }
}

/// A new connectome bonds just those nodes that an entry names, as far as they are two different
/// nodes. The first entry for a bond gives it its weight; both its ends start with half strength.
pub proof fn law_new_bonds_by_entries(n: nat, us: Seq<i32>, vs: Seq<i32>, geoms: Seq<Bits>)
    requires
        us.len() == vs.len(),
        us.len() == geoms.len(),
    ensures
        ({
            let g = wired(n, named_edges(us, vs, geoms, us.len()));
            &&& g.len() == n
            &&& simple_graph(g)
            &&& forall|a: int, b: int| #[trigger]
                bonded(g, a, b) <==> 0 <= a < n && 0 <= b < n && a != b && exists|k: int|
                    0 <= k < us.len() && ((#[trigger] us[k] == a && vs[k] == b) || (us[k] == b && vs[k] == a))
            &&& forall|k: int|
                #![trigger geoms[k]]
                0 <= k < us.len() && 0 <= us[k] < n && 0 <= vs[k] < n && us[k] != vs[k] && (forall|
                    j: int,
                |
                    0 <= j < k ==> !((#[trigger] us[j] == us[k] && vs[j] == vs[k]) || (us[j]
                        == vs[k] && vs[j] == us[k]))) ==> {
                    &&& holds_new(g[us[k] as int], vs[k] as usize, geoms[k])
                    &&& holds_new(g[vs[k] as int], us[k] as usize, geoms[k])
                }
        }),
{
    let m = us.len();
    let edges = named_edges(us, vs, geoms, m);
    let g = wired(n, edges);
    law_new_graph(n, edges);
    assert forall|a: int, b: int| #[trigger] bonded(g, a, b) <==> 0 <= a < n && 0 <= b < n && a != b
        && exists|k: int| 0 <= k < us.len() && ((#[trigger] us[k] == a && vs[k] == b) || (us[k] == b && vs[k] == a)) by {
        if bonded(g, a, b) {
            let p = choose|p: int| 0 <= p < edges.len() && joins(#[trigger] edges[p], a, b);
            let l = lemma_named_origin(us, vs, geoms, m, p);
            assert(us[l] == a || us[l] == b);
        }
        if 0 <= a < n && 0 <= b < n && a != b && exists|k: int|
            0 <= k < us.len() && ((#[trigger] us[k] == a && vs[k] == b) || (us[k] == b && vs[k] == a)) {
            let k = choose|k: int| 0 <= k < us.len() && ((#[trigger] us[k] == a && vs[k] == b) || (us[k] == b && vs[k] == a));
            let p = lemma_named_place(us, vs, geoms, m, k);
            assert(joins(edges[p], a, b));
        }
    }
    assert forall|k: int|
        #![trigger geoms[k]]
        0 <= k < us.len() && 0 <= us[k] < n && 0 <= vs[k] < n && us[k] != vs[k] && (forall|j: int|
            0 <= j < k ==> !((#[trigger] us[j] == us[k] && vs[j] == vs[k]) || (us[j] == vs[k] && vs[j]
                == us[k]))) implies {
        &&& holds_new(g[us[k] as int], vs[k] as usize, geoms[k])
        &&& holds_new(g[vs[k] as int], us[k] as usize, geoms[k])
    } by {
        let p = lemma_named_place(us, vs, geoms, m, k);
        law_first_listing_counts(n, edges, p);
    }
}

/// A row holds a new edge where one of its edges leads to `target` with half strength, now and
/// before, and the weight `geom`.
pub proof fn law_holds_new(row: Seq<Edge>, target: usize, geom: Bits)
    ensures
        holds_new(row, target, geom) <==> exists|k: int|
            0 <= k < row.len() && (#[trigger] row[k]).target == target && row[k].psi_curr == HALF
                && row[k].psi_prev == HALF && row[k].geom_weight == geom,
{
    if exists|k: int|
        0 <= k < row.len() && (#[trigger] row[k]).target == target && row[k].psi_curr == HALF
            && row[k].psi_prev == HALF && row[k].geom_weight == geom {
        let k = choose|k: int|
            0 <= k < row.len() && (#[trigger] row[k]).target == target && row[k].psi_curr == HALF
                && row[k].psi_prev == HALF && row[k].geom_weight == geom;
        assert(row[k] == fresh_edge(target, HALF, geom));
    }
    if holds_new(row, target, geom) {
        let k = choose|k: int|
            0 <= k < row.len() && #[trigger] row[k] == fresh_edge(
                target,
                HALF,
                geom,
            );
        assert(row[k].target == target);
    }
}

} // verus!
