//! The connectome as callers see it that may hold none.
//!
//! A call without a connectome answers with an error code, with 0 or with nothing. Copies are cut
//! off at the capacity that the caller gives.

use crate::binary64::{Bits, ZERO};
use crate::connectome::step::StepStart;
use crate::connectome::{pairs_len, stimulated, NativeConnectome, State};
use crate::graph::{wired, Edge, Graph};
use crate::members::{ascending_members, sorted};
use std::collections::BTreeSet;
use vstd::prelude::*;

verus! {

/// The edges of a node, column by column.
pub struct AdjCopy {
    pub targets: Vec<i32>,
    pub psi_curr: Vec<Bits>,
    pub psi_prev: Vec<Bits>,
    pub geom: Vec<Bits>,
}

/// What a caller holds: the state of a connectome, if there is one.
pub open spec fn held(conn: Option<&NativeConnectome>) -> Option<State> {
    match conn {
        Some(c) => Some(c@),
        None => None,
    }
}

/// The first `cap` values of `s`, or all.
pub open spec fn cut<A>(s: Seq<A>, cap: usize) -> Seq<A> {
    if s.len() < cap {
        s
    } else {
        s.take(cap as int)
    }
}

/// The first `k` of the listed bonds, without those that name a negative node.
pub open spec fn named_edges(us: Seq<i32>, vs: Seq<i32>, geoms: Seq<Bits>, k: nat) -> Seq<
    (usize, usize, Bits),
>
    decreases k,
{
    if k == 0 {
        Seq::empty()
    } else {
        let last = (k - 1) as nat;
        let before = named_edges(us, vs, geoms, last);
        let (u, v) = (us[last as int], vs[last as int]);
        if u >= 0 && v >= 0 {
            before.push((u as usize, v as usize, geoms[last as int]))
        } else {
            before
        }
    }
}

/// The bonds of a new connectome of `n` nodes; none for no nodes. A listed bond with a negative
/// node is left out.
pub fn vdm_connectome_new(n: usize, us: &[i32], vs: &[i32], geoms: &[Bits]) -> (graph: Option<
    Graph,
>)
    requires
        us@.len() == vs@.len(),
        us@.len() == geoms@.len(),
        2 * us@.len() <= usize::MAX,
    ensures
        graph is None <==> n == 0,
        graph matches Some(g) ==> g.wf() && g.rows() == wired(
            n as nat,
            named_edges(us@, vs@, geoms@, us@.len()),
        ),
{
    if n == 0 {
        return None;
    }
    let mut edges: Vec<(usize, usize, Bits)> = Vec::new();
    for k in 0..us.len()
        invariant
            us@.len() == vs@.len(),
            us@.len() == geoms@.len(),
            edges@ == named_edges(us@, vs@, geoms@, k as nat),
            edges@.len() <= k,
    {
        if us[k] >= 0 && vs[k] >= 0 {
            edges.push((us[k] as usize, vs[k] as usize, geoms[k]));
        }
    }
    Some(Graph::new(n, edges.as_slice()))
}

/// Drives the listed nodes; -1 without a connectome, else 0.
pub fn vdm_connectome_stimulate(
    conn: Option<&mut NativeConnectome>,
    indices: &[i32],
    amplitudes: &[Bits],
) -> (code: i32)
    requires
        conn matches Some(c) ==> c.wf(),
    ensures
        conn is None ==> code == -1,
        conn matches Some(c) ==> code == 0 && final(c).wf() && final(c)@ == stimulated(
            c@,
            indices@,
            amplitudes@,
            pairs_len(indices@, amplitudes@),
        ),
{
    match conn {
        None => -1,
        Some(c) => {
            c.stimulate(indices, amplitudes);
            0
        },
    }
}

/// Begins the step at `tick`; without a connectome, or where nobody takes the report, there is none.
pub fn vdm_connectome_step(
    conn: Option<&mut NativeConnectome>,
    tick: i32,
    has_report: bool,
) -> (start: Option<StepStart>)
    requires
        conn matches Some(c) ==> c.wf(),
    ensures
        start is None <==> conn is None || !has_report,
        conn matches Some(c) ==> final(c).wf() && final(c)@ == if has_report {
            State { tick, ..c@ }
        } else {
            c@
        },
        conn matches Some(c) ==> (start matches Some(from) ==> from.opens(c@)),
{
    match conn {
        None => None,
        Some(c) => {
            if has_report {
                Some(c.begin_step(tick))
            } else {
                None
            }
        },
    }
}

/// The first `cap` values of `src`, or all.
pub fn copy_f64_slice(src: &[Bits], cap: usize) -> (out: Vec<Bits>)
    ensures
        out@ == cut(src@, cap),
{
    let n = if src.len() < cap { src.len() } else { cap };
    let mut out: Vec<Bits> = Vec::new();
    for k in 0..n
        invariant
            n <= src@.len(),
            out@ == src@.take(k as int),
    {
        out.push(src[k]);
    }
    assert(src@.take(src@.len() as int) =~= src@);
    out
}

/// The field.
pub fn vdm_connectome_copy_phi_curr(conn: Option<&NativeConnectome>, cap: usize) -> (out: Vec<Bits>)
    ensures
        out@ == match held(conn) {
            Some(s) => cut(s.phi_curr, cap),
            None => Seq::empty(),
        },
{
    match conn {
        Some(c) => copy_f64_slice(c.phi_curr().as_slice(), cap),
        None => Vec::new(),
    }
}

/// The field one step before.
pub fn vdm_connectome_copy_phi_prev(conn: Option<&NativeConnectome>, cap: usize) -> (out: Vec<Bits>)
    ensures
        out@ == match held(conn) {
            Some(s) => cut(s.phi_prev, cap),
            None => Seq::empty(),
        },
{
    match conn {
        Some(c) => copy_f64_slice(c.phi_prev().as_slice(), cap),
        None => Vec::new(),
    }
}

/// The change of the field in the last step.
pub fn vdm_connectome_copy_phi_dot(conn: Option<&NativeConnectome>, cap: usize) -> (out: Vec<Bits>)
    ensures
        out@ == match held(conn) {
            Some(s) => cut(s.phi_dot, cap),
            None => Seq::empty(),
        },
{
    match conn {
        Some(c) => copy_f64_slice(c.phi_dot().as_slice(), cap),
        None => Vec::new(),
    }
}

/// The debts.
pub fn vdm_connectome_copy_debt(conn: Option<&NativeConnectome>, cap: usize) -> (out: Vec<Bits>)
    ensures
        out@ == match held(conn) {
            Some(s) => cut(s.debt, cap),
            None => Seq::empty(),
        },
{
    match conn {
        Some(c) => copy_f64_slice(c.debt().as_slice(), cap),
        None => Vec::new(),
    }
}

/// The tick at which each node was last visited, or -1.
pub fn vdm_connectome_copy_last_visit(conn: Option<&NativeConnectome>, cap: usize) -> (out: Vec<i32>)
    ensures
        out@ == match held(conn) {
            Some(s) => cut(s.last_visit, cap),
            None => Seq::empty(),
        },
{
    let mut out: Vec<i32> = Vec::new();
    if let Some(c) = conn {
        let src = c.last_visit();
        let n = if src.len() < cap { src.len() } else { cap };
        for k in 0..n
            invariant
                n <= src@.len(),
                out@ == src@.take(k as int),
        {
            out.push(src[k]);
        }
        assert(src@.take(src@.len() as int) =~= src@);
    }
    out
}

/// The number of bonds at `node`; 0 for what is no node.
pub fn vdm_connectome_node_degree(conn: Option<&NativeConnectome>, node: usize) -> (degree: usize)
    ensures
        degree == match held(conn) {
            Some(s) => if node < s.n() {
                s.rows[node as int].len()
            } else {
                0
            },
            None => 0,
        },
{
    match conn {
        Some(c) => {
            if node >= c.len() {
                0
            } else {
                c.graph().row(node).len()
            }
        },
        None => 0,
    }
}

/// The edges of `node`, or none where there is no such node.
pub open spec fn edges_at(conn: Option<State>, node: usize, cap: usize) -> Seq<Edge> {
    match conn {
        Some(s) => if node < s.n() {
            cut(s.rows[node as int], cap)
        } else {
            Seq::empty()
        },
        None => Seq::empty(),
    }
}

/// The bonds at `node`. A node's number that does not fit is cut to its low bits.
pub fn vdm_connectome_copy_adj(conn: Option<&NativeConnectome>, node: usize, cap: usize) -> (out:
    AdjCopy)
    ensures
        out.targets@ == edges_at(held(conn), node, cap).map_values(|e: Edge| e.target as i32),
        out.psi_curr@ == edges_at(held(conn), node, cap).map_values(|e: Edge| e.psi_curr),
        out.psi_prev@ == edges_at(held(conn), node, cap).map_values(|e: Edge| e.psi_prev),
        out.geom@ == edges_at(held(conn), node, cap).map_values(|e: Edge| e.geom_weight),
{
    let mut targets: Vec<i32> = Vec::new();
    let mut psi_curr: Vec<Bits> = Vec::new();
    let mut psi_prev: Vec<Bits> = Vec::new();
    let mut geom: Vec<Bits> = Vec::new();
    let ghost edges = edges_at(held(conn), node, cap);
    if let Some(c) = conn {
        if node < c.len() {
            let row = c.graph().row(node);
            let n = if row.len() < cap { row.len() } else { cap };
            assert(edges =~= row@.take(n as int));
            for k in 0..n
                invariant
                    n <= row@.len(),
                    edges == row@.take(n as int),
                    targets@ == edges.take(k as int).map_values(|e: Edge| e.target as i32),
                    psi_curr@ == edges.take(k as int).map_values(|e: Edge| e.psi_curr),
                    psi_prev@ == edges.take(k as int).map_values(|e: Edge| e.psi_prev),
                    geom@ == edges.take(k as int).map_values(|e: Edge| e.geom_weight),
            {
                let edge = row[k];
                targets.push(edge.target as i32);
                psi_curr.push(edge.psi_curr);
                psi_prev.push(edge.psi_prev);
                geom.push(edge.geom_weight);
            }
            assert(edges.take(n as int) =~= edges);
        }
    }
    AdjCopy { targets, psi_curr, psi_prev, geom }
}

/// The smallest `cap` members of `src`, or all, in ascending order. A node's number that does not
/// fit is cut to its low bits.
pub fn copy_set(src: &BTreeSet<usize>, cap: usize) -> (out: Vec<i32>)
    ensures
        out@ == cut(sorted(src@), cap).map_values(|i: usize| i as i32),
{
    let members = ascending_members(src);
    let n = if members.len() < cap { members.len() } else { cap };
    let ghost kept = cut(sorted(src@), cap);
    assert(kept =~= members@.take(n as int));
    let mut out: Vec<i32> = Vec::new();
    for k in 0..n
        invariant
            n <= members@.len(),
            kept == members@.take(n as int),
            out@ == kept.take(k as int).map_values(|i: usize| i as i32),
    {
        out.push(members[k] as i32);
    }
    assert(kept.take(n as int) =~= kept);
    out
}

/// The number of observed nodes.
pub fn vdm_connectome_observed_count(conn: Option<&NativeConnectome>) -> (count: usize)
    ensures
        count == match held(conn) {
            Some(s) => s.observed.len(),
            None => 0,
        },
{
    broadcast use vstd::laws_cmp::group_laws_cmp;

    match conn {
        Some(c) => c.observed().len(),
        None => 0,
    }
}

/// The number of unsettled nodes.
pub fn vdm_connectome_unsettled_count(conn: Option<&NativeConnectome>) -> (count: usize)
    ensures
        count == match held(conn) {
            Some(s) => s.unsettled.len(),
            None => 0,
        },
{
    broadcast use vstd::laws_cmp::group_laws_cmp;

    match conn {
        Some(c) => c.unsettled().len(),
        None => 0,
    }
}

/// The observed nodes.
pub fn vdm_connectome_copy_observed(conn: Option<&NativeConnectome>, cap: usize) -> (out: Vec<i32>)
    ensures
        out@ == match held(conn) {
            Some(s) => cut(sorted(s.observed), cap).map_values(|i: usize| i as i32),
            None => Seq::empty(),
        },
{
    match conn {
        Some(c) => copy_set(c.observed(), cap),
        None => Vec::new(),
    }
}

/// The unsettled nodes.
pub fn vdm_connectome_copy_unsettled(conn: Option<&NativeConnectome>, cap: usize) -> (out: Vec<i32>)
    ensures
        out@ == match held(conn) {
            Some(s) => cut(sorted(s.unsettled), cap).map_values(|i: usize| i as i32),
            None => Seq::empty(),
        },
{
    match conn {
        Some(c) => copy_set(c.unsettled(), cap),
        None => Vec::new(),
    }
}

/// The temperature.
pub fn vdm_connectome_k_t(conn: Option<&NativeConnectome>) -> (value: Bits)
    ensures
        value == match held(conn) {
            Some(s) => s.k_t,
            None => ZERO,
        },
{
    match conn {
        Some(c) => c.k_t(),
        None => ZERO,
    }
}

/// The sum of the field.
pub fn vdm_connectome_phi_sum(conn: Option<&NativeConnectome>) -> (value: Bits)
    ensures
        value == match held(conn) {
            Some(s) => s.phi_sum,
            None => ZERO,
        },
{
    match conn {
        Some(c) => c.phi_sum(),
        None => ZERO,
    }
}

/// The sum of the squared field.
pub fn vdm_connectome_phi_sumsq(conn: Option<&NativeConnectome>) -> (value: Bits)
    ensures
        value == match held(conn) {
            Some(s) => s.phi_sumsq,
            None => ZERO,
        },
{
    match conn {
        Some(c) => c.phi_sumsq(),
        None => ZERO,
    }
}

/// The number of edges, two for each bond.
pub fn vdm_connectome_directed_edge_count(conn: Option<&NativeConnectome>) -> (count: usize)
    ensures
        count == match held(conn) {
            Some(s) => s.directed_edge_count,
            None => 0,
        },
{
    match conn {
        Some(c) => c.graph().directed_edge_count(),
        None => 0,
    }
}

} // verus!
