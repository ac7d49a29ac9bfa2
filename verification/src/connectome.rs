//! The connectome: a field on the nodes of a graph, and the bookkeeping of who is looked at.

pub mod advance;
pub mod gauge;
pub mod report;
pub mod run;
pub mod step;

use crate::binary64::{
    at_most, is_at_most, is_less, is_off_well, less, magnitude, magnitude_of, off_well, Bits, ZERO,
};
use crate::graph::{decohered, degree_sum, is_max_degree, simple_graph, with_strengths, Edge, Graph, Rows};
use std::collections::BTreeSet;
use vstd::prelude::*;

verus! {

broadcast use vstd::laws_cmp::group_laws_cmp;

/// The encoding of `1e-15`: a drive of this size or less is no stimulus.
pub const DRIVE_FLOOR: u64 = 0x3cd2_03af_9ee7_5616;

/// The encoding of `1e-30`: a node whose bonds weigh less than this emits nothing.
pub const WEIGHT_FLOOR: u64 = 0x39b4_484b_feeb_c2a0;

/// A field on `n` nodes, the bonds between them, and which nodes are observed, unsettled and
/// driven from outside. Numbers are held by their binary64 encodings.
pub struct NativeConnectome {
    graph: Graph,
    phi_curr: Vec<Bits>,
    phi_prev: Vec<Bits>,
    phi_dot: Vec<Bits>,
    debt: Vec<Bits>,
    last_visit: Vec<i32>,
    observed_nodes: BTreeSet<usize>,
    unsettled_nodes: BTreeSet<usize>,
    j_ext: Vec<Bits>,
    j_ext_nonzero: BTreeSet<usize>,
    phi_sum: Bits,
    phi_sumsq: Bits,
    k_t: Bits,
    tick: i32,
    transport_renormalization: Bits,
    dynamic_bond_geom_weight: Bits,
}

/// What a connectome holds, as mathematical values.
#[verifier::ext_equal]
pub struct State {
    pub rows: Rows,
    pub directed_edge_count: usize,
    pub phi_curr: Seq<Bits>,
    pub phi_prev: Seq<Bits>,
    pub phi_dot: Seq<Bits>,
    pub debt: Seq<Bits>,
    pub last_visit: Seq<i32>,
    pub observed: Set<usize>,
    pub unsettled: Set<usize>,
    pub j_ext: Seq<Bits>,
    pub j_ext_nonzero: Set<usize>,
    pub phi_sum: Bits,
    pub phi_sumsq: Bits,
    pub k_t: Bits,
    pub tick: i32,
    pub transport_renormalization: Bits,
    pub dynamic_bond_geom_weight: Bits,
}

/// Whether `drive` is large enough to count as a stimulus.
pub open spec fn is_stimulus(drive: Bits) -> bool {
    is_less(DRIVE_FLOOR, magnitude_of(drive))
}

impl State {
    /// The number of nodes.
    pub open spec fn n(self) -> nat {
        self.rows.len()
    }

    /// Every sequence has a value for each node and every set holds nodes only; the rows form a
    /// graph with the recorded number of edges; each stimulus is registered, each node that was ever
    /// visited or has not settled is observed, and the temperature is not negative.
    pub open spec fn wf(self) -> bool {
        &&& simple_graph(self.rows)
        &&& self.directed_edge_count == degree_sum(self.rows)
        &&& self.directed_edge_count % 2 == 0
        &&& self.n() <= usize::MAX
        &&& self.phi_curr.len() == self.n()
        &&& self.phi_prev.len() == self.n()
        &&& self.phi_dot.len() == self.n()
        &&& self.debt.len() == self.n()
        &&& self.last_visit.len() == self.n()
        &&& self.j_ext.len() == self.n()
        &&& forall|i: usize| #[trigger] self.observed.contains(i) ==> i < self.n()
        &&& forall|i: usize| #[trigger]
            self.unsettled.contains(i) ==> self.observed.contains(i)
        &&& forall|i: usize| #[trigger] self.j_ext_nonzero.contains(i) ==> i < self.n()
        &&& forall|i: usize|
            i < self.n() && is_stimulus(self.j_ext[i as int]) ==> #[trigger] self.j_ext_nonzero.contains(
                i,
            )
        &&& forall|i: usize|
            i < self.n() && self.last_visit[i as int] != -1 ==> #[trigger] self.observed.contains(i)
        &&& is_at_most(ZERO, self.k_t)
    }
}

impl View for NativeConnectome {
    type V = State;

    closed spec fn view(&self) -> State {
        State {
            rows: self.graph.rows(),
            directed_edge_count: self.graph.count(),
            phi_curr: self.phi_curr@,
            phi_prev: self.phi_prev@,
            phi_dot: self.phi_dot@,
            debt: self.debt@,
            last_visit: self.last_visit@,
            observed: self.observed_nodes@,
            unsettled: self.unsettled_nodes@,
            j_ext: self.j_ext@,
            j_ext_nonzero: self.j_ext_nonzero@,
            phi_sum: self.phi_sum,
            phi_sumsq: self.phi_sumsq,
            k_t: self.k_t,
            tick: self.tick,
            transport_renormalization: self.transport_renormalization,
            dynamic_bond_geom_weight: self.dynamic_bond_geom_weight,
        }
    }
}

impl NativeConnectome {
    /// The state is well-formed.
    pub open spec fn wf(&self) -> bool {
        self@.wf()
    }

    /// A connectome on `graph`. Each node starts at its level. A node with fewer bonds than the
    /// best-bonded one is observed from the start, and unsettled unless its level is an integer.
    pub fn new(
        graph: Graph,
        levels: Vec<Bits>,
        phi_sum: Bits,
        phi_sumsq: Bits,
        transport_renormalization: Bits,
        dynamic_bond_geom_weight: Bits,
    ) -> (conn: Self)
        requires
            graph.wf(),
            levels@.len() == graph.rows().len(),
        ensures
            conn.wf(),
            conn@ == new_state(
                graph.rows(),
                levels@,
                phi_sum,
                phi_sumsq,
                transport_renormalization,
                dynamic_bond_geom_weight,
            ),
    {
        let n = graph.len();
        let max_deg = graph.max_degree();
        let ghost g = graph.rows();
        let mut last_visit: Vec<i32> = vec![-1; n];
        let mut observed_nodes: BTreeSet<usize> = BTreeSet::new();
        let mut unsettled_nodes: BTreeSet<usize> = BTreeSet::new();
        for i in 0..n
            invariant
                n == g.len(),
                g == graph.rows(),
                levels@.len() == n,
                is_max_degree(g, max_deg as nat),
                last_visit@.len() == n,
                forall|j: usize| #[trigger]
                    observed_nodes@.contains(j) <==> j < i && is_boundary(g, j as int),
                forall|j: usize| #[trigger]
                    unsettled_nodes@.contains(j) <==> j < i && is_boundary(g, j as int)
                        && is_off_well(levels@[j as int]),
                forall|j: int|
                    0 <= j < n ==> #[trigger] last_visit@[j] == if j < i && is_boundary(g, j) {
                        0i32
                    } else {
                        -1i32
                    },
        {
            let degree = graph.row(i).len();
            proof {
                lemma_boundary(g, i as int, max_deg as nat);
            }
            if degree < max_deg {
                last_visit[i] = 0;
                observed_nodes.insert(i);
                if off_well(levels[i]) {
                    unsettled_nodes.insert(i);
                }
            }
        }
        let phi_prev = levels.clone();
        assert(phi_prev@ =~= levels@);
        let conn = NativeConnectome {
            graph,
            phi_curr: levels,
            phi_prev,
            phi_dot: vec![ZERO; n],
            debt: vec![ZERO; n],
            last_visit,
            observed_nodes,
            unsettled_nodes,
            j_ext: vec![ZERO; n],
            j_ext_nonzero: BTreeSet::new(),
            phi_sum,
            phi_sumsq,
            k_t: ZERO,
            tick: 0,
            transport_renormalization,
            dynamic_bond_geom_weight,
        };
        proof {
            assert(conn@ =~= new_state(
                g,
                levels@,
                phi_sum,
                phi_sumsq,
                transport_renormalization,
                dynamic_bond_geom_weight,
            ));
            assert(!is_stimulus(ZERO)) by {
                crate::binary64::lemma_size_positive(DRIVE_FLOOR as int);
                crate::binary64::lemma_size_positive(0);
            }
        }
        conn
    }

    /// The number of nodes.
    pub fn len(&self) -> (n: usize)
        ensures
            n == self@.n(),
    {
        self.graph.len()
    }

    /// The bonds.
    pub fn graph(&self) -> (graph: &Graph)
        ensures
            graph.rows() == self@.rows,
            graph.count() == self@.directed_edge_count,
    {
        &self.graph
    }

    /// The field.
    pub fn phi_curr(&self) -> (values: &Vec<Bits>)
        ensures
            values@ == self@.phi_curr,
    {
        &self.phi_curr
    }

    /// The field one step before.
    pub fn phi_prev(&self) -> (values: &Vec<Bits>)
        ensures
            values@ == self@.phi_prev,
    {
        &self.phi_prev
    }

    /// The change of the field in the last step.
    pub fn phi_dot(&self) -> (values: &Vec<Bits>)
        ensures
            values@ == self@.phi_dot,
    {
        &self.phi_dot
    }

    /// The debts.
    pub fn debt(&self) -> (values: &Vec<Bits>)
        ensures
            values@ == self@.debt,
    {
        &self.debt
    }

    /// The drives from outside.
    pub fn j_ext(&self) -> (values: &Vec<Bits>)
        ensures
            values@ == self@.j_ext,
    {
        &self.j_ext
    }

    /// The tick at which each node was last visited, or -1.
    pub fn last_visit(&self) -> (ticks: &Vec<i32>)
        ensures
            ticks@ == self@.last_visit,
    {
        &self.last_visit
    }

    /// The nodes that were ever in sight.
    pub fn observed(&self) -> (nodes: &BTreeSet<usize>)
        ensures
            nodes@ == self@.observed,
    {
        &self.observed_nodes
    }

    /// The nodes that have not settled.
    pub fn unsettled(&self) -> (nodes: &BTreeSet<usize>)
        ensures
            nodes@ == self@.unsettled,
    {
        &self.unsettled_nodes
    }

    /// The temperature.
    pub fn k_t(&self) -> (value: Bits)
        ensures
            value == self@.k_t,
    {
        self.k_t
    }

    /// The sum of the field.
    pub fn phi_sum(&self) -> (value: Bits)
        ensures
            value == self@.phi_sum,
    {
        self.phi_sum
    }

    /// The sum of the squared field.
    pub fn phi_sumsq(&self) -> (value: Bits)
        ensures
            value == self@.phi_sumsq,
    {
        self.phi_sumsq
    }

    /// The factor of transport along bonds.
    pub fn transport_renormalization(&self) -> (value: Bits)
        ensures
            value == self@.transport_renormalization,
    {
        self.transport_renormalization
    }

    /// Drives the listed nodes with the listed amplitudes, in order; a node out of range is passed
    /// over, and where one list is longer its rest is.
    pub fn stimulate(&mut self, indices: &[i32], amplitudes: &[Bits])
        requires
            old(self).wf(),
        ensures
            final(self).wf(),
            final(self)@ == stimulated(
                old(self)@,
                indices@,
                amplitudes@,
                pairs_len(indices@, amplitudes@),
            ),
    {
        let count = if indices.len() < amplitudes.len() { indices.len() } else { amplitudes.len() };
        for k in 0..count
            invariant
                count == pairs_len(indices@, amplitudes@),
                self.wf(),
                self@ == stimulated(old(self)@, indices@, amplitudes@, k as nat),
        {
            let idx = indices[k];
            let amp = amplitudes[k];
            let ghost before = self@;
            if idx >= 0 {
                let i = idx as usize;
                if i < self.graph.len() {
                    self.j_ext[i] = amp;
                    if less(DRIVE_FLOOR, magnitude(amp)) {
                        self.j_ext_nonzero.insert(i);
                    }
                }
            }
            assert(self@ =~= driven(before, idx, amp));
        }
    }

    /// The neighbor of `node` that `draw` picks.
    pub fn select_neighbor(&self, node: usize, draw: &Draw) -> (r: Option<usize>)
        requires
            node < self@.n(),
            draw.cdf@.len() == self@.rows[node as int].len(),
        ensures
            r == picked(self@.rows[node as int], draw.w_sum, draw.u, draw.cdf@),
    {
        let nbrs = self.graph.row(node);
        if nbrs.is_empty() {
            return None;
        }
        if less(draw.w_sum, WEIGHT_FLOOR) {
            return None;
        }
        for k in 0..nbrs.len()
            invariant
                nbrs@ == self@.rows[node as int],
                draw.cdf@.len() == nbrs@.len(),
                nbrs@.len() > 0,
                !is_less(draw.w_sum, WEIGHT_FLOOR),
                first_reached(draw.cdf@, draw.u, 0) == first_reached(draw.cdf@, draw.u, k as int),
        {
            if at_most(draw.u, draw.cdf[k]) {
                return Some(nbrs[k].target);
            }
        }
        Some(nbrs[nbrs.len() - 1].target)
    }

    /// How long `node` has been out of sight, if it was seen before and not at this tick or the
    /// one before it.
    pub fn cold_gap(&self, node: usize) -> (gap: Option<i32>)
        requires
            self.wf(),
            node < self@.n(),
        ensures
            gap == if is_cold(self@, node as int) {
                Some((self@.tick - self@.last_visit[node as int]) as i32)
            } else {
                None
            },
    {
        let last = self.last_visit[node];
        if last >= 0 && (last as i64) < self.tick as i64 - 1 {
            Some(self.tick - last)
        } else {
            None
        }
    }

    /// Looks at the active node `node`: if it was out of sight, takes in what happened to it since.
    pub fn visit(&mut self, node: usize, update: Option<ColdUpdate>)
        requires
            old(self).wf(),
            node < old(self)@.n(),
            is_cold(old(self)@, node as int) ==> (update matches Some(u) && u.psi@.len() == old(
                self,
            )@.rows[node as int].len()),
        ensures
            final(self).wf(),
            final(self)@ == if is_cold(old(self)@, node as int) {
                visited(measured(old(self)@, node as int, update->0), node)
            } else {
                visited(old(self)@, node)
            },
    {
        if self.cold_gap(node).is_some() {
            if let Some(u) = update {
                let tick = self.tick;
                self.measure_cold_node(node, tick, &u);
            }
        }
        let ghost s = self@;
        self.last_visit[node] = self.tick;
        self.observed_nodes.insert(node);
        assert(self@ =~= visited(s, node));
    }

    /// Takes in what happened to `node` while it was out of sight; nothing did within one tick.
    pub fn measure_cold_node(&mut self, node: usize, tick_now: i32, update: &ColdUpdate)
        requires
            old(self).wf(),
            node < old(self)@.n(),
            update.psi@.len() == old(self)@.rows[node as int].len(),
        ensures
            final(self).wf(),
            final(self)@ == if gap_since(old(self)@.last_visit[node as int], tick_now) <= 1 {
                old(self)@
            } else {
                measured(old(self)@, node as int, *update)
            },
    {
        let seen = self.last_visit[node];
        let t_last: i32 = if seen > 0 { seen } else { 0 };
        let dt_gap: i64 = tick_now as i64 - t_last as i64;
        if dt_gap <= 1 {
            return;
        }
        self.phi_curr[node] = update.phi_curr;
        self.phi_prev[node] = update.phi_prev;
        self.phi_sum = update.phi_sum;
        self.phi_sumsq = update.phi_sumsq;
        self.graph.set_strengths(node, update.psi.as_slice());
        self.debt[node] = update.debt;
        assert(self@ =~= measured(old(self)@, node as int, *update));
    }

    /// Lets the bonds break that a listed node sees below the floor, and says how many these were.
    /// `root` is the floor above rest; at rest no bond breaks.
    pub fn decohere_bonds(&mut self, compute_list: &[usize], root: Bits) -> (removed: usize)
        requires
            old(self).wf(),
        ensures
            final(self).wf(),
            final(self)@ == with_decohered(old(self)@, compute_list@, root),
            final(self)@.directed_edge_count + 2 * removed == old(self)@.directed_edge_count,
    {
        if at_most(self.k_t, ZERO) {
            return 0;
        }
        let eta_floor = bond_decoherence_floor(self.k_t, root);
        let removed = self.graph.decohere(compute_list, eta_floor);
        assert(self@ =~= with_decohered(old(self)@, compute_list@, root));
        removed
    }
}

/// The strength below which a bond breaks: `root` above rest, and 0 at rest.
pub open spec fn decoherence_floor(k_t: Bits, root: Bits) -> Bits {
    if is_at_most(k_t, ZERO) {
        ZERO
    } else {
        root
    }
}

/// The strength below which a bond breaks at the temperature `k_t`, where `root` is that above
/// rest.
pub fn bond_decoherence_floor(k_t: Bits, root: Bits) -> (floor: Bits)
    ensures
        floor == decoherence_floor(k_t, root),
{
    if at_most(k_t, ZERO) {
        ZERO
    } else {
        root
    }
}

/// `s` after its bonds broke at the listed nodes; at rest none breaks.
pub open spec fn with_decohered(s: State, list: Seq<usize>, root: Bits) -> State {
    if is_at_most(s.k_t, ZERO) {
        s
    } else {
        let rows = decohered(s.rows, list, decoherence_floor(s.k_t, root));
        State { rows, directed_edge_count: degree_sum(rows) as usize, ..s }
    }
}

/// The numbers by which one emission picks a neighbor: the weight of all bonds of the node, the
/// share that is drawn, and the share that each bond and those before it make up.
pub struct Draw {
    pub w_sum: Bits,
    pub u: Bits,
    pub cdf: Vec<Bits>,
}

/// The first place at or after `k` where the shares reach `u`, or their number.
pub open spec fn first_reached(cdf: Seq<Bits>, u: Bits, k: int) -> int
    decreases cdf.len() - k,
{
    if k >= cdf.len() {
        cdf.len() as int
    } else if is_at_most(u, cdf[k]) {
        k
    } else {
        first_reached(cdf, u, k + 1)
    }
}

/// No share from place `k` on and before the one found reaches `u`; the one found does, unless it
/// is past the last.
pub proof fn lemma_first_reached(cdf: Seq<Bits>, u: Bits, k: int)
    requires
        0 <= k <= cdf.len(),
    ensures
        k <= first_reached(cdf, u, k) <= cdf.len(),
        forall|j: int| k <= j < first_reached(cdf, u, k) ==> !is_at_most(u, #[trigger] cdf[j]),
        first_reached(cdf, u, k) < cdf.len() ==> is_at_most(u, cdf[first_reached(cdf, u, k)]),
    decreases cdf.len() - k,
{
    if k < cdf.len() && !is_at_most(u, cdf[k]) {
        lemma_first_reached(cdf, u, k + 1);
    }
}

/// The node that a draw picks from `row`: the first whose share is reached, or the last; none
/// where the row is empty or its bonds weigh nothing.
pub open spec fn picked(row: Seq<Edge>, w_sum: Bits, u: Bits, cdf: Seq<Bits>) -> Option<usize> {
    if row.len() == 0 || is_less(w_sum, WEIGHT_FLOOR) {
        None
    } else {
        let k = first_reached(cdf, u, 0);
        if k < row.len() {
            Some(row[k].target)
        } else {
            Some(row.last().target)
        }
    }
}

/// The numbers that a node takes on after it was out of sight: its field value now and before, its
/// debt, the sums over the field, and the strength of each of its bonds.
pub struct ColdUpdate {
    pub phi_curr: Bits,
    pub phi_prev: Bits,
    pub debt: Bits,
    pub phi_sum: Bits,
    pub phi_sumsq: Bits,
    pub psi: Vec<Bits>,
}

/// The time since the last visit; a node never visited counts from 0.
pub open spec fn gap_since(last_visit: i32, tick_now: i32) -> int {
    tick_now - if last_visit > 0 {
        last_visit as int
    } else {
        0
    }
}

/// Whether `i` was seen before, and neither at this tick nor at the one before it.
pub open spec fn is_cold(s: State, i: int) -> bool {
    0 <= s.last_visit[i] < s.tick - 1
}

/// `s` with `node` seen now.
pub open spec fn visited(s: State, node: usize) -> State {
    State {
        last_visit: s.last_visit.update(node as int, s.tick),
        observed: s.observed.insert(node),
        ..s
    }
}

/// `s` with the update of `node` in it.
pub open spec fn measured(s: State, node: int, update: ColdUpdate) -> State {
    State {
        rows: s.rows.update(node, with_strengths(s.rows[node], update.psi@)),
        phi_curr: s.phi_curr.update(node, update.phi_curr),
        phi_prev: s.phi_prev.update(node, update.phi_prev),
        debt: s.debt.update(node, update.debt),
        phi_sum: update.phi_sum,
        phi_sumsq: update.phi_sumsq,
        ..s
    }
}

/// The encoding of 0 at each of `n` nodes.
pub open spec fn all_zero(n: nat) -> Seq<Bits> {
    Seq::new(n, |i: int| ZERO)
}

/// Whether some node has more bonds than node `i`, or `i` has none.
pub open spec fn is_boundary(g: Rows, i: int) -> bool {
    g[i].len() == 0 || exists|j: int| 0 <= j < g.len() && (#[trigger] g[j]).len() > g[i].len()
}

/// A connectome on the bonds `g` before its first step: each node at its level and at rest, and the
/// nodes at the boundary observed, as unsettled unless their levels are integers.
pub open spec fn new_state(
    g: Rows,
    levels: Seq<Bits>,
    phi_sum: Bits,
    phi_sumsq: Bits,
    transport_renormalization: Bits,
    dynamic_bond_geom_weight: Bits,
) -> State {
    State {
        rows: g,
        directed_edge_count: degree_sum(g) as usize,
        phi_curr: levels,
        phi_prev: levels,
        phi_dot: all_zero(g.len()),
        debt: all_zero(g.len()),
        last_visit: Seq::new(
            g.len(),
            |i: int|
                if is_boundary(g, i) {
                    0i32
                } else {
                    -1i32
                },
        ),
        observed: Set::new(|i: usize| i < g.len() && is_boundary(g, i as int)),
        unsettled: Set::new(
            |i: usize|
                i < g.len() && is_boundary(g, i as int) && is_off_well(levels[i as int]),
        ),
        j_ext: all_zero(g.len()),
        j_ext_nonzero: Set::empty(),
        phi_sum,
        phi_sumsq,
        k_t: ZERO,
        tick: 0,
        transport_renormalization,
        dynamic_bond_geom_weight,
    }
}

/// A node is at the boundary where it has fewer bonds than the largest number.
pub proof fn lemma_boundary(g: Rows, i: int, most: nat)
    requires
        0 <= i < g.len(),
        is_max_degree(g, most),
    ensures
        is_boundary(g, i) == (g[i].len() < most),
{
    if g[i].len() < most && most != 1 {
        let j = choose|j: int| 0 <= j < g.len() && (#[trigger] g[j]).len() == most;
        assert(g[j].len() > g[i].len());
    }
}

/// The number of pairs that two lists form.
pub open spec fn pairs_len(indices: Seq<i32>, amplitudes: Seq<Bits>) -> nat {
    if indices.len() < amplitudes.len() {
        indices.len()
    } else {
        amplitudes.len()
    }
}

/// `s` with the drive `amp` at node `idx`, if there is such a node. A stimulus registers the node;
/// a lesser drive does not take it off the register.
pub open spec fn driven(s: State, idx: i32, amp: Bits) -> State {
    if 0 <= idx < s.n() {
        State {
            j_ext: s.j_ext.update(idx as int, amp),
            j_ext_nonzero: if is_stimulus(amp) {
                s.j_ext_nonzero.insert(idx as usize)
            } else {
                s.j_ext_nonzero
            },
            ..s
        }
    } else {
        s
    }
}

/// `s` after the first `k` of the listed drives.
pub open spec fn stimulated(s: State, indices: Seq<i32>, amplitudes: Seq<Bits>, k: nat) -> State
    decreases k,
{
    if k == 0 {
        s
    } else {
        let last = (k - 1) as nat;
        driven(stimulated(s, indices, amplitudes, last), indices[last as int], amplitudes[last as int])
    }
}

} // verus!
