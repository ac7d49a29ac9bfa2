//! The end of a step: the field, the bonds, the debts and the unsettled nodes move on.

use super::step::{is_node_list, StepPlan};
use super::{is_stimulus, with_decohered, NativeConnectome, State};
use crate::binary64::{
    clip01, clipped, far_from_well, is_far, is_finite, is_less, lemma_one, less, magnitude,
    magnitude_of, Bits, INFINITE, ZERO,
};
use crate::graph::{all_advanced, degree_sum, fits_rows, grown};
use crate::members::{
    ascending, ascending_members, insert_all, lemma_listed_take, lemma_place_of, listed, place_of,
};
use std::collections::BTreeSet;
use vstd::prelude::*;

verus! {

broadcast use vstd::laws_cmp::group_laws_cmp;

/// The numbers of one step. Those in `phi_raw`, `bond_raw` and `debt` stand in the order of the
/// nodes to compute; `phi_dot` has one for every node, and those of nodes that are not computed
/// count only where the field is not finite.
pub struct StepNumbers {
    /// The new field values, before they are clipped.
    pub phi_raw: Vec<Bits>,
    /// The new strengths of each node's bonds, before they are clipped.
    pub bond_raw: Vec<Vec<Bits>>,
    /// The debts that the nodes have after the step.
    pub debt: Vec<Bits>,
    /// The change of the field at every node.
    pub phi_dot: Vec<Bits>,
    /// The sum of the field, and that of its squares.
    pub phi_sum: Bits,
    pub phi_sumsq: Bits,
    /// The strength below which bonds break, above rest.
    pub floor_root: Bits,
    /// Half the variance of the changes.
    pub half_var: Bits,
    /// The distance from a well and the speed beyond which a node is unsettled.
    pub pos_thresh: Bits,
    pub vel_thresh: Bits,
}

impl StepNumbers {
    /// There is a number for each place that asks for one.
    pub open spec fn fits(self, s: State, list: Seq<usize>) -> bool {
        &&& self.phi_raw@.len() == list.len()
        &&& fits_rows(s.rows, list, self.bond_raw@)
        &&& self.debt@.len() == list.len()
        &&& self.phi_dot@.len() == s.n()
    }
}

/// How many bonds a step made, and how many broke.
pub struct BondCounts {
    pub instantiated: usize,
    pub removed: usize,
}

/// `x` where it is positive, else 0.
pub open spec fn positive_part(x: Bits) -> Bits {
    if is_less(ZERO, x) {
        x
    } else {
        ZERO
    }
}

/// `x` where it is positive, else 0.
pub fn max_zero(x: Bits) -> (r: Bits)
    ensures
        r == positive_part(x),
{
    if less(ZERO, x) {
        x
    } else {
        ZERO
    }
}

/// `old` with the values of `new` at the listed places.
pub open spec fn replaced(old_values: Seq<Bits>, list: Seq<usize>, new: Seq<Bits>) -> Seq<Bits> {
    Seq::new(
        old_values.len(),
        |i: int|
            if listed(list, i) {
                new[place_of(list, i)]
            } else {
                old_values[i]
            },
    )
}

/// The field after a step: the clipped new values at the listed nodes.
pub open spec fn field_after(s: State, list: Seq<usize>, raw: Seq<Bits>) -> Seq<Bits> {
    replaced(s.phi_curr, list, raw.map_values(|x: Bits| clipped(x)))
}

/// The change of the field in a step: nothing changes at a node that is not listed and has a finite
/// field, and elsewhere the change is as handed in.
pub open spec fn speeds_after(s: State, list: Seq<usize>, phi_dot: Seq<Bits>) -> Seq<Bits> {
    Seq::new(
        phi_dot.len(),
        |i: int|
            if !listed(list, i) && is_finite(s.phi_curr[i]) {
                ZERO
            } else {
                phi_dot[i]
            },
    )
}

/// The temperature after a step: it takes two nodes for a variance.
pub open spec fn k_t_after(s: State, list: Seq<usize>, half_var: Bits) -> Bits {
    if list.len() > 1 {
        positive_part(half_var)
    } else {
        s.k_t
    }
}

/// Whether node `k` of the list is unsettled after the step: far from its well, or fast.
pub open spec fn stays_unsettled(list: Seq<usize>, numbers: StepNumbers, k: int) -> bool {
    is_far(clipped(numbers.phi_raw@[k]), numbers.pos_thresh) || is_less(
        numbers.vel_thresh,
        magnitude_of(numbers.phi_dot@[list[k] as int]),
    )
}

/// The unsettled nodes after a step: the listed ones that stay or become so, and those that were
/// so and are not listed.
pub open spec fn unsettled_after(s: State, list: Seq<usize>, numbers: StepNumbers) -> Set<usize> {
    Set::new(
        |i: usize|
            if listed(list, i as int) {
                stays_unsettled(list, numbers, place_of(list, i as int))
            } else {
                s.unsettled.contains(i)
            },
    )
}

/// `s` after its bonds moved on, new ones were made and faint ones broke.
pub open spec fn rebonded(
    s: State,
    list: Seq<usize>,
    pairs: Seq<(usize, usize)>,
    numbers: StepNumbers,
) -> State {
    with_decohered(regrown(s, list, pairs, numbers), list, numbers.floor_root)
}

/// `s` after its bonds moved on and new ones were made.
pub open spec fn regrown(
    s: State,
    list: Seq<usize>,
    pairs: Seq<(usize, usize)>,
    numbers: StepNumbers,
) -> State {
    let rows = grown(
        all_advanced(s.rows, list, numbers.bond_raw@),
        pairs,
        s.dynamic_bond_geom_weight,
    );
    State { rows, directed_edge_count: degree_sum(rows) as usize, ..s }
}

/// `s` after the step.
pub open spec fn advanced(
    s: State,
    list: Seq<usize>,
    pairs: Seq<(usize, usize)>,
    numbers: StepNumbers,
) -> State {
    let r = rebonded(s, list, pairs, numbers);
    State {
        rows: r.rows,
        directed_edge_count: r.directed_edge_count,
        phi_curr: field_after(s, list, numbers.phi_raw@),
        phi_prev: s.phi_curr,
        phi_dot: speeds_after(s, list, numbers.phi_dot@),
        debt: replaced(s.debt, list, numbers.debt@),
        last_visit: s.last_visit,
        observed: s.observed,
        unsettled: unsettled_after(s, list, numbers),
        j_ext: Seq::new(
            s.n(),
            |i: int|
                if s.j_ext_nonzero.contains(i as usize) {
                    ZERO
                } else {
                    s.j_ext[i]
                },
        ),
        j_ext_nonzero: Set::empty(),
        phi_sum: if list.len() > 0 { numbers.phi_sum } else { s.phi_sum },
        phi_sumsq: if list.len() > 0 { numbers.phi_sumsq } else { s.phi_sumsq },
        k_t: k_t_after(s, list, numbers.half_var),
        tick: s.tick,
        transport_renormalization: s.transport_renormalization,
        dynamic_bond_geom_weight: s.dynamic_bond_geom_weight,
    }
}

/// Writes the new values to the listed places.
fn replace_all(values: &mut Vec<Bits>, list: &[usize], new: &[Bits])
    requires
        ascending(list@),
        forall|k: int| 0 <= k < list@.len() ==> #[trigger] list@[k] < old(values)@.len(),
        new@.len() == list@.len(),
    ensures
        final(values)@ == replaced(old(values)@, list@, new@),
{
    let ghost before = values@;
    for k in 0..list.len()
        invariant
            ascending(list@),
            forall|k: int| 0 <= k < list@.len() ==> #[trigger] list@[k] < before.len(),
            new@.len() == list@.len(),
            values@.len() == before.len(),
            forall|i: int|
                0 <= i < before.len() ==> #[trigger] values@[i] == if listed(
                    list@.take(k as int),
                    i,
                ) {
                    new@[place_of(list@, i)]
                } else {
                    before[i]
                },
    {
        let i = list[k];
        proof {
            lemma_place_of(list@, k as int);
            lemma_listed_take(list@, k as int);
        }
        values[i] = new[k];
    }
    assert(list@.take(list@.len() as int) =~= list@);
    assert(values@ =~= replaced(before, list@, new@));
}

impl NativeConnectome {
    /// The field that a step leads to.
    pub fn next_field(&self, list: &[usize], raw: &[Bits]) -> (field: Vec<Bits>)
        requires
            self.wf(),
            is_node_list(self@, list@),
            raw@.len() == list@.len(),
        ensures
            field@ == field_after(self@, list@, raw@),
    {
        let mut field = self.phi_curr.clone();
        assert(field@ =~= self.phi_curr@);
        let mut new: Vec<Bits> = Vec::new();
        for k in 0..raw.len()
            invariant
                new@ == raw@.map_values(|x: Bits| clipped(x)).take(k as int),
        {
            new.push(clip01(raw[k]));
        }
        assert(new@ =~= raw@.map_values(|x: Bits| clipped(x)));
        replace_all(&mut field, list, new.as_slice());
        field
    }

    /// The change of the field in a step.
    fn next_speeds(&self, list: &[usize], phi_dot: &[Bits]) -> (speeds: Vec<Bits>)
        requires
            phi_dot@.len() == self@.phi_curr.len(),
        ensures
            speeds@ == speeds_after(self@, list@, phi_dot@),
    {
        let mut computed: BTreeSet<usize> = BTreeSet::new();
        insert_all(&mut computed, list);
        let mut speeds: Vec<Bits> = Vec::new();
        for i in 0..phi_dot.len()
            invariant
                phi_dot@.len() == self@.phi_curr.len(),
                forall|j: usize| #[trigger]
                    computed@.contains(j) <==> listed(list@, j as int),
                speeds@ == speeds_after(self@, list@, phi_dot@).take(i as int),
        {
            if !computed.contains(&i) && magnitude(self.phi_curr[i]) < INFINITE {
                speeds.push(ZERO);
            } else {
                speeds.push(phi_dot[i]);
            }
        }
        assert(speeds@ =~= speeds_after(self@, list@, phi_dot@));
        speeds
    }

    /// The temperature that a step leads to.
    pub fn next_k_t(&self, list: &[usize], half_var: Bits) -> (k_t: Bits)
        ensures
            k_t == k_t_after(self@, list@, half_var),
    {
        if list.len() > 1 {
            max_zero(half_var)
        } else {
            self.k_t
        }
    }

    /// The nodes that are unsettled after a step.
    fn next_unsettled(&self, list: &[usize], numbers: &StepNumbers) -> (next: BTreeSet<usize>)
        requires
            self.wf(),
            is_node_list(self@, list@),
            numbers.phi_raw@.len() == list@.len(),
            numbers.phi_dot@.len() == self@.n(),
        ensures
            next@ == unsettled_after(self@, list@, *numbers),
    {
        let mut next: BTreeSet<usize> = BTreeSet::new();
        for k in 0..list.len()
            invariant
                is_node_list(self@, list@),
                numbers.phi_raw@.len() == list@.len(),
                numbers.phi_dot@.len() == self@.n(),
                forall|i: usize| #[trigger]
                    next@.contains(i) <==> listed(list@.take(k as int), i as int)
                        && stays_unsettled(list@, *numbers, place_of(list@, i as int)),
        {
            let node = list[k];
            proof {
                lemma_place_of(list@, k as int);
                lemma_listed_take(list@, k as int);
                assert forall|u: int| #[trigger] listed(list@.take(k as int), u) implies u != node by {
                    let l = choose|l: int|
                        0 <= l < k && #[trigger] list@.take(k as int)[l] == u;
                    assert(list@[l] < list@[k as int]);
                }
            }
            let phi = clip01(numbers.phi_raw[k]);
            proof {
                lemma_one();
            }
            if far_from_well(phi, numbers.pos_thresh) || less(
                numbers.vel_thresh,
                magnitude(numbers.phi_dot[node]),
            ) {
                next.insert(node);
            }
        }
        assert(list@.take(list@.len() as int) =~= list@);
        let mut computed: BTreeSet<usize> = BTreeSet::new();
        insert_all(&mut computed, list);
        let were = ascending_members(&self.unsettled_nodes);
        let ghost fresh = next@;
        for k in 0..were.len()
            invariant
                forall|i: usize| #[trigger]
                    computed@.contains(i) <==> listed(list@, i as int),
                forall|i: usize| #[trigger]
                    next@.contains(i) <==> fresh.contains(i) || (listed(
                        were@.take(k as int),
                        i as int,
                    ) && !listed(list@, i as int)),
        {
            let node = were[k];
            if !computed.contains(&node) {
                next.insert(node);
            }
            proof {
                lemma_listed_take(were@, k as int);
            }
        }
        assert(were@.take(were@.len() as int) =~= were@);
        assert(next@ =~= unsettled_after(self@, list@, *numbers));
        next
    }

    /// Takes away the registered drives.
    fn clear_drives(&mut self)
        requires
            old(self).wf(),
        ensures
            final(self).wf(),
            final(self)@ == (State {
                j_ext: final(self)@.j_ext,
                j_ext_nonzero: Set::empty(),
                ..old(self)@
            }),
            final(self)@.j_ext == Seq::new(
                old(self)@.n(),
                |i: int|
                    if old(self)@.j_ext_nonzero.contains(i as usize) {
                        ZERO
                    } else {
                        old(self)@.j_ext[i]
                    },
            ),
    {
        let ghost s = self@;
        let registered = ascending_members(&self.j_ext_nonzero);
        let n = self.graph.len();
        for k in 0..registered.len()
            invariant
                n == s.n(),
                self@ == (State { j_ext: self@.j_ext, ..s }),
                self@.j_ext.len() == n,
                forall|i: int|
                    0 <= i < n ==> #[trigger] self@.j_ext[i] == if listed(
                        registered@.take(k as int),
                        i,
                    ) {
                        ZERO
                    } else {
                        s.j_ext[i]
                    },
        {
            let idx = registered[k];
            if idx < n {
                self.j_ext[idx] = ZERO;
            }
            proof {
                lemma_listed_take(registered@, k as int);
            }
        }
        assert(registered@.take(registered@.len() as int) =~= registered@);
        self.j_ext_nonzero.clear();
        proof {
            crate::binary64::lemma_size_positive(super::DRIVE_FLOOR as int);
            crate::binary64::lemma_size_positive(0);
            assert(!is_stimulus(ZERO));
        }
        assert(self@.j_ext =~= Seq::new(
            s.n(),
            |i: int|
                if s.j_ext_nonzero.contains(i as usize) {
                    ZERO
                } else {
                    s.j_ext[i]
                },
        ));
    }

    /// Ends the step that `plan` describes: moves the bonds on, makes the proposed ones, lets the
    /// faint ones break, and moves the temperature, the debts, the unsettled nodes and the field
    /// on; the drives are used up.
    pub fn advance(&mut self, plan: &StepPlan, numbers: &StepNumbers) -> (counts: BondCounts)
        requires
            old(self).wf(),
            plan.wf(old(self)@),
            plan.all_seen(old(self)@),
            numbers.fits(old(self)@, plan.compute_list@),
            old(self)@.directed_edge_count + 2 * plan.bond_pairs@.len() <= usize::MAX,
        ensures
            final(self).wf(),
            final(self)@ == advanced(
                old(self)@,
                plan.compute_list@,
                plan.bond_pairs@,
                *numbers,
            ),
            regrown(
                old(self)@,
                plan.compute_list@,
                plan.bond_pairs@,
                *numbers,
            ).directed_edge_count == old(self)@.directed_edge_count + 2 * counts.instantiated,
            final(self)@.directed_edge_count + 2 * counts.removed == old(
                self,
            )@.directed_edge_count + 2 * counts.instantiated,
            final(self)@.directed_edge_count / 2 + counts.removed == old(
                self,
            )@.directed_edge_count / 2 + counts.instantiated,
    {
        let ghost s = self@;
        let list = plan.compute_list.as_slice();
        let ghost pairs = plan.bond_pairs@;
        let field = self.next_field(list, numbers.phi_raw.as_slice());
        let k_t = self.next_k_t(list, numbers.half_var);
        let unsettled = self.next_unsettled(list, numbers);
        self.graph.advance_all(list, numbers.bond_raw.as_slice());
        let geom = self.dynamic_bond_geom_weight;
        let instantiated = self.graph.grow(plan.bond_pairs.as_slice(), geom);
        assert(self@ =~= regrown(s, list@, pairs, *numbers));
        let removed = self.decohere_bonds(list, numbers.floor_root);
        if list.len() > 0 {
            self.phi_sum = numbers.phi_sum;
            self.phi_sumsq = numbers.phi_sumsq;
            replace_all(&mut self.debt, list, numbers.debt.as_slice());
            self.unsettled_nodes = unsettled;
        }
        self.k_t = k_t;
        self.phi_dot = self.next_speeds(list, numbers.phi_dot.as_slice());
        self.phi_prev = self.phi_curr.clone();
        self.phi_curr = field;
        self.clear_drives();
        assert(self@ =~= advanced(s, list@, pairs, *numbers));
        BondCounts { instantiated, removed }
    }
}

} // verus!
