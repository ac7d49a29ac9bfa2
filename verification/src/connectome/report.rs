//! The report on a step.

use super::advance::{max_zero, positive_part, BondCounts};
use super::step::{is_node_list, StepPlan};
use super::{NativeConnectome, State};
use crate::binary64::{is_less, less, magnitude, magnitude_of, Bits, ZERO};
use vstd::prelude::*;

verus! {

broadcast use vstd::laws_cmp::group_laws_cmp;

/// What a step reports. Numbers that are no counts are held by their binary64 encodings.
#[derive(Clone, Copy, Default)]
pub struct VdmMetrics {
    pub tick: i64,
    pub n_walkers: u64,
    pub n_active: u64,
    pub n_warm: u64,
    pub n_computed: u64,
    pub bonds_instantiated: u64,
    pub bonds_removed: u64,
    pub bonds_total: u64,
    pub k_t: Bits,
    pub phi_mean: Bits,
    pub phi_var: Bits,
    pub phi_dot_max: Bits,
    pub mean_degree: Bits,
    pub stimulus_active: u64,
    pub n_observed: u64,
    pub n_unsettled: u64,
}

/// The largest speed among the listed nodes; 0 where none has one that is a number.
pub open spec fn top_speed(phi_dot: Seq<Bits>, list: Seq<usize>) -> Bits
    decreases list.len(),
{
    if list.len() == 0 {
        ZERO
    } else {
        let below = top_speed(phi_dot, list.drop_last());
        let speed = magnitude_of(phi_dot[list.last() as int]);
        if is_less(below, speed) {
            speed
        } else {
            below
        }
    }
}

/// `x` where there are nodes, else 0.
pub open spec fn over_nodes(s: State, x: Bits) -> Bits {
    if s.n() > 0 {
        x
    } else {
        ZERO
    }
}

/// The report on the step that `plan` and `counts` describe and that led to `s`.
pub open spec fn metrics_of(
    s: State,
    plan: StepPlan,
    counts: BondCounts,
    phi_mean: Bits,
    spread: Bits,
    mean_degree: Bits,
) -> VdmMetrics {
    VdmMetrics {
        tick: s.tick as i64,
        n_walkers: plan.n_walkers as u64,
        n_active: plan.active_list@.len() as u64,
        n_warm: plan.n_warm as u64,
        n_computed: plan.compute_list@.len() as u64,
        bonds_instantiated: counts.instantiated as u64,
        bonds_removed: counts.removed as u64,
        bonds_total: (s.directed_edge_count / 2) as u64,
        k_t: s.k_t,
        phi_mean: over_nodes(s, phi_mean),
        phi_var: over_nodes(s, positive_part(spread)),
        phi_dot_max: top_speed(s.phi_dot, plan.compute_list@),
        mean_degree: over_nodes(s, mean_degree),
        stimulus_active: plan.n_stimulated as u64,
        n_observed: s.observed.len() as u64,
        n_unsettled: s.unsettled.len() as u64,
    }
}

impl NativeConnectome {
    /// The largest speed among the listed nodes.
    fn phi_dot_max(&self, list: &[usize]) -> (most: Bits)
        requires
            self.wf(),
            is_node_list(self@, list@),
        ensures
            most == top_speed(self@.phi_dot, list@),
    {
        let mut most: Bits = ZERO;
        assert(list@.take(0) =~= Seq::empty());
        for k in 0..list.len()
            invariant
                self.wf(),
                is_node_list(self@, list@),
                most == top_speed(self@.phi_dot, list@.take(k as int)),
        {
            assert(list@.take(k + 1).drop_last() =~= list@.take(k as int));
            let speed = magnitude(self.phi_dot[list[k]]);
            if less(most, speed) {
                most = speed;
            }
        }
        assert(list@.take(list@.len() as int) =~= list@);
        most
    }

    /// The report on a step, once it has ended. `phi_mean` and `mean_degree` are the means over the
    /// nodes, and `spread` the mean of the squared field less the square of its mean, which counts
    /// as 0 where it is not positive.
    pub fn metrics(
        &self,
        plan: &StepPlan,
        counts: &BondCounts,
        phi_mean: Bits,
        spread: Bits,
        mean_degree: Bits,
    ) -> (m: VdmMetrics)
        requires
            self.wf(),
            is_node_list(self@, plan.compute_list@),
        ensures
            m == metrics_of(self@, *plan, *counts, phi_mean, spread, mean_degree),
    {
        let populated = self.graph.len() > 0;
        VdmMetrics {
            tick: self.tick as i64,
            n_walkers: plan.n_walkers as u64,
            n_active: plan.active_list.len() as u64,
            n_warm: plan.n_warm as u64,
            n_computed: plan.compute_list.len() as u64,
            bonds_instantiated: counts.instantiated as u64,
            bonds_removed: counts.removed as u64,
            bonds_total: (self.graph.directed_edge_count() / 2) as u64,
            k_t: self.k_t,
            phi_mean: if populated { phi_mean } else { ZERO },
            phi_var: if populated { max_zero(spread) } else { ZERO },
            phi_dot_max: self.phi_dot_max(plan.compute_list.as_slice()),
            mean_degree: if populated { mean_degree } else { ZERO },
            stimulus_active: plan.n_stimulated as u64,
            n_observed: self.observed_nodes.len() as u64,
            n_unsettled: self.unsettled_nodes.len() as u64,
        }
    }
}

} // verus!
