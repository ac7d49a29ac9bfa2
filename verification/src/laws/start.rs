//! What holds of a new connectome.

use crate::binary64::{
    is_finite, is_less, is_off_well, lemma_one, lemma_size_increases, unit, units, Bits, INFINITE,
    ONE, ZERO,
};
use crate::connectome::{is_boundary, lemma_boundary, new_state};
use crate::graph::{degree_sum, is_max_degree, Rows};
use crate::laws::numbers::in_unit;
use vstd::prelude::*;

verus! {

/// Whether `levels` are as shares of the largest degree are: 0 without a bond, 1 at the largest
/// degree, and strictly between for the degrees between.
pub open spec fn are_levels(g: Rows, levels: Seq<Bits>) -> bool {
    &&& levels.len() == g.len()
    &&& forall|i: int|
        0 <= i < g.len() ==> if g[i].len() == 0 {
            #[trigger] levels[i] == ZERO
        } else if is_boundary(g, i) {
            is_less(ZERO, levels[i]) && is_less(levels[i], ONE)
        } else {
            levels[i] == ONE
        }
}

/// A number strictly between 0 and 1 is no integer.
proof fn lemma_between_is_off_well(x: Bits)
    requires
        is_less(ZERO, x),
        is_less(x, ONE),
    ensures
        is_off_well(x),
{
    lemma_one();
    assert(is_finite(x)) by {
        if !is_finite(x) {
            lemma_size_increases(ONE as int, INFINITE as int);
        }
    }
    assert forall|k: int| units(x) != #[trigger] (k * unit()) by {
        if k <= 0 {
            assert(k * unit() <= 0) by (nonlinear_arith)
                requires
                    k <= 0,
                    unit() > 0,
            ;
        } else {
            assert(k * unit() >= unit()) by (nonlinear_arith)
                requires
                    k >= 1,
                    unit() > 0,
            ;
        }
    }
}

/// In a new connectome whose field holds levels, just those nodes are observed that have fewer bonds
/// than the largest number `most`, just those of them are unsettled that have any, and the field
/// lies between 0 and 1.
pub proof fn law_new_nodes_by_degree(
    g: Rows,
    levels: Seq<Bits>,
    phi_sum: Bits,
    phi_sumsq: Bits,
    transport_renormalization: Bits,
    dynamic_bond_geom_weight: Bits,
    most: nat,
)
    requires
        are_levels(g, levels),
        is_max_degree(g, most),
    ensures
        ({
            let s = new_state(
                g,
                levels,
                phi_sum,
                phi_sumsq,
                transport_renormalization,
                dynamic_bond_geom_weight,
            );
            &&& forall|i: usize| #[trigger]
                s.observed.contains(i) <==> i < g.len() && g[i as int].len() < most
            &&& forall|i: usize| #[trigger]
                s.unsettled.contains(i) <==> i < g.len() && 0 < g[i as int].len() < most
            &&& forall|i: int| 0 <= i < g.len() ==> in_unit(#[trigger] s.phi_curr[i])
            &&& forall|i: int|
                0 <= i < g.len() ==> (#[trigger] s.phi_curr[i] == ZERO <==> g[i].len() == 0) && (
                s.phi_curr[i] == ONE <==> g[i].len() == most)
        }),
{
    lemma_one();
    let s = new_state(
        g,
        levels,
        phi_sum,
        phi_sumsq,
        transport_renormalization,
        dynamic_bond_geom_weight,
    );
    assert forall|i: int| 0 <= i < g.len() implies (#[trigger] is_boundary(g, i) <==> g[i].len()
        < most) && (g[i].len() == 0 ==> levels[i] == ZERO) && is_off_well(levels[i]) == (0
        < g[i].len() < most) && in_unit(levels[i]) && (levels[i] == ZERO <==> g[i].len() == 0) && (
    levels[i] == ONE <==> g[i].len() == most) by {
        lemma_boundary(g, i, most);
        assert(g[i].len() <= most);
        assert(levels[i] == levels[i]);
        if 0 < g[i].len() < most {
            lemma_between_is_off_well(levels[i]);
        } else if g[i].len() == 0 {
            assert(units(levels[i]) == 0 * unit());
        } else {
            assert(units(levels[i]) == 1 * unit());
        }
    }
    assert forall|i: int| 0 <= i < g.len() implies in_unit(#[trigger] s.phi_curr[i]) by {
        assert(is_boundary(g, i) <==> g[i].len() < most);
    }
    assert forall|i: int| 0 <= i < g.len() implies (#[trigger] s.phi_curr[i] == ZERO
        <==> g[i].len() == 0) && (s.phi_curr[i] == ONE <==> g[i].len() == most) by {
        assert(is_boundary(g, i) <==> g[i].len() < most);
    }
}

/// In a new connectome every node has its level as its field, now and before, and neither a speed
/// nor a debt nor a drive. The nodes with fewer bonds than another one, or with none, are observed
/// and count as visited at tick 0; of these, those are unsettled whose levels are no integers.
pub proof fn law_new_state(
    g: Rows,
    levels: Seq<Bits>,
    phi_sum: Bits,
    phi_sumsq: Bits,
    transport_renormalization: Bits,
    dynamic_bond_geom_weight: Bits,
)
    requires
        degree_sum(g) <= usize::MAX,
    ensures
        ({
            let s = new_state(
                g,
                levels,
                phi_sum,
                phi_sumsq,
                transport_renormalization,
                dynamic_bond_geom_weight,
            );
            &&& s.rows == g
            &&& s.directed_edge_count == degree_sum(g)
            &&& s.phi_curr == levels
            &&& s.phi_prev == levels
            &&& s.phi_dot.len() == g.len() && forall|i: int|
                0 <= i < g.len() ==> #[trigger] s.phi_dot[i] == ZERO
            &&& s.debt.len() == g.len() && forall|i: int|
                0 <= i < g.len() ==> #[trigger] s.debt[i] == ZERO
            &&& s.j_ext.len() == g.len() && forall|i: int|
                0 <= i < g.len() ==> #[trigger] s.j_ext[i] == ZERO
            &&& s.j_ext_nonzero.is_empty()
            &&& s.last_visit.len() == g.len()
            &&& forall|i: int|
                0 <= i < g.len() ==> #[trigger] s.last_visit[i] == if g[i].len() == 0 || exists|
                    j: int,
                |
                    0 <= j < g.len() && (#[trigger] g[j]).len() > g[i].len() {
                    0i32
                } else {
                    -1i32
                }
            &&& forall|i: usize| #[trigger]
                s.observed.contains(i) <==> i < g.len() && (g[i as int].len() == 0 || exists|j: int|
                    0 <= j < g.len() && (#[trigger] g[j]).len() > g[i as int].len())
            &&& forall|i: usize| #[trigger]
                s.unsettled.contains(i) <==> s.observed.contains(i) && is_off_well(
                    levels[i as int],
                )
            &&& s.phi_sum == phi_sum
            &&& s.phi_sumsq == phi_sumsq
            &&& s.k_t == ZERO
            &&& s.tick == 0
            &&& s.transport_renormalization == transport_renormalization
            &&& s.dynamic_bond_geom_weight == dynamic_bond_geom_weight
        }),
{
}

} // verus!
