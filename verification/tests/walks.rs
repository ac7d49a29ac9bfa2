use native_connectome::binary64::{HALF, ONE, ZERO};
use native_connectome::connectome::advance::StepNumbers;
use native_connectome::connectome::gauge::Cursor;
use native_connectome::connectome::run::Step;
use native_connectome::connectome::step::StepPlan;
use native_connectome::connectome::{ColdUpdate, Draw, NativeConnectome};
use native_connectome::graph::Graph;
use std::collections::BTreeSet;

fn bits(x: f64) -> u64 {
    x.to_bits()
}

/// The numbers by which a step changes nothing but the speeds and the temperature.
fn numbers(conn: &NativeConnectome, plan: &StepPlan, speeds: &[f64], half_var: f64) -> StepNumbers {
    let list = &plan.compute_list;
    StepNumbers {
        phi_raw: list.iter().map(|&i| conn.phi_curr()[i]).collect(),
        bond_raw: list
            .iter()
            .map(|&i| conn.graph().row(i).iter().map(|e| e.psi_curr).collect())
            .collect(),
        debt: list.iter().map(|&i| conn.debt()[i]).collect(),
        phi_dot: speeds.iter().map(|x| x.to_bits()).collect(),
        phi_sum: conn.phi_sum(),
        phi_sumsq: conn.phi_sumsq(),
        floor_root: ZERO,
        half_var: bits(half_var),
        pos_thresh: ZERO,
        vel_thresh: ZERO,
    }
}

fn plan_of(next: Step) -> StepPlan {
    match next {
        Step::Compute(plan) => plan,
        _ => panic!("the step asks for more"),
    }
}

/// A path of 6 nodes, all unsettled, with the given speeds and a temperature above rest.
fn moving(speeds: &[f64]) -> NativeConnectome {
    let edges: Vec<(usize, usize, u64)> = (0..5).map(|i| (i, i + 1, ONE)).collect();
    let graph = Graph::new(6, &edges);
    let mut conn = NativeConnectome::new(graph, vec![HALF; 6], ZERO, ZERO, ONE, ONE);
    conn.stimulate(&[0, 1, 2, 3, 4, 5], &[ONE; 6]);
    let start = conn.begin_step(1);
    let plan = plan_of(conn.emit(start, &[ZERO; 6], ZERO, ZERO));
    assert_eq!(plan.compute_list, vec![0, 1, 2, 3, 4, 5]);
    let n = numbers(&conn, &plan, speeds, 0.5);
    conn.advance(&plan, &n);
    assert_eq!(conn.k_t(), HALF);
    assert_eq!(conn.unsettled().len(), 6);
    conn
}

/// The draw that picks the neighbor at `place` of `node`.
fn to_place(conn: &NativeConnectome, node: usize, place: usize) -> Draw {
    let n = conn.graph().row(node).len();
    Draw {
        w_sum: ONE,
        u: bits(place as f64 + 1.0),
        cdf: (0..n).map(|k| bits(k as f64 + 1.0)).collect(),
    }
}

#[test]
fn walkers_take_turns() {
    let mut conn = moving(&[2.0; 6]);
    let start = conn.begin_step(2);
    assert_eq!(start.candidates, vec![0, 1, 2, 3, 4, 5]);
    let ratios: Vec<u64> = [0.5, 2.0, 0.0, 1.5, -1.0, 0.0].iter().map(|x| bits(*x)).collect();
    let mut next = conn.emit(start, &ratios, ONE, bits(2.5));
    let mut path = Vec::new();
    let mut last = None;
    loop {
        match next {
            Step::Walk(walk) => {
                let at = walk.run.pending().expect("a walker is under way");
                let here = (at.slot, at.emission, at.hop);
                assert!(last < Some(here));
                last = Some(here);
                path.push((at.slot, at.emission, at.hop, at.node));
                assert_eq!(walk.run.hop_count(&conn), path.len() - 1);
                let draw = to_place(&conn, at.node, conn.graph().row(at.node).len() - 1);
                next = conn.hop(walk, &draw);
            }
            Step::Visit(_) => panic!("every node was in sight"),
            Step::Compute(plan) => {
                assert_eq!(plan.n_walkers, 6);
                assert_eq!(plan.active_list, vec![1, 2, 3, 4, 5]);
                assert_eq!(plan.compute_list, vec![0, 1, 2, 3, 4, 5]);
                assert_eq!(plan.n_warm, 1);
                assert_eq!(plan.bond_pairs, vec![(1, 3), (2, 4), (3, 5)]);
                break;
            }
        }
    }
    assert_eq!(
        path,
        vec![
            (1, 0, 0, 1),
            (1, 0, 1, 2),
            (1, 1, 0, 1),
            (1, 1, 1, 2),
            (3, 0, 0, 3),
            (3, 0, 1, 4),
        ]
    );
}

#[test]
fn a_walker_stops_at_a_slow_node() {
    let mut conn = moving(&[2.0, 2.0, 1.0, 2.0, 2.0, 2.0]);
    let start = conn.begin_step(2);
    let ratios = [ZERO, ONE, ZERO, ZERO, ZERO, ZERO];
    let next = conn.emit(start, &ratios, ONE, bits(9.0));
    let Step::Walk(walk) = next else { panic!("node 1 emits") };
    let draw = to_place(&conn, 1, 1);
    let plan = plan_of(conn.hop(walk, &draw));
    assert_eq!(plan.n_walkers, 1);
    assert_eq!(plan.active_list, vec![1, 2]);
    assert_eq!(plan.bond_pairs, vec![(1, 3)]);
}

#[test]
fn a_walker_with_nowhere_to_go_ends() {
    let mut conn = moving(&[2.0; 6]);
    let start = conn.begin_step(2);
    let ratios = [ZERO, ZERO, ZERO, ZERO, ZERO, ONE];
    let next = conn.emit(start, &ratios, ONE, bits(9.0));
    let Step::Walk(walk) = next else { panic!("node 5 emits") };
    let plan = plan_of(conn.hop(walk, &Draw { w_sum: ZERO, u: ZERO, cdf: vec![ONE] }));
    assert_eq!(plan.n_walkers, 0);
    assert_eq!(plan.active_list, vec![5]);
    assert_eq!(plan.bond_pairs, Vec::<(usize, usize)>::new());
}

#[test]
fn slow_nodes_propose_nothing() {
    let mut conn = moving(&[2.0, 1.0, 2.0, 2.0, 2.0, 2.0]);
    let start = conn.begin_step(2);
    let ratios = [ZERO, ONE, ZERO, ZERO, ZERO, ZERO];
    let next = conn.emit(start, &ratios, ONE, ONE);
    let Step::Walk(walk) = next else { panic!("node 1 emits") };
    let draw = to_place(&conn, 1, 1);
    let plan = plan_of(conn.hop(walk, &draw));
    assert_eq!(plan.active_list, vec![1, 2]);
    assert_eq!(plan.bond_pairs, Vec::<(usize, usize)>::new());
}

#[test]
fn a_reach_below_one_is_one_hop() {
    let mut conn = moving(&[2.0; 6]);
    let start = conn.begin_step(2);
    let ratios = [ONE, ZERO, ZERO, ZERO, ZERO, ZERO];
    let next = conn.emit(start, &ratios, ONE, bits(0.25));
    let Step::Walk(walk) = next else { panic!("node 0 emits") };
    let draw = to_place(&conn, 0, 0);
    let plan = plan_of(conn.hop(walk, &draw));
    assert_eq!(plan.n_walkers, 1);
    assert_eq!(plan.bond_pairs, vec![(0, 2)]);
}

#[test]
fn nobody_is_fast_at_a_threshold_of_zero() {
    let mut conn = moving(&[2.0; 6]);
    let start = conn.begin_step(2);
    let plan = plan_of(conn.emit(start, &[ONE; 6], ZERO, ONE));
    assert_eq!(plan.n_walkers, 0);
    assert_eq!(plan.active_list, Vec::<usize>::new());
}

#[test]
fn nodes_out_of_sight_are_caught_up_with() {
    let mut conn = moving(&[2.0; 6]);
    let start = conn.begin_step(5);
    let ratios = [ZERO, ONE, ZERO, ZERO, ZERO, ZERO];
    let next = conn.emit(start, &ratios, ONE, ONE);
    let Step::Walk(walk) = next else { panic!("node 1 emits") };
    let draw = to_place(&conn, 1, 0);
    let mut next = conn.hop(walk, &draw);
    for node in 0..2 {
        let Step::Visit(visits) = next else { panic!("the node was out of sight") };
        assert_eq!(visits.plan.active_list, vec![0, 1]);
        assert_eq!(visits.next, node);
        assert_eq!(conn.cold_gap(node), Some(4));
        let update = ColdUpdate {
            phi_curr: bits(0.25),
            phi_prev: bits(0.125),
            debt: bits(3.0),
            phi_sum: bits(7.0),
            phi_sumsq: bits(8.0),
            psi: vec![bits(0.75); conn.graph().row(node).len()],
        };
        next = conn.catch_up(visits, update);
        assert_eq!(conn.last_visit()[node], 5);
        assert_eq!(conn.phi_curr()[node], bits(0.25));
        assert_eq!(conn.phi_prev()[node], bits(0.125));
        assert_eq!(conn.debt()[node], bits(3.0));
        assert!(conn.graph().row(node).iter().all(|e| e.psi_curr == bits(0.75)));
    }
    assert_eq!(conn.phi_sum(), bits(7.0));
    assert_eq!(conn.phi_sumsq(), bits(8.0));
    let plan = plan_of(next);
    assert_eq!(plan.active_list, vec![0, 1]);
    assert!(conn.graph().has_bond(0, 1) && conn.graph().has_bond(1, 0));
    assert_eq!(conn.last_visit(), &vec![5, 5, 1, 1, 1, 1]);
}

#[test]
fn a_step_moves_everything_on() {
    let mut conn = moving(&[2.0, 0.5, 0.25, 2.0, 2.0, 2.0]);
    conn.stimulate(&[3], &[ONE]);
    let start = conn.begin_step(2);
    let plan = plan_of(conn.emit(start, &[ZERO; 6], ONE, ONE));
    let mut n = numbers(&conn, &plan, &[0.5, -0.75, 0.25, 0.0, 0.0, 0.0], 0.125);
    n.phi_raw = [0.5, 1.5, -0.5, 0.7, 1.0, 0.25].iter().map(|x| bits(*x)).collect();
    n.bond_raw[0] = vec![bits(0.01)];
    n.bond_raw[1] = vec![bits(2.0), bits(0.02)];
    n.debt = [1.0, 2.0, 3.0, 4.0, 5.0, 6.0].iter().map(|x| bits(*x)).collect();
    n.phi_sum = bits(2.75);
    n.phi_sumsq = bits(2.3125);
    n.floor_root = bits(0.1);
    n.pos_thresh = bits(0.25);
    n.vel_thresh = bits(0.5);
    let counts = conn.advance(&plan, &n);
    assert_eq!((counts.instantiated, counts.removed), (0, 2));
    assert_eq!(conn.phi_curr(), &[0.5, 1.0, 0.0, 0.7, 1.0, 0.25].map(bits).to_vec());
    assert_eq!(conn.phi_prev(), &vec![HALF; 6]);
    assert_eq!(conn.phi_dot()[1], bits(-0.75));
    assert_eq!(conn.debt(), &[1.0, 2.0, 3.0, 4.0, 5.0, 6.0].map(bits).to_vec());
    assert_eq!(conn.unsettled().iter().copied().collect::<Vec<_>>(), vec![0, 1, 3]);
    assert_eq!(conn.k_t(), bits(0.125));
    assert_eq!(conn.phi_sum(), bits(2.75));
    assert_eq!(conn.j_ext(), &vec![ZERO; 6]);
    assert_eq!(conn.graph().row(0).len(), 0);
    assert_eq!(conn.graph().row(1).len(), 0);
    assert_eq!(conn.graph().row(2).len(), 1);
    assert_eq!(conn.graph().directed_edge_count(), 6);
    let m = conn.metrics(&plan, &counts, bits(0.5), bits(-1.0), ONE);
    assert_eq!(m.tick, 2);
    assert_eq!((m.n_active, m.n_warm, m.n_computed), (1, 2, 6));
    assert_eq!((m.bonds_instantiated, m.bonds_removed, m.bonds_total), (0, 2, 3));
    assert_eq!((m.k_t, m.phi_mean, m.phi_var), (bits(0.125), bits(0.5), ZERO));
    assert_eq!((m.phi_dot_max, m.mean_degree), (bits(0.75), ONE));
    assert_eq!((m.stimulus_active, m.n_observed, m.n_unsettled), (1, 6, 3));
}

#[test]
fn one_node_has_no_variance() {
    let graph = Graph::new(3, &[(0, 1, ONE)]);
    let levels = vec![ONE, ONE, HALF];
    let mut conn = NativeConnectome::new(graph, levels, ZERO, ZERO, ONE, ONE);
    let start = conn.begin_step(1);
    assert_eq!(start.candidates, vec![2]);
    let plan = plan_of(conn.emit(start, &[ZERO], ZERO, ZERO));
    assert_eq!(plan.compute_list, vec![2]);
    assert_eq!(conn.next_k_t(&plan.compute_list, ONE), ZERO);
    assert_eq!(conn.next_k_t(&[0, 2], ONE), ONE);
    assert_eq!(conn.next_k_t(&[0, 2], bits(f64::NAN)), ZERO);
    let n = numbers(&conn, &plan, &[0.0; 3], 1.0);
    conn.advance(&plan, &n);
    assert_eq!(conn.k_t(), ZERO);
}

#[test]
fn proposed_bonds_start_without_strength() {
    let mut conn = moving(&[2.0; 6]);
    let start = conn.begin_step(2);
    let ratios = [ONE, ZERO, ZERO, ZERO, ZERO, ZERO];
    let next = conn.emit(start, &ratios, ONE, ONE);
    let Step::Walk(walk) = next else { panic!("node 0 emits") };
    let draw = to_place(&conn, 0, 0);
    let plan = plan_of(conn.hop(walk, &draw));
    let n = numbers(&conn, &plan, &[0.0; 6], 0.0);
    let counts = conn.advance(&plan, &n);
    assert_eq!((counts.instantiated, counts.removed), (1, 0));
    let edge = conn.graph().row(2)[2];
    assert_eq!((edge.target, edge.psi_curr, edge.geom_weight), (0, ZERO, ONE));
    assert_eq!(conn.graph().directed_edge_count(), 12);
}

#[test]
fn draws_are_numbered_by_emission_and_hop() {
    let at = |emission: usize, hop: usize| Cursor { slot: 0, emission, hop, node: 0 };
    assert_eq!(at(3, 4).emit_index(), Some(7));
    assert_eq!(at(usize::MAX, 0).emit_index(), Some(usize::MAX));
    assert_eq!(at(usize::MAX, 1).emit_index(), None);
}

/// The hops, active nodes and proposed bonds of the gauge step of the given candidates. Which
/// neighbor a draw picks depends on the node and the index of the draw.
fn gauge_of(
    conn: &NativeConnectome,
    candidates: &[usize],
) -> (usize, BTreeSet<usize>, BTreeSet<(usize, usize)>) {
    let ratios: Vec<u64> = candidates.iter().map(|&i| bits((i % 3) as f64 + 0.5)).collect();
    let mut run = conn.run_gauge_step(candidates.to_vec(), &ratios, ONE, bits(3.0));
    while let Some(at) = run.pending() {
        let index = at.emit_index().expect("a count");
        let places = conn.graph().row(at.node).len();
        let draw = to_place(conn, at.node, (at.node + index) % places);
        run.propagate_one(conn, &draw);
    }
    let outcome = run.finish(conn);
    (outcome.n_walkers, outcome.active, outcome.bond_pairs)
}

#[test]
fn walkers_are_independent() {
    let conn = moving(&[2.0, 2.0, 1.5, 0.5, 2.0, 2.0]);
    let everyone: Vec<usize> = (0..6).collect();
    let (walkers, active, pairs) = gauge_of(&conn, &everyone);
    assert!(walkers > 0);
    for mask in 0..64usize {
        let (c, d): (Vec<usize>, Vec<usize>) =
            everyone.iter().copied().partition(|i| mask >> i & 1 == 1);
        let (wc, ac, pc) = gauge_of(&conn, &c);
        let (wd, ad, pd) = gauge_of(&conn, &d);
        assert_eq!(walkers, wc + wd);
        assert_eq!(active, ac.union(&ad).copied().collect());
        assert_eq!(pairs, pc.union(&pd).copied().collect());
    }
}

#[test]
fn nodes_that_are_not_computed_are_still() {
    let nan = f64::NAN.to_bits();
    let graph = Graph::new(4, &[(0, 1, ONE)]);
    let levels = vec![nan, ONE, HALF, ZERO];
    let mut conn = NativeConnectome::new(graph, levels, ZERO, ZERO, ONE, ONE);
    let start = conn.begin_step(1);
    let plan = plan_of(conn.emit(start, &[ZERO], ZERO, ZERO));
    assert_eq!(plan.compute_list, vec![2]);
    let mut n = numbers(&conn, &plan, &[0.0, 0.75, -0.25, 0.5], 0.0);
    n.phi_dot[0] = nan;
    conn.advance(&plan, &n);
    assert_eq!(conn.phi_dot(), &vec![nan, ZERO, bits(-0.25), ZERO]);
    assert_eq!(conn.phi_curr()[1], conn.phi_prev()[1]);
}
