use native_connectome::binary64::{HALF, ONE, ZERO};
use native_connectome::connectome::advance::max_zero;
use native_connectome::connectome::{
    bond_decoherence_floor, ColdUpdate, Draw, NativeConnectome, DRIVE_FLOOR, WEIGHT_FLOOR,
};
use native_connectome::graph::Graph;
use native_connectome::members::ascending_members;

fn bits(x: f64) -> u64 {
    x.to_bits()
}

fn all_bits(values: &[f64]) -> Vec<u64> {
    values.iter().map(|x| x.to_bits()).collect()
}

/// Node 1 with bonds to 0, 2 and 3, and a bond between 2 and 3; node 4 alone.
fn small() -> NativeConnectome {
    let graph = Graph::new(5, &[(1, 0, ONE), (1, 2, ONE), (1, 3, ONE), (2, 3, ONE)]);
    let levels = all_bits(&[1.0 / 3.0, 1.0, 2.0 / 3.0, 2.0 / 3.0, 0.0]);
    NativeConnectome::new(graph, levels, bits(2.5), bits(2.0), bits(0.5), bits(4.0))
}

#[test]
fn floors_encode_their_values() {
    assert_eq!(DRIVE_FLOOR, 1e-15f64.to_bits());
    assert_eq!(WEIGHT_FLOOR, 1e-30f64.to_bits());
}

#[test]
fn new_observes_the_boundary() {
    let conn = small();
    assert_eq!(conn.len(), 5);
    assert_eq!(conn.graph().directed_edge_count(), 8);
    assert_eq!(conn.last_visit(), &vec![0, -1, 0, 0, 0]);
    assert_eq!(ascending_members(conn.observed()), vec![0, 2, 3, 4]);
    assert_eq!(ascending_members(conn.unsettled()), vec![0, 2, 3]);
    assert_eq!(conn.phi_curr(), conn.phi_prev());
    assert_eq!(conn.phi_curr()[2], bits(2.0 / 3.0));
    assert_eq!(conn.phi_dot(), &vec![ZERO; 5]);
    assert_eq!(conn.debt(), &vec![ZERO; 5]);
    assert_eq!(conn.j_ext(), &vec![ZERO; 5]);
    assert_eq!(conn.k_t(), ZERO);
    assert_eq!(conn.phi_sum(), bits(2.5));
    assert_eq!(conn.phi_sumsq(), bits(2.0));
    assert_eq!(conn.transport_renormalization(), bits(0.5));
}

#[test]
fn new_without_bonds_observes_everyone() {
    let conn = NativeConnectome::new(Graph::new(2, &[]), vec![ZERO; 2], ZERO, ZERO, ONE, ONE);
    assert_eq!(conn.last_visit(), &vec![0, 0]);
    assert_eq!(ascending_members(conn.observed()), vec![0, 1]);
    assert!(conn.unsettled().is_empty());
}

#[test]
fn new_with_equal_nodes_observes_nobody() {
    let graph = Graph::new(3, &[(0, 1, ONE), (1, 2, ONE), (2, 0, ONE)]);
    let conn = NativeConnectome::new(graph, vec![ONE; 3], bits(3.0), bits(3.0), ONE, ONE);
    assert_eq!(conn.last_visit(), &vec![-1, -1, -1]);
    assert!(conn.observed().is_empty());
}

#[test]
fn stimulates_in_order() {
    let mut conn = small();
    conn.stimulate(
        &[2, -1, 0, 9, 2, 3],
        &all_bits(&[0.5, 1.0, -0.25, 1.0, 0.125, 1e-15]),
    );
    assert_eq!(conn.j_ext(), &all_bits(&[-0.25, 0.0, 0.125, 1e-15, 0.0]));
    let start = conn.begin_step(1);
    assert_eq!(start.stim_nodes, vec![0, 2]);
    assert_eq!(start.candidates, vec![0, 2, 3]);
}

#[test]
fn stimulates_as_far_as_both_lists_go() {
    let mut conn = small();
    conn.stimulate(&[0, 1, 2], &[ONE]);
    assert_eq!(conn.j_ext(), &vec![ONE, ZERO, ZERO, ZERO, ZERO]);
    conn.stimulate(&[4], &[HALF, HALF]);
    assert_eq!(conn.j_ext(), &vec![ONE, ZERO, ZERO, ZERO, HALF]);
}

#[test]
fn stimulating_in_two_calls_is_stimulating_in_one() {
    let indices = [3, 0, 3, 1];
    let amplitudes = all_bits(&[0.5, 0.25, -1.0, 2.0]);
    let mut once = small();
    once.stimulate(&indices, &amplitudes);
    for k in 0..=indices.len() {
        let mut twice = small();
        twice.stimulate(&indices[..k], &amplitudes[..k]);
        twice.stimulate(&indices[k..], &amplitudes[k..]);
        assert_eq!(twice.j_ext(), once.j_ext());
        assert_eq!(twice.begin_step(0).stim_nodes, once.begin_step(0).stim_nodes);
    }
    assert_eq!(once.phi_curr(), small().phi_curr());
    assert_eq!(once.observed(), small().observed());
}

#[test]
fn a_drive_taken_back_is_no_stimulus() {
    let mut conn = small();
    conn.stimulate(&[4, 4], &[ONE, ZERO]);
    assert_eq!(conn.begin_step(3).stim_nodes, Vec::<usize>::new());
}

#[test]
fn a_drive_that_is_no_number_is_no_stimulus() {
    let mut conn = small();
    conn.stimulate(&[4], &[f64::NAN.to_bits()]);
    assert_eq!(conn.begin_step(3).stim_nodes, Vec::<usize>::new());
}

#[test]
fn picks_the_first_share_that_is_reached() {
    let conn = small();
    let cdf = all_bits(&[0.25, 0.5, 1.0]);
    let pick = |u: f64| {
        conn.select_neighbor(1, &Draw { w_sum: bits(1.5), u: bits(u), cdf: cdf.clone() })
    };
    assert_eq!(pick(0.0), Some(0));
    assert_eq!(pick(0.25), Some(0));
    assert_eq!(pick(0.26), Some(2));
    assert_eq!(pick(0.5), Some(2));
    assert_eq!(pick(0.75), Some(3));
    assert_eq!(pick(2.0), Some(3));
    assert_eq!(pick(f64::NAN), Some(3));
}

#[test]
fn picks_nobody_without_weight() {
    let conn = small();
    let cdf = all_bits(&[0.25, 0.5, 1.0]);
    let light = Draw { w_sum: bits(9e-31), u: ZERO, cdf: cdf.clone() };
    assert_eq!(conn.select_neighbor(1, &light), None);
    let enough = Draw { w_sum: bits(1e-30), u: ZERO, cdf };
    assert_eq!(conn.select_neighbor(1, &enough), Some(0));
    let none = Draw { w_sum: ONE, u: ZERO, cdf: Vec::new() };
    assert_eq!(conn.select_neighbor(4, &none), None);
}

#[test]
fn a_node_is_cold_after_more_than_one_tick() {
    let mut conn = small();
    conn.begin_step(1);
    assert_eq!(conn.cold_gap(0), None);
    conn.begin_step(2);
    assert_eq!(conn.cold_gap(0), Some(2));
    assert_eq!(conn.cold_gap(1), None);
    conn.begin_step(i32::MAX);
    assert_eq!(conn.cold_gap(0), Some(i32::MAX));
    conn.begin_step(-5);
    assert_eq!(conn.cold_gap(0), None);
}

#[test]
fn takes_in_what_happened_out_of_sight() {
    let mut conn = small();
    let update = ColdUpdate {
        phi_curr: bits(0.9),
        phi_prev: bits(0.8),
        debt: bits(0.7),
        phi_sum: bits(0.6),
        phi_sumsq: bits(0.5),
        psi: all_bits(&[0.4, 0.3]),
    };
    conn.measure_cold_node(2, 1, &update);
    assert_eq!(conn.phi_curr(), small().phi_curr());
    conn.measure_cold_node(2, 2, &update);
    assert_eq!(conn.phi_curr()[2], bits(0.9));
    assert_eq!(conn.phi_prev()[2], bits(0.8));
    assert_eq!(conn.debt()[2], bits(0.7));
    assert_eq!(conn.phi_sum(), bits(0.6));
    assert_eq!(conn.phi_sumsq(), bits(0.5));
    let row = conn.graph().row(2);
    assert_eq!((row[0].target, row[0].psi_curr, row[0].psi_prev), (1, bits(0.4), HALF));
    assert_eq!((row[1].target, row[1].psi_curr, row[1].psi_prev), (3, bits(0.3), HALF));
    assert_eq!(conn.last_visit()[2], 0);
}

#[test]
fn a_node_never_visited_counts_from_zero() {
    let mut conn = small();
    let update = ColdUpdate {
        phi_curr: HALF,
        phi_prev: HALF,
        debt: HALF,
        phi_sum: HALF,
        phi_sumsq: HALF,
        psi: vec![HALF; 3],
    };
    conn.measure_cold_node(1, 1, &update);
    assert_eq!(conn.phi_curr()[1], ONE);
    conn.measure_cold_node(1, 2, &update);
    assert_eq!(conn.phi_curr()[1], HALF);
}

#[test]
fn a_visit_marks_the_node() {
    let mut conn = small();
    conn.begin_step(7);
    conn.visit(1, None);
    assert_eq!(conn.last_visit()[1], 7);
    assert!(conn.observed().contains(&1));
    let update = ColdUpdate {
        phi_curr: HALF,
        phi_prev: HALF,
        debt: HALF,
        phi_sum: HALF,
        phi_sumsq: HALF,
        psi: vec![HALF],
    };
    conn.visit(0, Some(update));
    assert_eq!(conn.last_visit()[0], 7);
    assert_eq!(conn.phi_curr()[0], HALF);
}

#[test]
fn at_rest_the_floor_is_zero() {
    assert_eq!(bond_decoherence_floor(ZERO, ONE), ZERO);
    assert_eq!(bond_decoherence_floor(bits(-0.0), ONE), ZERO);
    assert_eq!(bond_decoherence_floor(bits(-1.0), ONE), ZERO);
    assert_eq!(bond_decoherence_floor(bits(1e-9), ONE), ONE);
}

#[test]
fn at_rest_no_bond_breaks() {
    let mut conn = small();
    assert_eq!(conn.decohere_bonds(&[0, 1, 2, 3], bits(0.9)), 0);
    assert_eq!(conn.graph().directed_edge_count(), 8);
}

#[test]
fn the_positive_part() {
    assert_eq!(max_zero(bits(0.25)), bits(0.25));
    assert_eq!(max_zero(bits(-0.25)), ZERO);
    assert_eq!(max_zero(f64::NAN.to_bits()), ZERO);
    assert_eq!(max_zero(bits(-0.0)), ZERO);
}

#[test]
fn the_order_of_entries_does_not_matter() {
    let a = [(0, 1, ONE), (1, 2, HALF), (1, 3, ONE), (3, 4, HALF)];
    let b = [
        (3, 1, ONE),
        (2, 2, ONE),
        (4, 3, HALF),
        (2, 1, HALF),
        (9, 0, ONE),
        (1, 2, HALF),
        (1, 0, ONE),
    ];
    let levels = all_bits(&[1.0 / 3.0, 1.0, 1.0 / 3.0, 2.0 / 3.0, 1.0 / 3.0]);
    let make = |edges: &[(usize, usize, u64)]| {
        NativeConnectome::new(Graph::new(5, edges), levels.clone(), ONE, ONE, ONE, ONE)
    };
    let (x, y) = (make(&a), make(&b));
    assert_eq!(x.last_visit(), y.last_visit());
    assert_eq!(x.observed(), y.observed());
    assert_eq!(x.unsettled(), y.unsettled());
    assert_eq!(x.graph().directed_edge_count(), y.graph().directed_edge_count());
    for u in 0..5 {
        let held = |conn: &NativeConnectome| {
            let mut row: Vec<(usize, u64)> =
                conn.graph().row(u).iter().map(|e| (e.target, e.geom_weight)).collect();
            row.sort();
            row
        };
        assert_eq!(held(&x), held(&y));
    }
}

#[test]
fn new_nodes_are_unsettled_by_degree() {
    let edges = [(0, 1, ONE), (0, 2, ONE), (0, 3, ONE), (1, 2, ONE)];
    let graph = Graph::new(6, &edges);
    let most = graph.max_degree();
    let degrees: Vec<usize> = (0..6).map(|i| graph.row(i).len()).collect();
    assert_eq!(degrees, vec![3, 2, 2, 1, 0, 0]);
    let levels: Vec<f64> = degrees.iter().map(|d| *d as f64 / most as f64).collect();
    let conn = NativeConnectome::new(graph, all_bits(&levels), ZERO, ZERO, ONE, ONE);
    for i in 0..6 {
        assert_eq!(conn.observed().contains(&i), degrees[i] < most);
        assert_eq!(conn.unsettled().contains(&i), 0 < degrees[i] && degrees[i] < most);
    }
}
