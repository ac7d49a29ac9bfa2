use native_connectome::binary64::{HALF, ONE, ZERO};
use native_connectome::graph::Graph;

fn targets(graph: &Graph, node: usize) -> Vec<usize> {
    graph.row(node).iter().map(|edge| edge.target).collect()
}

fn strengths(graph: &Graph, node: usize) -> Vec<f64> {
    graph.row(node).iter().map(|edge| f64::from_bits(edge.psi_curr)).collect()
}

fn weight(x: f64) -> u64 {
    x.to_bits()
}

/// Nodes 0 to 3 on a path, and node 4 alone.
fn path() -> Graph {
    Graph::new(5, &[(0, 1, ONE), (1, 2, ONE), (2, 3, ONE)])
}

#[test]
fn new_graph_passes_over_what_is_no_bond() {
    let graph = Graph::new(
        3,
        &[
            (0, 1, weight(0.25)),
            (1, 0, weight(0.75)),
            (1, 1, ONE),
            (2, 3, ONE),
            (7, 0, ONE),
            (2, 1, weight(2.0)),
        ],
    );
    assert_eq!(graph.len(), 3);
    assert_eq!(graph.directed_edge_count(), 4);
    assert_eq!(targets(&graph, 0), vec![1]);
    assert_eq!(targets(&graph, 1), vec![0, 2]);
    assert_eq!(targets(&graph, 2), vec![1]);
    assert_eq!(graph.row(0)[0].geom_weight, weight(0.25));
    assert_eq!(graph.row(1)[0].geom_weight, weight(0.25));
    assert_eq!(graph.row(1)[1].geom_weight, weight(2.0));
    assert_eq!(graph.row(0)[0].psi_curr, HALF);
    assert_eq!(graph.row(0)[0].psi_prev, HALF);
}

#[test]
fn bonds_are_the_listed_ones_in_any_order() {
    let a = Graph::new(4, &[(0, 1, ONE), (2, 3, ONE), (1, 3, ONE)]);
    let b = Graph::new(4, &[(3, 1, ONE), (3, 2, ONE), (1, 0, ONE), (0, 1, ONE)]);
    for u in 0..4 {
        for v in 0..4 {
            assert_eq!(a.has_bond(u, v), b.has_bond(u, v));
            assert_eq!(a.has_bond(u, v), a.has_bond(v, u));
        }
    }
    assert_eq!(a.directed_edge_count(), b.directed_edge_count());
}

#[test]
fn a_new_bond_stands_at_both_ends() {
    let mut graph = path();
    graph.add_bond(4, 0, ZERO, weight(3.0));
    assert!(graph.has_bond(4, 0));
    assert!(graph.has_bond(0, 4));
    assert!(!graph.has_bond(4, 1));
    assert_eq!(graph.directed_edge_count(), 8);
    assert_eq!(targets(&graph, 0), vec![1, 4]);
    assert_eq!(graph.row(4)[0].psi_curr, ZERO);
    assert_eq!(graph.row(4)[0].geom_weight, weight(3.0));
}

#[test]
fn the_largest_number_of_bonds_is_at_least_one() {
    assert_eq!(Graph::new(0, &[]).max_degree(), 1);
    assert_eq!(Graph::new(3, &[]).max_degree(), 1);
    assert_eq!(path().max_degree(), 2);
    assert_eq!(Graph::new(4, &[(1, 0, ONE), (1, 2, ONE), (1, 3, ONE)]).max_degree(), 3);
}

#[test]
fn strengths_are_set_in_place() {
    let mut graph = path();
    graph.set_strengths(1, &[weight(0.2), weight(7.0)]);
    assert_eq!(strengths(&graph, 1), vec![0.2, 7.0]);
    assert_eq!(graph.row(1)[0].psi_prev, HALF);
    assert_eq!(strengths(&graph, 0), vec![0.5]);
}

#[test]
fn strengths_move_on_clipped() {
    let mut graph = path();
    graph.advance_strengths(1, &[weight(1.25), weight(-0.5)]);
    assert_eq!(strengths(&graph, 1), vec![1.0, 0.0]);
    assert_eq!(graph.row(1)[0].psi_prev, HALF);
    graph.advance_strengths(1, &[weight(0.5), weight(0.5)]);
    assert_eq!(graph.row(1)[0].psi_prev, ONE);
    assert_eq!(graph.row(1)[1].psi_prev, ZERO);
}

#[test]
fn listed_rows_move_on_together() {
    let mut graph = path();
    graph.advance_all(&[0, 2], &[vec![weight(0.1)], vec![weight(0.2), weight(0.3)]]);
    assert_eq!(strengths(&graph, 0), vec![0.1]);
    assert_eq!(strengths(&graph, 1), vec![0.5, 0.5]);
    assert_eq!(strengths(&graph, 2), vec![0.2, 0.3]);
    assert_eq!(strengths(&graph, 3), vec![0.5]);
}

#[test]
fn growing_makes_the_bonds_that_are_missing() {
    let mut graph = path();
    let made = graph.grow(&[(0, 1), (0, 3), (1, 9), (3, 4)], weight(1.5));
    assert_eq!(made, 2);
    assert_eq!(graph.directed_edge_count(), 10);
    assert_eq!(targets(&graph, 3), vec![2, 0, 4]);
    assert_eq!(graph.row(3)[1].psi_curr, ZERO);
    assert_eq!(graph.row(3)[1].psi_prev, ZERO);
    assert_eq!(graph.row(3)[1].geom_weight, weight(1.5));
}

#[test]
fn every_proposal_without_a_bond_becomes_one() {
    let mut graph = path();
    let pairs = [(0, 2), (0, 3), (1, 3), (1, 4)];
    assert_eq!(graph.grow(&pairs, ONE), pairs.len());
    for (u, v) in pairs {
        assert!(graph.has_bond(u, v) && graph.has_bond(v, u));
    }
    assert_eq!(graph.directed_edge_count(), 6 + 2 * pairs.len());
}

#[test]
fn faint_bonds_break_at_both_ends() {
    let mut graph = path();
    graph.set_strengths(1, &[weight(0.1), weight(0.9)]);
    assert_eq!(graph.decohere(&[1], weight(0.3)), 1);
    assert_eq!(targets(&graph, 0), Vec::<usize>::new());
    assert_eq!(targets(&graph, 1), vec![2]);
    assert_eq!(graph.directed_edge_count(), 4);
}

#[test]
fn a_bond_that_only_an_unlisted_node_sees_faint_stays() {
    let mut graph = path();
    graph.set_strengths(1, &[weight(0.1), weight(0.9)]);
    assert_eq!(graph.decohere(&[0, 2, 3, 4, 77], weight(0.3)), 0);
    assert_eq!(graph.directed_edge_count(), 6);
    assert_eq!(targets(&graph, 1), vec![0, 2]);
}

#[test]
fn strengths_that_are_no_numbers_break_bonds() {
    let mut graph = path();
    graph.set_strengths(3, &[f64::NAN.to_bits()]);
    assert_eq!(graph.decohere(&[3], ZERO), 1);
    assert_eq!(targets(&graph, 2), vec![1]);
}

#[test]
fn a_bond_at_the_floor_stays() {
    let mut graph = path();
    assert_eq!(graph.decohere(&[0, 1, 2, 3], HALF), 0);
    assert_eq!(graph.directed_edge_count(), 6);
}

#[test]
fn a_bond_that_both_ends_see_faint_breaks_once() {
    let mut graph = path();
    assert_eq!(graph.decohere(&[0, 1], ONE), 2);
    assert_eq!(graph.directed_edge_count(), 2);
    assert_eq!(targets(&graph, 2), vec![3]);
}

#[test]
fn breaking_ignores_the_order_of_the_list() {
    let lists: [&[usize]; 3] = [&[0, 1, 2, 3], &[3, 2, 1, 0], &[1, 0, 0, 3, 2]];
    let mut rows = Vec::new();
    for list in lists {
        let mut graph = path();
        graph.set_strengths(1, &[weight(0.1), weight(0.9)]);
        graph.set_strengths(3, &[weight(0.2)]);
        assert_eq!(graph.decohere(list, weight(0.3)), 2);
        rows.push((0..5).map(|u| targets(&graph, u)).collect::<Vec<_>>());
    }
    assert_eq!(rows[0], rows[1]);
    assert_eq!(rows[0], rows[2]);
}

#[test]
fn breaking_again_breaks_nothing() {
    let mut graph = path();
    graph.set_strengths(1, &[weight(0.1), weight(0.9)]);
    let list = [0, 1, 2, 3, 4];
    assert_eq!(graph.decohere(&list, weight(0.3)), 1);
    let rows: Vec<Vec<usize>> = (0..5).map(|u| targets(&graph, u)).collect();
    assert_eq!(graph.decohere(&list, weight(0.3)), 0);
    assert_eq!(rows, (0..5).map(|u| targets(&graph, u)).collect::<Vec<_>>());
}
