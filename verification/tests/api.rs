use native_connectome::api::{
    copy_f64_slice, copy_set, vdm_connectome_copy_adj, vdm_connectome_copy_debt,
    vdm_connectome_copy_last_visit, vdm_connectome_copy_observed, vdm_connectome_copy_phi_curr,
    vdm_connectome_copy_phi_dot, vdm_connectome_copy_phi_prev, vdm_connectome_copy_unsettled,
    vdm_connectome_directed_edge_count, vdm_connectome_k_t, vdm_connectome_new,
    vdm_connectome_node_degree, vdm_connectome_observed_count, vdm_connectome_phi_sum,
    vdm_connectome_phi_sumsq, vdm_connectome_step, vdm_connectome_stimulate,
    vdm_connectome_unsettled_count,
};
use native_connectome::binary64::{HALF, ONE, ZERO};
use native_connectome::connectome::NativeConnectome;
use std::collections::BTreeSet;

fn bits(x: f64) -> u64 {
    x.to_bits()
}

fn held() -> NativeConnectome {
    let geoms = [ONE, bits(2.0), ONE, bits(3.0)];
    let graph = vdm_connectome_new(4, &[0, 1, -1, 1], &[1, 2, 2, 3], &geoms);
    let levels = [1.0 / 3.0, 1.0, 1.0 / 3.0, 1.0 / 3.0].map(bits).to_vec();
    NativeConnectome::new(graph.expect("there are nodes"), levels, bits(2.0), ONE, ONE, ONE)
}

#[test]
fn no_nodes_make_no_connectome() {
    assert!(vdm_connectome_new(0, &[0], &[1], &[ONE]).is_none());
    assert!(vdm_connectome_new(1, &[], &[], &[]).is_some());
}

#[test]
fn negative_nodes_have_no_bonds() {
    let graph = vdm_connectome_new(3, &[0, -1, 1], &[-2, 1, 2], &[ONE; 3]).expect("nodes");
    assert_eq!(graph.directed_edge_count(), 2);
    assert!(graph.has_bond(1, 2));
}

#[test]
fn answers_without_a_connectome() {
    assert_eq!(vdm_connectome_stimulate(None, &[0], &[ONE]), -1);
    assert!(vdm_connectome_step(None, 1, true).is_none());
    assert!(vdm_connectome_copy_phi_curr(None, 9).is_empty());
    assert!(vdm_connectome_copy_phi_prev(None, 9).is_empty());
    assert!(vdm_connectome_copy_phi_dot(None, 9).is_empty());
    assert!(vdm_connectome_copy_debt(None, 9).is_empty());
    assert!(vdm_connectome_copy_last_visit(None, 9).is_empty());
    assert!(vdm_connectome_copy_observed(None, 9).is_empty());
    assert!(vdm_connectome_copy_unsettled(None, 9).is_empty());
    assert!(vdm_connectome_copy_adj(None, 0, 9).targets.is_empty());
    assert_eq!(vdm_connectome_node_degree(None, 0), 0);
    assert_eq!(vdm_connectome_observed_count(None), 0);
    assert_eq!(vdm_connectome_unsettled_count(None), 0);
    assert_eq!(vdm_connectome_k_t(None), ZERO);
    assert_eq!(vdm_connectome_phi_sum(None), ZERO);
    assert_eq!(vdm_connectome_phi_sumsq(None), ZERO);
    assert_eq!(vdm_connectome_directed_edge_count(None), 0);
}

#[test]
fn stimulates_what_is_held() {
    let mut conn = held();
    assert_eq!(vdm_connectome_stimulate(Some(&mut conn), &[2], &[HALF]), 0);
    assert_eq!(conn.j_ext(), &vec![ZERO, ZERO, HALF, ZERO]);
}

#[test]
fn begins_a_step_only_for_a_report() {
    let mut conn = held();
    vdm_connectome_stimulate(Some(&mut conn), &[1], &[HALF]);
    assert!(vdm_connectome_step(Some(&mut conn), 5, false).is_none());
    assert_eq!(conn.cold_gap(0), None);
    let start = vdm_connectome_step(Some(&mut conn), 5, true).expect("the step begins");
    assert_eq!(start.stim_nodes, vec![1]);
    assert_eq!(start.candidates, vec![0, 1, 2, 3]);
    assert_eq!(conn.cold_gap(0), Some(5));
}

#[test]
fn copies_are_cut_off_at_the_capacity() {
    let conn = held();
    let field = vdm_connectome_copy_phi_curr(Some(&conn), 9);
    assert_eq!(&field, conn.phi_curr());
    assert_eq!(vdm_connectome_copy_phi_curr(Some(&conn), 2), field[..2].to_vec());
    assert_eq!(vdm_connectome_copy_phi_prev(Some(&conn), 4), field);
    assert_eq!(vdm_connectome_copy_phi_dot(Some(&conn), 3), vec![ZERO; 3]);
    assert_eq!(vdm_connectome_copy_debt(Some(&conn), 0), Vec::<u64>::new());
    assert_eq!(vdm_connectome_copy_last_visit(Some(&conn), 3), vec![0, -1, 0]);
    assert_eq!(vdm_connectome_copy_observed(Some(&conn), 9), vec![0, 2, 3]);
    assert_eq!(vdm_connectome_copy_observed(Some(&conn), 1), vec![0]);
    assert_eq!(vdm_connectome_copy_unsettled(Some(&conn), 2), vec![0, 2]);
    assert_eq!(copy_f64_slice(&[ONE, HALF], 1), vec![ONE]);
    let set: BTreeSet<usize> = [9, 3, 5].into_iter().collect();
    assert_eq!(copy_set(&set, 2), vec![3, 5]);
}

#[test]
fn node_numbers_keep_their_low_bits() {
    let set: BTreeSet<usize> = [0x8000_0000, 0xffff_ffff].into_iter().collect();
    assert_eq!(copy_set(&set, 2), vec![i32::MIN, -1]);
}

#[test]
fn counts_what_is_held() {
    let conn = held();
    assert_eq!(vdm_connectome_observed_count(Some(&conn)), 3);
    assert_eq!(vdm_connectome_unsettled_count(Some(&conn)), 3);
    assert_eq!(vdm_connectome_directed_edge_count(Some(&conn)), 6);
    assert_eq!(vdm_connectome_node_degree(Some(&conn), 1), 3);
    assert_eq!(vdm_connectome_node_degree(Some(&conn), 0), 1);
    assert_eq!(vdm_connectome_node_degree(Some(&conn), 4), 0);
    assert_eq!(vdm_connectome_k_t(Some(&conn)), ZERO);
    assert_eq!(vdm_connectome_phi_sum(Some(&conn)), bits(2.0));
    assert_eq!(vdm_connectome_phi_sumsq(Some(&conn)), ONE);
}

#[test]
fn copies_the_bonds_of_a_node() {
    let conn = held();
    let all = vdm_connectome_copy_adj(Some(&conn), 1, 9);
    assert_eq!(all.targets, vec![0, 2, 3]);
    assert_eq!(all.psi_curr, vec![HALF; 3]);
    assert_eq!(all.psi_prev, vec![HALF; 3]);
    assert_eq!(all.geom, vec![ONE, bits(2.0), bits(3.0)]);
    let some = vdm_connectome_copy_adj(Some(&conn), 1, 2);
    assert_eq!(some.targets, vec![0, 2]);
    assert_eq!(some.geom, vec![ONE, bits(2.0)]);
    assert!(vdm_connectome_copy_adj(Some(&conn), 4, 9).targets.is_empty());
}
