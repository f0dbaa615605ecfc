use std::collections::HashMap;

use oxidd_viz::brandes_kopf::{
    align_vertical, get_reverse_layers, get_type1_conflicts, remove_internal_group_to_other_edges,
};
use oxidd_viz::layer_orderer::get_sequence;

fn order(nodes: &[usize]) -> HashMap<usize, usize> {
    nodes.iter().enumerate().map(|(i, &n)| (n, i)).collect()
}

fn edges(list: &[(usize, usize, usize)]) -> HashMap<usize, HashMap<usize, usize>> {
    let mut out: HashMap<usize, HashMap<usize, usize>> = HashMap::new();
    for &(from, to, w) in list {
        out.entry(from).or_default().insert(to, w);
    }
    out
}

fn lists(list: &[(usize, &[usize])]) -> HashMap<usize, Vec<usize>> {
    list.iter().map(|&(n, tos)| (n, tos.to_vec())).collect()
}

#[test]
fn layers_are_read_from_the_right() {
    let layers = vec![order(&[1, 2, 3]), order(&[])];
    assert_eq!(get_reverse_layers(&layers), vec![order(&[3, 2, 1]), order(&[])]);
    assert_eq!(get_reverse_layers(&get_reverse_layers(&layers)), layers);
}

#[test]
fn group_nodes_keep_only_their_group_edges() {
    let owners: HashMap<usize, usize> = [(0, 0), (2, 0)].iter().cloned().collect();
    let e = edges(&[(0, 2, 1), (0, 7, 1), (7, 2, 1), (7, 9, 4)]);
    let out = remove_internal_group_to_other_edges(&e, &owners, 2, 3);
    assert_eq!(out, edges(&[(0, 2, 1), (7, 9, 4)]));
}

fn conflict_graph() -> (Vec<HashMap<usize, usize>>, HashMap<usize, Vec<usize>>, HashMap<usize, Vec<usize>>) {
    let layers = vec![order(&[]), order(&[10, 11]), order(&[12, 13]), order(&[])];
    let forward = lists(&[(10, &[13]), (11, &[12])]);
    let reverse = lists(&[(13, &[10]), (12, &[11])]);
    (layers, forward, reverse)
}

#[test]
fn edges_crossing_inner_segments_conflict() {
    let (layers, forward, reverse) = conflict_graph();
    let seqs: Vec<Vec<usize>> = layers.iter().map(get_sequence).collect();
    let owners: HashMap<usize, usize> = HashMap::new();
    let conflicts = get_type1_conflicts(&layers, &seqs, &forward, &reverse, 10, 10, &owners);
    assert_eq!(conflicts.len(), 1);
    assert!(conflicts.get(&10).unwrap().contains(&13));
    assert_eq!(conflicts.get(&10).unwrap().len(), 1);
}

#[test]
fn outer_layer_pairs_have_no_conflicts() {
    let layers = vec![order(&[10, 11]), order(&[12, 13])];
    let forward = lists(&[(10, &[13]), (11, &[12])]);
    let reverse = lists(&[(13, &[10]), (12, &[11])]);
    let seqs: Vec<Vec<usize>> = layers.iter().map(get_sequence).collect();
    let owners: HashMap<usize, usize> = HashMap::new();
    let conflicts = get_type1_conflicts(&layers, &seqs, &forward, &reverse, 10, 10, &owners);
    assert!(conflicts.is_empty());
}

#[test]
fn vertical_alignment_skips_conflicting_edges() {
    let (layers, forward, reverse) = conflict_graph();
    let seqs: Vec<Vec<usize>> = layers.iter().map(get_sequence).collect();
    let owners: HashMap<usize, usize> = HashMap::new();
    let alignment = align_vertical(&layers, &seqs, &forward, &reverse, 10, 10, &owners);
    let roots: HashMap<usize, usize> = [(10, 10), (11, 11), (12, 11), (13, 13)].iter().cloned().collect();
    let links: HashMap<usize, usize> = [(10, 10), (11, 12), (12, 11), (13, 13)].iter().cloned().collect();
    assert_eq!(alignment.root, roots);
    assert_eq!(alignment.align, links);
}
