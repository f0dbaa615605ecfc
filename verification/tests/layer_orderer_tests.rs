use std::collections::HashMap;

use oxidd_viz::layer_orderer::{count_crossings, count_pair_crossings, get_sequence, swap_edges};

fn order(nodes: &[usize]) -> HashMap<usize, usize> {
    nodes.iter().enumerate().map(|(i, &n)| (n, i)).collect()
}

fn edges(list: &[(usize, usize, usize)]) -> HashMap<usize, HashMap<usize, usize>> {
    let mut out: HashMap<usize, HashMap<usize, usize>> = HashMap::new();
    for &(from, to, w) in list {
        out.entry(from).or_default().insert(to, w);
    }
    out
}

#[test]
fn sequence_lists_nodes_by_position() {
    let o = order(&[7, 3, 9]);
    assert_eq!(get_sequence(&o), vec![7, 3, 9]);
}

#[test]
fn crossing_edges_are_counted() {
    let top = order(&[1, 2]);
    let bottom = order(&[3, 4]);
    let e = edges(&[(1, 4, 1), (2, 3, 1)]);
    assert_eq!(count_crossings((&top, &bottom), &e), 1);
}

#[test]
fn crossings_are_weighted() {
    let top = order(&[1, 2]);
    let bottom = order(&[3, 4]);
    let e = edges(&[(1, 4, 2), (2, 3, 3)]);
    assert_eq!(count_crossings((&top, &bottom), &e), 6);
}

#[test]
fn parallel_edges_do_not_cross() {
    let top = order(&[1, 2]);
    let bottom = order(&[3, 4]);
    let e = edges(&[(1, 3, 1), (2, 4, 1)]);
    assert_eq!(count_crossings((&top, &bottom), &e), 0);
}

#[test]
fn pair_crossings_of_index_sequences() {
    let a = vec![(1, 1)];
    let b = vec![(0, 1)];
    assert_eq!(count_pair_crossings((&a, &b)), 1);
    assert_eq!(count_pair_crossings((&b, &a)), 0);
}

#[test]
fn swapping_edges_reverses_them() {
    let e = edges(&[(1, 2, 5), (1, 3, 1)]);
    let s = swap_edges(&e);
    assert_eq!(s.get(&2).unwrap().get(&1), Some(&5));
    assert_eq!(s.get(&3).unwrap().get(&1), Some(&1));
    assert!(s.get(&1).is_none());
}

#[test]
fn swapping_edges_twice_gives_them_back() {
    let e = edges(&[(1, 2, 5), (1, 3, 1), (4, 2, 2)]);
    assert_eq!(swap_edges(&swap_edges(&e)), e);
}

#[test]
fn edge_index_sequence_lists_positions_in_order() {
    let next = order(&[8, 6, 7]);
    let mut weights = HashMap::new();
    weights.insert(7, 3);
    weights.insert(8, 1);
    weights.insert(9, 4);
    assert_eq!(oxidd_viz::layer_orderer::get_edge_index_sequence(&weights, &next), vec![(0, 1), (2, 3)]);
}

#[test]
fn ordered_edge_map_sorts_successors_by_position() {
    let layers = vec![order(&[1]), order(&[4, 2, 3])];
    let e = edges(&[(1, 2, 1), (1, 3, 1), (1, 4, 1)]);
    let m = oxidd_viz::layer_orderer::get_ordered_edge_map(&e, &layers);
    assert_eq!(m.get(&1), Some(&vec![4, 2, 3]));
    assert_eq!(m.len(), 1);
}

#[test]
fn crossings_are_the_same_read_upwards() {
    let top = order(&[1, 2, 3]);
    let bottom = order(&[4, 5, 6]);
    let e = edges(&[(1, 6, 2), (1, 5, 1), (2, 4, 3), (3, 4, 1), (3, 6, 1)]);
    let down = count_crossings((&top, &bottom), &e);
    let up = count_crossings((&bottom, &top), &swap_edges(&e));
    assert_eq!(down, up);
    // 1->6 (w2) crosses 2->4 (w3) and 3->4 (w1); 1->5 (w1) crosses 2->4 and 3->4; 2->4 crosses nothing
    // further right; 3->6 crosses none: 2*3 + 2*1 + 1*3 + 1*1 = 12.
    assert_eq!(down, 12);
}
