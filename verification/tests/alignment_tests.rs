use std::collections::HashMap;

use oxidd_viz::group_alignment::{align_layer, group_positions, AverageGroupAlignment, OrderingGroupAlignment};
use oxidd_viz::layout_traits::LayerGroupSorting;

fn order(nodes: &[usize]) -> HashMap<usize, usize> {
    nodes.iter().enumerate().map(|(i, &n)| (n, i)).collect()
}

fn owners(list: &[(usize, usize)]) -> HashMap<usize, usize> {
    list.iter().cloned().collect()
}

fn no_edges() -> HashMap<usize, HashMap<usize, usize>> {
    HashMap::new()
}

#[test]
fn crossing_groups_are_untangled() {
    let layers = vec![order(&[10, 20]), order(&[21, 11])];
    let ow = owners(&[(10, 10), (11, 10), (20, 20), (21, 20)]);
    let out = OrderingGroupAlignment.align_cross_layer_nodes(&layers, &no_edges(), 0, 0, &ow);
    assert_eq!(out, vec![order(&[10, 20]), order(&[11, 21])]);
}

#[test]
fn ungrouped_nodes_follow_the_next_group() {
    let layers = vec![order(&[10, 20]), order(&[30, 21, 11])];
    let ow = owners(&[(10, 10), (11, 10), (20, 20), (21, 20)]);
    let out = OrderingGroupAlignment.align_cross_layer_nodes(&layers, &no_edges(), 0, 0, &ow);
    assert_eq!(out[1], order(&[30, 11, 21]));
}

#[test]
fn first_layer_keeps_its_order() {
    let layers = vec![order(&[3, 1, 2])];
    let ow = owners(&[(1, 1), (2, 2), (3, 3)]);
    let out = OrderingGroupAlignment.align_cross_layer_nodes(&layers, &no_edges(), 0, 0, &ow);
    assert_eq!(out, layers);
}

#[test]
fn group_positions_keep_the_last_node_of_an_owner() {
    let o = order(&[4, 5, 6]);
    let ow = owners(&[(4, 1), (6, 1), (5, 2)]);
    let gi = group_positions(&o, &ow);
    assert_eq!(gi.get(&1), Some(&2));
    assert_eq!(gi.get(&2), Some(&1));
    assert_eq!(gi.len(), 2);
}

#[test]
fn layer_alignment_with_an_empty_index_keeps_the_layer() {
    let o = order(&[7, 8, 9]);
    let gi: HashMap<usize, usize> = HashMap::new();
    assert_eq!(align_layer(&o, &gi, &owners(&[(7, 1)])), o);
}

#[test]
fn average_alignment_orders_by_group_average_then_id() {
    let layers = vec![order(&[10, 20]), order(&[21, 11])];
    let ow = owners(&[(10, 10), (11, 10), (20, 20), (21, 20)]);
    let out = AverageGroupAlignment.align_cross_layer_nodes(&layers, &no_edges(), 0, 0, &ow);
    assert_eq!(out, vec![order(&[10, 20]), order(&[11, 21])]);
}

#[test]
fn average_alignment_places_ungrouped_nodes_by_position() {
    let layers = vec![order(&[1, 10, 2])];
    let ow = owners(&[(10, 10)]);
    let out = AverageGroupAlignment.align_cross_layer_nodes(&layers, &no_edges(), 0, 0, &ow);
    assert_eq!(out, vec![order(&[1, 10, 2])]);
    let layers = vec![order(&[5, 6, 10]), order(&[11, 7, 8])];
    let ow = owners(&[(10, 10), (11, 10)]);
    let out = AverageGroupAlignment.align_cross_layer_nodes(&layers, &no_edges(), 0, 0, &ow);
    assert_eq!(out, vec![order(&[5, 6, 10]), order(&[7, 11, 8])]);
}
