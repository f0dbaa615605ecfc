use std::collections::HashMap;

use oxidd_viz::group_alignment::OrderingGroupAlignment;
use oxidd_viz::layer_orderings::DummyLayerOrdering;
use oxidd_viz::layered_layout::LayeredLayout;

use oxidd_viz::layered_layout::{
    add_edges_with_dummies, add_groups_with_dummies, add_to_edges, add_to_layer, is_edge_dummy,
    is_group_dummy, remove_group_crossings, EdgeData,
};

fn order(nodes: &[usize]) -> HashMap<usize, usize> {
    nodes.iter().enumerate().map(|(i, &n)| (n, i)).collect()
}

fn edges(list: &[(usize, usize, usize)]) -> HashMap<usize, HashMap<usize, usize>> {
    let mut out: HashMap<usize, HashMap<usize, usize>> = HashMap::new();
    for &(from, to, w) in list {
        out.entry(from).or_default().insert(to, w);
    }
    out
}

#[test]
fn dummy_kinds_are_id_ranges() {
    assert!(is_group_dummy(5, 5, 8));
    assert!(!is_group_dummy(8, 5, 8));
    assert!(!is_group_dummy(4, 5, 8));
    assert!(is_edge_dummy(8, 8));
    assert!(!is_edge_dummy(7, 8));
    for n in 0..12 {
        assert!(!(is_group_dummy(n, 5, 8) && is_edge_dummy(n, 8)));
    }
}

#[test]
fn nodes_are_added_at_the_end_of_their_layer() {
    let mut layers = Vec::new();
    add_to_layer(&mut layers, 2, 7);
    add_to_layer(&mut layers, 2, 9);
    add_to_layer(&mut layers, 0, 1);
    assert_eq!(layers, vec![order(&[1]), order(&[]), order(&[7, 9])]);
}

#[test]
fn edges_are_added_once_with_weight_one() {
    let mut e = HashMap::new();
    add_to_edges(&mut e, 1, 2);
    add_to_edges(&mut e, 1, 3);
    add_to_edges(&mut e, 1, 2);
    assert_eq!(e, edges(&[(1, 2, 1), (1, 3, 1)]));
}

#[test]
fn groups_get_dummy_nodes_for_their_later_levels() {
    let mut layers = Vec::new();
    let mut e = HashMap::new();
    let mut owners = HashMap::new();
    let mut next = 0;
    let (dummy_start, group_layers) =
        add_groups_with_dummies(&vec![(0, 0, 2), (1, 1, 1)], &mut layers, &mut e, &mut owners, &mut next);
    assert_eq!(dummy_start, 2);
    assert_eq!(next, 4);
    assert_eq!(layers, vec![order(&[0]), order(&[1, 2]), order(&[3])]);
    assert_eq!(e, edges(&[(0, 2, 1), (2, 3, 1)]));
    let expected_owners: HashMap<usize, usize> = [(0, 0), (1, 1), (2, 0), (3, 0)].iter().cloned().collect();
    assert_eq!(owners, expected_owners);
    assert_eq!(group_layers.get(&0).unwrap(), &[(0u32, 0usize), (1, 2), (2, 3)].iter().cloned().collect::<HashMap<u32, usize>>());
    assert_eq!(group_layers.get(&1).unwrap(), &[(1u32, 1usize)].iter().cloned().collect::<HashMap<u32, usize>>());
}

#[test]
fn edges_get_bend_nodes_between_their_levels() {
    let mut layers = Vec::new();
    let mut e = HashMap::new();
    let mut owners = HashMap::new();
    let mut next = 0;
    let (_, group_layers) =
        add_groups_with_dummies(&vec![(0, 0, 2), (1, 1, 1)], &mut layers, &mut e, &mut owners, &mut next);
    let down = EdgeData { to: 1, from_level: 0, to_level: 1, edge_type: 0 };
    let long = EdgeData { to: 0, from_level: 1, to_level: 3, edge_type: 1 };
    let children = vec![(0, vec![down]), (1, vec![long])];
    let (bends, connections) =
        add_edges_with_dummies(&children, &mut layers, &mut e, &mut owners, &group_layers, &mut next);
    assert_eq!(bends, vec![((0, down), vec![]), ((1, long), vec![4])]);
    assert_eq!(connections, vec![((0, down), (0, 1))]);
    assert_eq!(next, 5);
    assert_eq!(layers, vec![order(&[0]), order(&[1, 2]), order(&[3, 4])]);
    assert_eq!(e, edges(&[(0, 2, 1), (2, 3, 1), (0, 1, 1), (1, 4, 1)]));
    assert_eq!(owners.get(&4), Some(&4));
}

#[test]
fn edges_crossing_a_group_are_removed() {
    let layers = vec![order(&[0, 5]), order(&[6, 1])];
    let owners: HashMap<usize, usize> = [(0, 0), (1, 0)].iter().cloned().collect();
    let mut e = edges(&[(0, 1, 1), (5, 6, 1), (5, 1, 1)]);
    remove_group_crossings(&layers, &mut e, &owners);
    assert_eq!(e, edges(&[(0, 1, 1), (5, 1, 1)]));
}

#[test]
fn edges_left_of_a_group_keep_to_the_left() {
    let layers = vec![order(&[5, 0]), order(&[1, 6])];
    let owners: HashMap<usize, usize> = [(0, 0), (1, 0)].iter().cloned().collect();
    let mut e = edges(&[(5, 6, 1), (5, 1, 2), (0, 1, 1)]);
    remove_group_crossings(&layers, &mut e, &owners);
    assert_eq!(e, edges(&[(5, 1, 2), (0, 1, 1)]));
}

#[test]
fn layers_are_arranged_and_crossing_edges_removed() {
    let layout = LayeredLayout::new(DummyLayerOrdering, OrderingGroupAlignment);
    let ed = EdgeData { to: 2, from_level: 0, to_level: 1, edge_type: 0 };
    let arranged = layout.arrange_layers(&vec![(0, 0, 1), (1, 0, 0), (2, 1, 1)], &vec![(1, vec![ed])]);
    assert_eq!(arranged.layers, vec![order(&[0, 1]), order(&[2, 3])]);
    assert_eq!(arranged.dummy_group_start_id, 3);
    assert_eq!(arranged.dummy_edge_start_id, 4);
    let expected_owners: HashMap<usize, usize> = [(0, 0), (1, 1), (2, 2), (3, 0)].iter().cloned().collect();
    assert_eq!(arranged.owners, expected_owners);
    let mut expected_edges = edges(&[(0, 3, 1)]);
    expected_edges.insert(1, HashMap::new());
    assert_eq!(arranged.edges, expected_edges);
    assert_eq!(arranged.edge_bend_nodes, vec![((1, ed), vec![])]);
    assert_eq!(arranged.edge_connection_nodes, vec![((1, ed), (1, 2))]);
}
