use std::collections::HashMap;

use oxidd_viz::barycenter_ordering::BarycenterOrdering;
use oxidd_viz::layer_orderer::swap_edges;
use oxidd_viz::layout_traits::LayerOrdering;
use oxidd_viz::sugiyama_ordering::{
    apply_barycenter_iterative, apply_barycenters_oneway, count_graph_crossings,
    hierarchical_barycenter_order, reverse_equal_nodes, reverse_groups, SugiyamaOrdering,
};

fn order(nodes: &[usize]) -> HashMap<usize, usize> {
    nodes.iter().enumerate().map(|(i, &n)| (n, i)).collect()
}

fn edges(list: &[(usize, usize, usize)]) -> HashMap<usize, HashMap<usize, usize>> {
    let mut out: HashMap<usize, HashMap<usize, usize>> = HashMap::new();
    for &(from, to, w) in list {
        out.entry(from).or_default().insert(to, w);
    }
    out
}

fn crossing_graph() -> (Vec<HashMap<usize, usize>>, HashMap<usize, HashMap<usize, usize>>) {
    (
        vec![order(&[1, 2]), order(&[3, 4]), order(&[5, 6])],
        edges(&[(1, 4, 1), (2, 3, 1), (3, 6, 1), (4, 5, 1)]),
    )
}

#[test]
fn reversing_groups_mirrors_them_within_their_places() {
    let o = order(&[1, 2, 3, 4]);
    let reversed = reverse_groups(vec![vec![1, 2, 3]], &o);
    assert_eq!(reversed, order(&[3, 2, 1, 4]));
}

#[test]
fn reversing_groups_twice_gives_the_order_back() {
    let o = order(&[1, 2, 3, 4, 5]);
    let groups = vec![vec![2, 4], vec![1, 5, 3]];
    let once = reverse_groups(groups.clone(), &o);
    assert_eq!(reverse_groups(groups, &once), o);
}

#[test]
fn graph_crossings_add_up_layer_pairs() {
    let (layers, e) = crossing_graph();
    assert_eq!(count_graph_crossings(&layers, &e), 2);
    assert_eq!(count_graph_crossings(&vec![order(&[1])], &e), 0);
}

#[test]
fn downward_sweep_orders_each_layer_against_the_one_above() {
    let (layers, e) = crossing_graph();
    let out = apply_barycenters_oneway(&layers, &swap_edges(&e), &e, &BarycenterOrdering);
    assert_eq!(out, vec![order(&[1, 2]), order(&[4, 3]), order(&[5, 6])]);
    assert_eq!(count_graph_crossings(&out, &e), 0);
}

#[test]
fn iterative_ordering_does_not_add_crossings() {
    let (layers, e) = crossing_graph();
    let before = count_graph_crossings(&layers, &e);
    let out = apply_barycenter_iterative(&layers, &e, &swap_edges(&e), &BarycenterOrdering, 5);
    assert!(count_graph_crossings(&out, &e) <= before);
    assert_eq!(count_graph_crossings(&out, &e), 0);
}

#[test]
fn iterative_ordering_with_no_rounds_keeps_layers() {
    let (layers, e) = crossing_graph();
    let out = apply_barycenter_iterative(&layers, &e, &swap_edges(&e), &BarycenterOrdering, 0);
    assert_eq!(out, layers);
}

#[test]
fn reversal_of_equal_nodes_on_sorted_layers_changes_nothing() {
    let layers = vec![order(&[1, 2]), order(&[4, 3])];
    let e = edges(&[(1, 4, 1), (2, 3, 1)]);
    assert_eq!(reverse_equal_nodes(&layers, &e, &swap_edges(&e), &BarycenterOrdering), None);
    assert_eq!(reverse_equal_nodes(&vec![], &e, &swap_edges(&e), &BarycenterOrdering), None);
}

#[test]
fn hierarchical_order_untangles_the_graph() {
    let (layers, e) = crossing_graph();
    let out = hierarchical_barycenter_order(&layers, &e, &BarycenterOrdering, 10, 10);
    assert_eq!(out, vec![order(&[1, 2]), order(&[4, 3]), order(&[5, 6])]);
}

#[test]
fn sugiyama_ordering_orders_nodes() {
    let (layers, e) = crossing_graph();
    let owners: HashMap<usize, usize> = HashMap::new();
    let ordering = SugiyamaOrdering::new(10, 10);
    let out = ordering.order_nodes(&layers, &e, 100, 200, &owners);
    assert_eq!(count_graph_crossings(&out, &e), 0);
    let custom = SugiyamaOrdering::new_custom(BarycenterOrdering, 10, 10);
    assert_eq!(custom.order_nodes(&layers, &e, 100, 200, &owners), out);
}

#[test]
fn reversal_of_equal_nodes_reverses_groups_of_equal_barycenters() {
    // 1 and 2 both sit at barycenter 1 over [3, 4, 5]; reversing them leaves [3, 4, 5] unsorted.
    let layers = vec![order(&[1, 2]), order(&[3, 4, 5])];
    let e = edges(&[(1, 4, 1), (2, 3, 1), (2, 5, 1)]);
    assert_eq!(
        reverse_equal_nodes(&layers, &e, &swap_edges(&e), &BarycenterOrdering),
        Some(vec![order(&[2, 1]), order(&[3, 4, 5])])
    );
}
