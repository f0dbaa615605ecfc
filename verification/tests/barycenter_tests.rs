use std::collections::HashMap;

use num_rational::Ratio;
use oxidd_viz::barycenter_ordering::{
    apply_single_barycenter_order, are_barycenters_increasing, barycenter_equal, barycenter_less,
    get_barycenter, get_equal_barycenter_groups, is_barycenter_sorted, reverse_equal_barycenters,
    two_layer_barycenter_order, Barycenter, BarycenterOrdering,
};
use oxidd_viz::layer_orderer::{count_crossings, swap_edges, LayerOrderer};

fn order(nodes: &[usize]) -> HashMap<usize, usize> {
    nodes.iter().enumerate().map(|(i, &n)| (n, i)).collect()
}

fn edges(list: &[(usize, usize, usize)]) -> HashMap<usize, HashMap<usize, usize>> {
    let mut out: HashMap<usize, HashMap<usize, usize>> = HashMap::new();
    for &(from, to, w) in list {
        out.entry(from).or_default().insert(to, w);
    }
    out
}

#[test]
fn barycenter_is_weighted_average_position() {
    let other = order(&[1, 2, 3]);
    let e = edges(&[(9, 1, 1), (9, 3, 3)]);
    let b = get_barycenter(9, &other, &e);
    assert_eq!((b.sum, b.total), (6, 4));
}

#[test]
fn barycenter_of_node_without_edges_is_zero() {
    let other = order(&[1, 2]);
    let e = edges(&[]);
    let b = get_barycenter(9, &other, &e);
    assert_eq!((b.sum, b.total), (0, 1));
}

#[test]
fn barycenter_comparison_matches_rationals() {
    let values = [(0usize, 1usize), (1, 2), (2, 4), (3, 1), (5, 3), (7, 5)];
    for &(a, b) in &values {
        for &(c, d) in &values {
            let x = Barycenter { sum: a, total: b };
            let y = Barycenter { sum: c, total: d };
            assert_eq!(barycenter_less(&x, &y), Ratio::new(a, b) < Ratio::new(c, d));
            assert_eq!(barycenter_equal(&x, &y), Ratio::new(a, b) == Ratio::new(c, d));
        }
    }
}

#[test]
fn single_barycenter_order_removes_crossing() {
    let top = order(&[1, 2]);
    let bottom = order(&[3, 4]);
    let e = edges(&[(1, 4, 1), (2, 3, 1)]);
    let up = swap_edges(&e);
    let sorted = apply_single_barycenter_order(&bottom, &top, &up);
    assert_eq!(sorted, order(&[4, 3]));
    assert_eq!(count_crossings((&top, &sorted), &e), 0);
}

#[test]
fn barycenter_order_is_stable_for_ties() {
    let top = order(&[1]);
    let bottom = order(&[5, 3, 4]);
    let e = edges(&[(1, 5, 1), (1, 3, 1), (1, 4, 1)]);
    let up = swap_edges(&e);
    let sorted = apply_single_barycenter_order(&bottom, &top, &up);
    assert_eq!(sorted, bottom);
}

#[test]
fn sortedness_is_checked_on_barycenters() {
    let top = order(&[1, 2]);
    let e = edges(&[(3, 2, 1), (4, 1, 1)]);
    assert!(!is_barycenter_sorted(&order(&[3, 4]), &top, &e));
    assert!(is_barycenter_sorted(&order(&[4, 3]), &top, &e));
    assert!(is_barycenter_sorted(&order(&[]), &top, &e));
}

#[test]
fn increasing_barycenters_are_strict() {
    let top = order(&[1, 2]);
    let e = edges(&[(3, 1, 1), (4, 2, 1), (5, 2, 1)]);
    assert!(are_barycenters_increasing(&order(&[3, 4]), &top, &e));
    assert!(!are_barycenters_increasing(&order(&[3, 4, 5]), &top, &e));
}

#[test]
fn equal_groups_are_nodes_sharing_a_barycenter() {
    let top = order(&[1, 2]);
    let e = edges(&[(3, 1, 1), (4, 2, 1), (5, 2, 1)]);
    let groups = get_equal_barycenter_groups(&order(&[3, 4, 5]), &top, &e);
    assert_eq!(groups, vec![vec![4, 5]]);
}

#[test]
fn equal_groups_follow_layer_order() {
    let top = order(&[1, 2]);
    // 6 and 4 sit at barycenter 0, 3 and 5 at barycenter 1; 7 alone at 1/2.
    let e = edges(&[(3, 2, 1), (4, 1, 1), (5, 2, 1), (6, 1, 1), (7, 1, 1), (7, 2, 1)]);
    let groups = get_equal_barycenter_groups(&order(&[3, 6, 7, 4, 5]), &top, &e);
    assert_eq!(groups, vec![vec![3, 5], vec![6, 4]]);
}

#[test]
fn equal_barycenters_are_reversed() {
    let top = order(&[1, 2]);
    let e = edges(&[(3, 1, 1), (4, 2, 1), (5, 2, 1), (6, 2, 1)]);
    let reversed = reverse_equal_barycenters(&order(&[3, 4, 5, 6]), &top, &e);
    assert_eq!(reversed, order(&[3, 6, 5, 4]));
}

#[test]
fn two_layer_order_keeps_nodes_and_removes_crossing() {
    let top = order(&[1, 2]);
    let bottom = order(&[3, 4]);
    let e = edges(&[(1, 4, 1), (2, 3, 1)]);
    let (a, b) = two_layer_barycenter_order((&top, &bottom), &e, 4, 2);
    assert_eq!(a, order(&[1, 2]));
    assert_eq!(b, order(&[4, 3]));
    assert_eq!(count_crossings((&a, &b), &e), 0);
}

#[test]
fn barycenter_orderer_orders_against_next_layer() {
    let top = order(&[1, 2]);
    let up = swap_edges(&edges(&[(1, 4, 1), (2, 3, 1)]));
    let orderer = BarycenterOrdering;
    assert_eq!(orderer.order(&order(&[3, 4]), &top, &up), order(&[4, 3]));
    assert!(orderer.is_sorted(&order(&[4, 3]), &top, &up));
    assert_eq!(orderer.get_equal_groups(&order(&[3, 4]), &top, &up), Vec::<Vec<usize>>::new());
}
