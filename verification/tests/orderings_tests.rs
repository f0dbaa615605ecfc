use std::collections::HashMap;

use oxidd_viz::layer_orderings::{
    apply_draws, sorted_keys, swap_in_layer, DummyLayerOrdering, PseudoRandomLayerOrdering, RandomLayerOrdering,
    SequenceOrdering,
};
use oxidd_viz::layout_traits::LayerOrdering;
use oxidd_viz::sugiyama_ordering::SugiyamaOrdering;

fn order(nodes: &[usize]) -> HashMap<usize, usize> {
    nodes.iter().enumerate().map(|(i, &n)| (n, i)).collect()
}

fn keys(o: &HashMap<usize, usize>) -> Vec<usize> {
    let mut k: Vec<usize> = o.keys().cloned().collect();
    k.sort();
    k
}

fn is_valid(o: &HashMap<usize, usize>) -> bool {
    let mut v: Vec<usize> = o.values().cloned().collect();
    v.sort();
    v == (0..o.len()).collect::<Vec<usize>>()
}

#[test]
fn swapping_two_nodes_trades_their_places() {
    let mut o = order(&[4, 7, 9]);
    swap_in_layer(&mut o, &vec![4, 7, 9], 0, 2);
    assert_eq!(o, order(&[9, 7, 4]));
    swap_in_layer(&mut o, &vec![4, 7, 9], 1, 1);
    assert_eq!(o, order(&[9, 7, 4]));
}

#[test]
fn keys_are_sorted_by_id() {
    assert_eq!(sorted_keys(&order(&[9, 2, 5])), vec![2, 5, 9]);
}

#[test]
fn dummy_ordering_keeps_layers() {
    let layers = vec![order(&[3, 1]), order(&[2])];
    let out = DummyLayerOrdering.order_nodes(&layers, &HashMap::new(), 0, 0, &HashMap::new());
    assert_eq!(out, layers);
}

#[test]
fn pseudo_random_ordering_depends_on_the_seed_only() {
    let layers = vec![order(&[1, 2, 3, 4, 5]), order(&[6, 7, 8])];
    let mut a = PseudoRandomLayerOrdering::new(3, 42);
    let b = PseudoRandomLayerOrdering::new(3, 42);
    let out_a = a.order_nodes(&layers, &HashMap::new(), 0, 0, &HashMap::new());
    let out_b = b.order_nodes(&layers, &HashMap::new(), 0, 0, &HashMap::new());
    assert_eq!(out_a, out_b);
    for (o, l) in out_a.iter().zip(layers.iter()) {
        assert_eq!(keys(o), keys(l));
        assert!(is_valid(o));
    }
    assert_ne!(out_a, layers);
    a.set_seed(7);
    let c = PseudoRandomLayerOrdering::new(3, 7);
    assert_ne!(c.order_nodes(&layers, &HashMap::new(), 0, 0, &HashMap::new()), out_a);
    assert_eq!(
        a.order_nodes(&layers, &HashMap::new(), 0, 0, &HashMap::new()),
        c.order_nodes(&layers, &HashMap::new(), 0, 0, &HashMap::new())
    );
}

#[test]
fn random_ordering_applies_the_drawn_swaps() {
    let ordering = RandomLayerOrdering::new(1);
    assert_eq!(ordering.swap_count(2), 2);
    let layers = vec![order(&[5, 9])];
    let out = ordering.order_nodes_with_draws(&layers, &vec![vec![(0, 1), (0, 0)]]);
    assert_eq!(out, vec![order(&[9, 5])]);
}

#[test]
fn sequence_ordering_applies_both_orderings() {
    let layers = vec![order(&[1, 2]), order(&[3, 4])];
    let mut e: HashMap<usize, HashMap<usize, usize>> = HashMap::new();
    e.entry(1).or_default().insert(4, 1);
    e.entry(2).or_default().insert(3, 1);
    let mut seq = SequenceOrdering::new(DummyLayerOrdering, SugiyamaOrdering::new(5, 5));
    let _first: &mut DummyLayerOrdering = seq.get_ordering1();
    let _second = seq.get_ordering2();
    let out = seq.order_nodes(&layers, &e, 0, 0, &HashMap::new());
    assert_eq!(out, vec![order(&[1, 2]), order(&[4, 3])]);
}

#[test]
fn draws_swap_nodes_sorted_by_id() {
    // Sorted by id the nodes are [2, 5, 9]; swap positions 0 and 2, then 1 and 2.
    let out = apply_draws(&order(&[9, 2, 5]), &vec![(0, 2), (1, 2)]);
    assert_eq!(out, order(&[2, 5, 9]));
}

#[test]
fn no_swaps_keep_the_layers() {
    let layers = vec![order(&[4, 1, 3]), order(&[2])];
    let seeded = PseudoRandomLayerOrdering::new(0, 11);
    assert_eq!(seeded.order_nodes(&layers, &HashMap::new(), 0, 0, &HashMap::new()), layers);
    let random = RandomLayerOrdering::new(0);
    assert_eq!(random.order_nodes_with_draws(&layers, &vec![vec![], vec![]]), layers);
}

#[test]
fn reseeding_the_first_ordering_of_a_sequence() {
    let layers = vec![order(&[1, 2, 3, 4, 5, 6])];
    let mut seq = SequenceOrdering::new(PseudoRandomLayerOrdering::new(2, 0), DummyLayerOrdering);
    seq.get_ordering1().set_seed(7);
    let fresh = SequenceOrdering::new(PseudoRandomLayerOrdering::new(2, 7), DummyLayerOrdering);
    assert_eq!(
        seq.order_nodes(&layers, &HashMap::new(), 0, 0, &HashMap::new()),
        fresh.order_nodes(&layers, &HashMap::new(), 0, 0, &HashMap::new())
    );
}

#[test]
fn drawn_ordering_combines_in_a_sequence() {
    let layers = vec![order(&[9, 2, 5])];
    let drawn = RandomLayerOrdering::new(1).with_draws(vec![vec![(0, 2), (1, 2), (0, 0)]]);
    let seq = SequenceOrdering::new(drawn, DummyLayerOrdering);
    let out = seq.order_nodes(&layers, &HashMap::new(), 0, 0, &HashMap::new());
    assert_eq!(out, vec![order(&[2, 5, 9])]);
}
