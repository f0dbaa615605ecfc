use std::collections::HashMap;
use vstd::prelude::*;
use seeded_random::{Random, Seed};
use crate::layer_orderer::{NodeID, Order, EdgeMap, is_order, get_sequence, lemma_order_seq, orders_view, all_orders, edge_view};
use crate::sugiyama_ordering::{arrangements, layer_doms};
use crate::barycenter_ordering::arrangement;
use crate::layout_traits::LayerOrdering;

verus! {

broadcast use vstd::std_specs::hash::group_hash_axioms;

#[verifier::external_type_specification]
#[verifier::external_body]
pub struct ExRandom(Random);

/// The number that `seeded_random::Random::range(min, max)` draws from a generator made from
/// `seed`, after draws from the ranges `earlier` (in that order) were made from it.
pub uninterp spec fn seeded_draw(seed: u64, earlier: Seq<(u32, u32)>, min: u32, max: u32) -> u32;

/// A generator of `seeded_random`, with the seed it was made from and the ranges of the draws
/// made from it so far.
struct SeededGenerator {
    rng: Random,
    seed: Ghost<u64>,
    earlier: Ghost<Seq<(u32, u32)>>,
}

impl SeededGenerator {
    /// The seed the generator was made from.
    closed spec fn seed(&self) -> u64 {
        self.seed@
    }

    /// The ranges of the draws made so far, oldest first.
    closed spec fn earlier(&self) -> Seq<(u32, u32)> {
        self.earlier@
    }
}

/// Calls `seeded_random::Random::from_seed` on `seeded_random::Seed::unsafe_new(seed)`: a
/// generator made from the number `seed`, from which nothing has been drawn yet.
#[verifier::external_body]
fn generator_from_seed(seed: u64) -> (out: SeededGenerator)
    ensures
        out.seed() == seed,
        out.earlier() == Seq::<(u32, u32)>::empty(),
{
    SeededGenerator { rng: Random::from_seed(Seed::unsafe_new(seed)), seed: Ghost(seed), earlier: Ghost(Seq::empty()) }
}

/// Calls `seeded_random::Random::range`, which draws a number from `min..max` through `rand`'s
/// `gen_range` (which panics on an empty range) on the generator's ChaCha stream. The stream is
/// fixed by the seed, and every draw takes from it an amount fixed by the stream and the range,
/// so the number is the one named by the seed, the earlier ranges and this range.
#[verifier::external_body]
fn random_range(rng: &mut SeededGenerator, min: u32, max: u32) -> (out: u32)
    requires
        min < max,
    ensures
        min <= out < max,
        out == seeded_draw(old(rng).seed(), old(rng).earlier(), min, max),
        final(rng).seed() == old(rng).seed(),
        final(rng).earlier() == old(rng).earlier().push((min, max)),
{
    rng.rng.range(min, max)
}

/// The order with the nodes `k1` and `k2` trading places.
pub open spec fn swapped_nodes(o: Map<NodeID, usize>, k1: NodeID, k2: NodeID) -> Map<NodeID, usize> {
    o.insert(k1, o[k2]).insert(k2, o[k1])
}

/// Swapping two nodes of an order gives an order of the same nodes.
pub proof fn lemma_swapped_nodes(o: Map<NodeID, usize>, k1: NodeID, k2: NodeID)
    requires
        is_order(o),
        o.contains_key(k1),
        o.contains_key(k2),
    ensures
        is_order(swapped_nodes(o, k1, k2)),
        swapped_nodes(o, k1, k2).dom() == o.dom(),
{
    let r = swapped_nodes(o, k1, k2);
    assert(r.dom() =~= o.dom());
    assert forall|a: NodeID, b: NodeID| r.contains_key(a) && r.contains_key(b) && #[trigger] r[a] == #[trigger] r[b] implies a == b by {
        let pa = if a == k2 { k1 } else if a == k1 { k2 } else { a };
        let pb = if b == k2 { k1 } else if b == k1 { k2 } else { b };
        assert(r[a] == o[pa]);
        assert(r[b] == o[pb]);
    }
}

/// `s` lists the nodes of `d` in increasing order of their ids.
pub open spec fn lists_sorted(s: Seq<NodeID>, d: Set<NodeID>) -> bool {
    &&& forall|a: int, b: int| 0 <= a < b < s.len() ==> #[trigger] s[a] < #[trigger] s[b]
    &&& forall|a: int| 0 <= a < s.len() ==> d.contains(#[trigger] s[a])
    &&& forall|k: NodeID| #[trigger] d.contains(k) ==> s.contains(k)
}

/// The nodes of the order in increasing order of their ids.
pub open spec fn sorted_ids(o: Map<NodeID, usize>) -> Seq<NodeID> {
    choose|s: Seq<NodeID>| lists_sorted(s, o.dom())
}

/// There is one way to list a set of nodes in increasing order of their ids.
proof fn lemma_lists_sorted_unique(x: Seq<NodeID>, y: Seq<NodeID>, d: Set<NodeID>)
    requires
        lists_sorted(x, d),
        lists_sorted(y, d),
    ensures
        x == y,
    decreases x.len(),
{
    if x.len() == 0 {
        if y.len() > 0 {
            assert(d.contains(y[0]));
            assert(x.contains(y[0]));
        }
        assert(x =~= y);
    } else if y.len() == 0 {
        assert(d.contains(x[0]));
        assert(y.contains(x[0]));
    } else {
        assert(d.contains(x[0]) && d.contains(y[0]));
        assert(y.contains(x[0]));
        assert(x.contains(y[0]));
        let k = choose|k: int| 0 <= k < y.len() && y[k] == x[0];
        let m = choose|m: int| 0 <= m < x.len() && x[m] == y[0];
        if k > 0 { assert(y[0] < y[k]); }
        if m > 0 { assert(x[0] < x[m]); }
        assert(x[0] == y[0]);
        let d2 = d.remove(x[0]);
        let x2 = x.drop_first();
        let y2 = y.drop_first();
        assert forall|a: int| 0 <= a < x2.len() implies d2.contains(#[trigger] x2[a]) by {
            assert(x[0] < x[a + 1]);
        }
        assert forall|a: int| 0 <= a < y2.len() implies d2.contains(#[trigger] y2[a]) by {
            assert(y[0] < y[a + 1]);
        }
        assert forall|n: NodeID| #[trigger] d2.contains(n) implies x2.contains(n) && y2.contains(n) by {
            assert(x.contains(n) && y.contains(n));
            let i = choose|i: int| 0 <= i < x.len() && x[i] == n;
            let j = choose|j: int| 0 <= j < y.len() && y[j] == n;
            assert(x2[i - 1] == n);
            assert(y2[j - 1] == n);
        }
        assert forall|a: int, b: int| 0 <= a < b < x2.len() implies #[trigger] x2[a] < #[trigger] x2[b] by {
            assert(x[a + 1] < x[b + 1]);
        }
        assert forall|a: int, b: int| 0 <= a < b < y2.len() implies #[trigger] y2[a] < #[trigger] y2[b] by {
            assert(y[a + 1] < y[b + 1]);
        }
        lemma_lists_sorted_unique(x2, y2, d2);
        assert(x2.len() == x.len() - 1 && y2.len() == y.len() - 1);
        assert(x2.len() == y2.len());
        assert(x.len() == y.len());
        assert forall|i: int| 0 <= i < x.len() implies x[i] == y[i] by {
            if i > 0 {
                assert(x[i] == x2[i - 1] && y[i] == y2[i - 1]);
            }
        }
        assert(x =~= y);
    }
}

/// Swaps the nodes `keys[index1]` and `keys[index2]` of the order.
pub fn swap_in_layer(order: &mut Order, keys: &Vec<NodeID>, index1: usize, index2: usize)
    requires
        is_order(old(order)@),
        index1 < keys.len(),
        index2 < keys.len(),
        old(order)@.contains_key(keys@[index1 as int]),
        old(order)@.contains_key(keys@[index2 as int]),
    ensures
        final(order)@ == swapped_nodes(old(order)@, keys@[index1 as int], keys@[index2 as int]),
        is_order(final(order)@),
        final(order)@.dom() == old(order)@.dom(),
{
    let key1 = keys[index1];
    let pos1 = *order.get(&key1).unwrap();
    let key2 = keys[index2];
    let pos2 = *order.get(&key2).unwrap();
    order.insert(key1, pos2);
    order.insert(key2, pos1);
    proof {
        lemma_swapped_nodes(old(order)@, key1, key2);
    }
}

/// The nodes of an order in increasing order of their ids.
pub fn sorted_keys(order: &Order) -> (out: Vec<NodeID>)
    requires
        is_order(order@),
    ensures
        out.len() == order@.dom().len(),
        forall|a: int, b: int| 0 <= a < b < out.len() ==> #[trigger] out@[a] < #[trigger] out@[b],
        forall|a: int| 0 <= a < out.len() ==> order@.contains_key(#[trigger] out@[a]),
        forall|k: NodeID| #[trigger] order@.contains_key(k) ==> out@.contains(k),
        out@ == sorted_ids(order@),
{
    let seq = get_sequence(order);
    proof {
        lemma_order_seq(order@);
    }
    let mut out: Vec<NodeID> = Vec::new();
    let mut i: usize = 0;
    while i < seq.len()
        invariant
            seq@.no_duplicates(),
            i <= seq.len(),
            out.len() == i,
            forall|a: int, b: int| 0 <= a < b < out.len() ==> #[trigger] out@[a] < #[trigger] out@[b],
            forall|a: int| #![trigger out@[a]] 0 <= a < out.len() ==> exists|j: int| 0 <= j < i && #[trigger] seq@[j] == out@[a],
            forall|j: int| 0 <= j < i ==> out@.contains(#[trigger] seq@[j]),
        decreases seq.len() - i,
    {
        let x = seq[i];
        let mut pos: usize = 0;
        while pos < out.len() && out[pos] < x
            invariant
                pos <= out.len(),
                forall|a: int| 0 <= a < pos ==> #[trigger] out@[a] < x,
            decreases out.len() - pos,
        {
            pos = pos + 1;
        }
        proof {
            assert forall|a: int| 0 <= a < out.len() implies #[trigger] out@[a] != x by {
                let j = choose|j: int| 0 <= j < i && #[trigger] seq@[j] == out@[a];
                assert(seq@[j] != seq@[i as int]);
            }
            if pos < out.len() {
                assert forall|b: int| pos <= b < out.len() implies x < #[trigger] out@[b] by {
                    if b > pos {
                        assert(out@[pos as int] < out@[b]);
                    }
                }
            }
        }
        let ghost old_out = out@;
        out.insert(pos, x);
        proof {
            let ns = out@;
            assert forall|a: int, b: int| 0 <= a < b < ns.len() implies #[trigger] ns[a] < #[trigger] ns[b] by {
                if a < pos && b < pos {
                    assert(ns[a] == old_out[a] && ns[b] == old_out[b]);
                } else if a < pos && b == pos {
                    assert(ns[a] == old_out[a]);
                } else if a < pos && b > pos {
                    assert(ns[a] == old_out[a] && ns[b] == old_out[b - 1]);
                } else if a == pos {
                    assert(ns[b] == old_out[b - 1]);
                } else {
                    assert(ns[a] == old_out[a - 1] && ns[b] == old_out[b - 1]);
                }
            }
            assert forall|a: int| #![trigger ns[a]] 0 <= a < ns.len() implies exists|j: int| 0 <= j < i + 1 && #[trigger] seq@[j] == ns[a] by {
                if a == pos {
                    assert(seq@[i as int] == ns[a]);
                } else {
                    let oa = if a < pos { a } else { a - 1 };
                    assert(ns[a] == old_out[oa]);
                    let j = choose|j: int| 0 <= j < i && #[trigger] seq@[j] == old_out[oa];
                    assert(seq@[j] == ns[a]);
                }
            }
            assert forall|j: int| 0 <= j < i + 1 implies ns.contains(#[trigger] seq@[j]) by {
                if j == i {
                    assert(ns[pos as int] == x);
                } else {
                    assert(old_out.contains(seq@[j]));
                    let a = choose|a: int| 0 <= a < old_out.len() && old_out[a] == seq@[j];
                    if a < pos { assert(ns[a] == seq@[j]); } else { assert(ns[a + 1] == seq@[j]); }
                }
            }
        }
        i = i + 1;
    }
    proof {
        assert forall|a: int| 0 <= a < out.len() implies order@.contains_key(#[trigger] out@[a]) by {
            let j = choose|j: int| 0 <= j < i && #[trigger] seq@[j] == out@[a];
            assert(order@.contains_key(seq@[j]));
        }
        assert forall|k: NodeID| #[trigger] order@.contains_key(k) implies out@.contains(k) by {
            assert(seq@[order@[k] as int] == k);
        }
        assert(lists_sorted(out@, order@.dom()));
        lemma_lists_sorted_unique(out@, sorted_ids(order@), order@.dom());
    }
    out
}

/// The order `o` after swapping, one pair after the other, the nodes at the drawn positions of
/// `keys`.
pub open spec fn swaps_applied(o: Map<NodeID, usize>, keys: Seq<NodeID>, draws: Seq<(usize, usize)>) -> Map<NodeID, usize>
    decreases draws.len(),
{
    if draws.len() == 0 {
        o
    } else {
        let d = draws.last();
        swapped_nodes(swaps_applied(o, keys, draws.drop_last()), keys[d.0 as int], keys[d.1 as int])
    }
}

/// Swaps, one pair after the other, the nodes at the drawn positions of the layer's nodes sorted
/// by id.
pub fn apply_draws(layer: &Order, draws: &Vec<(usize, usize)>) -> (out: Order)
    requires
        is_order(layer@),
        forall|k: int| 0 <= k < draws.len() ==> (#[trigger] draws@[k]).0 < layer@.dom().len() && draws@[k].1 < layer@.dom().len(),
    ensures
        out@ == swaps_applied(layer@, sorted_ids(layer@), draws@),
        is_order(out@),
        out@.dom() == layer@.dom(),
{
    let keys = sorted_keys(layer);
    let mut out = layer.clone();
    let mut k: usize = 0;
    proof {
        assert(draws@.take(0) =~= Seq::<(usize, usize)>::empty());
    }
    while k < draws.len()
        invariant
            is_order(layer@),
            is_order(out@),
            out@.dom() == layer@.dom(),
            keys@ == sorted_ids(layer@),
            keys.len() == layer@.dom().len(),
            forall|a: int| 0 <= a < keys.len() ==> layer@.contains_key(#[trigger] keys@[a]),
            forall|k: int| 0 <= k < draws.len() ==> (#[trigger] draws@[k]).0 < layer@.dom().len() && draws@[k].1 < layer@.dom().len(),
            k <= draws.len(),
            out@ == swaps_applied(layer@, keys@, draws@.take(k as int)),
        decreases draws.len() - k,
    {
        let (i1, i2) = draws[k];
        swap_in_layer(&mut out, &keys, i1, i2);
        proof {
            let t = draws@.take(k + 1);
            assert(t.drop_last() =~= draws@.take(k as int));
            assert(t.last() == draws@[k as int]);
        }
        k = k + 1;
    }
    proof {
        assert(draws@.take(draws.len() as int) =~= draws@);
    }
    out
}

/// An ordering that keeps the layers as they are.
pub struct DummyLayerOrdering;

impl LayerOrdering for DummyLayerOrdering {
    open spec fn accepts_layers(&self, doms: Seq<Set<NodeID>>, ev: Map<NodeID, Map<NodeID, usize>>) -> bool {
        true
    }

    open spec fn ordered_to(
        &self,
        ls: Seq<Map<NodeID, usize>>,
        ev: Map<NodeID, Map<NodeID, usize>>,
        group_start: NodeID,
        edge_start: NodeID,
        owners: Map<NodeID, NodeID>,
        out: Seq<Map<NodeID, usize>>,
    ) -> bool {
        out == ls
    }

    fn order_nodes(
        &self,
        layers: &Vec<Order>,
        edges: &EdgeMap,
        dummy_group_start_id: NodeID,
        dummy_edge_start_id: NodeID,
        owners: &HashMap<NodeID, NodeID>,
    ) -> (out: Vec<Order>)
        ensures
            orders_view(out@) == orders_view(layers@),
    {
        let mut out: Vec<Order> = Vec::new();
        let mut i: usize = 0;
        while i < layers.len()
            invariant
                i <= layers.len(),
                out.len() == i,
                forall|j: int| 0 <= j < i ==> (#[trigger] out@[j])@ == layers@[j]@,
            decreases layers.len() - i,
        {
            out.push(layers[i].clone());
            i = i + 1;
        }
        proof {
            assert(orders_view(out@) =~= orders_view(layers@));
            assert forall|j: int| 0 <= j < out.len() implies arrangement(#[trigger] orders_view(out@)[j], layer_doms(orders_view(layers@))[j]) by {
                assert(is_order(orders_view(layers@)[j]));
            }
        }
        out
    }
}

/// Every layer can be swapped through `swaps` times its size, with draws of `u32` size.
pub open spec fn swaps_fit(doms: Seq<Set<NodeID>>, swaps: usize) -> bool {
    forall|i: int| 0 <= i < doms.len() ==> swaps * (#[trigger] doms[i]).len() <= usize::MAX && doms[i].len() <= u32::MAX
}

/// The pairs of positions drawn for `n` swaps in a layer of `len` nodes, from a generator made
/// from `seed` after draws from the ranges `earlier`.
pub open spec fn seeded_pairs(seed: u64, earlier: Seq<(u32, u32)>, n: nat, len: u32) -> Seq<(usize, usize)>
    decreases n,
{
    if n == 0 {
        Seq::empty()
    } else {
        let e1 = earlier.push((0u32, len));
        seq![(seeded_draw(seed, earlier, 0, len) as usize, seeded_draw(seed, e1, 0, len) as usize)]
            + seeded_pairs(seed, e1.push((0u32, len)), (n - 1) as nat, len)
    }
}

/// The ranges drawn from, after `n` swaps in a layer of `len` nodes that follow draws from the
/// ranges `earlier`.
pub open spec fn ranges_after(earlier: Seq<(u32, u32)>, n: nat, len: u32) -> Seq<(u32, u32)>
    decreases n,
{
    if n == 0 {
        earlier
    } else {
        ranges_after(earlier.push((0u32, len)).push((0u32, len)), (n - 1) as nat, len)
    }
}

/// The layers after `swaps` times their size seeded swaps each, one layer after the other, with
/// a generator made from `seed` after draws from the ranges `earlier`.
pub open spec fn seeded_layers(seed: u64, earlier: Seq<(u32, u32)>, swaps: nat, ls: Seq<Map<NodeID, usize>>) -> Seq<Map<NodeID, usize>>
    decreases ls.len(),
{
    if ls.len() == 0 {
        Seq::empty()
    } else {
        let l = ls[0];
        let n = swaps * l.dom().len();
        let len = l.dom().len() as u32;
        seq![swaps_applied(l, sorted_ids(l), seeded_pairs(seed, earlier, n, len))]
            + seeded_layers(seed, ranges_after(earlier, n, len), swaps, ls.drop_first())
    }
}

/// With no swaps, the seeded ordering gives the layers back.
pub proof fn law_no_seeded_swaps(seed: u64, earlier: Seq<(u32, u32)>, ls: Seq<Map<NodeID, usize>>)
    ensures
        seeded_layers(seed, earlier, 0, ls) == ls,
    decreases ls.len(),
{
    if ls.len() > 0 {
        let l = ls[0];
        assert(0 * l.dom().len() == 0);
        law_no_seeded_swaps(seed, earlier, ls.drop_first());
        assert(ls =~= seq![ls[0]] + ls.drop_first());
    }
}

/// An ordering that swaps random pairs of nodes, `swaps` times the size of each layer, with
/// a generator seeded with `seed`, so that the same seed gives the same ordering.
pub struct PseudoRandomLayerOrdering {
    swaps: usize,
    seed: usize,
}

impl PseudoRandomLayerOrdering {
    /// The number of swaps per node.
    pub closed spec fn swaps(&self) -> usize {
        self.swaps
    }

    /// The seed of the generator.
    pub closed spec fn seed(&self) -> usize {
        self.seed
    }

    pub fn new(swaps_per_node: usize, seed: usize) -> (out: PseudoRandomLayerOrdering)
        ensures
            out.swaps() == swaps_per_node,
            out.seed() == seed,
    {
        PseudoRandomLayerOrdering { swaps: swaps_per_node, seed }
    }

    pub fn set_seed(&mut self, seed: usize)
        ensures
            final(self).seed() == seed,
            final(self).swaps() == old(self).swaps(),
    {
        self.seed = seed;
    }
}

/// Draws `count` pairs of positions below `len` from the generator.
fn draw_pairs(rng: &mut SeededGenerator, count: usize, len: usize) -> (out: Vec<(usize, usize)>)
    requires
        0 < len <= u32::MAX,
    ensures
        out@ == seeded_pairs(old(rng).seed(), old(rng).earlier(), count as nat, len as u32),
        final(rng).earlier() == ranges_after(old(rng).earlier(), count as nat, len as u32),
        final(rng).seed() == old(rng).seed(),
        forall|k: int| 0 <= k < out.len() ==> (#[trigger] out@[k]).0 < len && out@[k].1 < len,
{
    let ghost seed = rng.seed();
    let ghost e0 = rng.earlier();
    let mut out: Vec<(usize, usize)> = Vec::new();
    let mut k: usize = 0;
    proof {
        assert(out@ + seeded_pairs(seed, e0, count as nat, len as u32) =~= seeded_pairs(seed, e0, count as nat, len as u32));
    }
    while k < count
        invariant
            0 < len <= u32::MAX,
            k <= count,
            rng.seed() == seed,
            out@ + seeded_pairs(seed, rng.earlier(), (count - k) as nat, len as u32) == seeded_pairs(seed, e0, count as nat, len as u32),
            ranges_after(rng.earlier(), (count - k) as nat, len as u32) == ranges_after(e0, count as nat, len as u32),
            forall|k: int| 0 <= k < out.len() ==> (#[trigger] out@[k]).0 < len && out@[k].1 < len,
        decreases count - k,
    {
        let ghost e = rng.earlier();
        let a32 = random_range(rng, 0, len as u32);
        let b32 = random_range(rng, 0, len as u32);
        let a = a32 as usize;
        let b = b32 as usize;
        let ghost old_out = out@;
        out.push((a, b));
        proof {
            assert(rng.earlier() == e.push((0u32, len as u32)).push((0u32, len as u32)));
            let e1 = e.push((0u32, len as u32));
            let rest = seeded_pairs(seed, rng.earlier(), (count - k - 1) as nat, len as u32);
            assert(a32 == seeded_draw(seed, e, 0, len as u32));
            assert(b32 == seeded_draw(seed, e1, 0, len as u32));
            assert(((count - k) as nat - 1) as nat == (count - k - 1) as nat);
            assert(seeded_pairs(seed, e, (count - k) as nat, len as u32) =~= seq![(a, b)] + rest);
            assert(out@ + rest =~= old_out + (seq![(a, b)] + rest));
        }
        k = k + 1;
    }
    proof {
        assert(out@ + seeded_pairs(seed, rng.earlier(), 0, len as u32) =~= out@);
    }
    out
}

impl LayerOrdering for PseudoRandomLayerOrdering {
    open spec fn accepts_layers(&self, doms: Seq<Set<NodeID>>, ev: Map<NodeID, Map<NodeID, usize>>) -> bool {
        swaps_fit(doms, self.swaps())
    }

    open spec fn ordered_to(
        &self,
        ls: Seq<Map<NodeID, usize>>,
        ev: Map<NodeID, Map<NodeID, usize>>,
        group_start: NodeID,
        edge_start: NodeID,
        owners: Map<NodeID, NodeID>,
        out: Seq<Map<NodeID, usize>>,
    ) -> bool {
        out == seeded_layers(self.seed() as u64, Seq::empty(), self.swaps() as nat, ls)
    }

    /// Swaps pairs of nodes drawn from a generator made from the seed, `swaps` times the size of
    /// each layer, one layer after the other; the pairs are drawn as positions in the layer's
    /// nodes sorted by id.
    fn order_nodes(
        &self,
        layers: &Vec<Order>,
        edges: &EdgeMap,
        dummy_group_start_id: NodeID,
        dummy_edge_start_id: NodeID,
        owners: &HashMap<NodeID, NodeID>,
    ) -> (out: Vec<Order>)
        ensures
            orders_view(out@) == seeded_layers(self.seed() as u64, Seq::empty(), self.swaps() as nat, orders_view(layers@)),
    {
        let ghost ls = orders_view(layers@);
        let ghost doms = layer_doms(ls);
        let ghost seed = self.seed as u64;
        let mut rng = generator_from_seed(self.seed as u64);
        let mut out: Vec<Order> = Vec::new();
        let mut i: usize = 0;
        proof {
            assert(ls.skip(0) =~= ls);
            assert(orders_view(out@) + seeded_layers(seed, rng.earlier(), self.swaps as nat, ls.skip(0)) =~= seeded_layers(seed, Seq::empty(), self.swaps as nat, ls));
        }
        while i < layers.len()
            invariant
                ls == orders_view(layers@),
                doms == layer_doms(ls),
                all_orders(ls),
                swaps_fit(doms, self.swaps),
                rng.seed() == seed,
                i <= layers.len(),
                out.len() == i,
                forall|j: int| 0 <= j < i ==> arrangement(#[trigger] out@[j]@, doms[j]),
                orders_view(out@) + seeded_layers(seed, rng.earlier(), self.swaps as nat, ls.skip(i as int))
                    == seeded_layers(seed, Seq::empty(), self.swaps as nat, ls),
            decreases layers.len() - i,
        {
            let layer = &layers[i];
            assert(ls[i as int] == layer@);
            assert(is_order(ls[i as int]));
            assert(self.swaps * doms[i as int].len() <= usize::MAX && doms[i as int].len() <= u32::MAX);
            let len = layer.len();
            let count = self.swaps * len;
            let ghost e = rng.earlier();
            let pairs = if len == 0 {
                proof {
                    assert(count == 0) by (nonlinear_arith)
                        requires count == self.swaps * len, len == 0;
                }
                Vec::new()
            } else {
                draw_pairs(&mut rng, count, len)
            };
            proof {
                if len == 0 {
                    assert(pairs@ =~= seeded_pairs(seed, e, count as nat, len as u32));
                    assert(rng.earlier() == ranges_after(e, count as nat, len as u32));
                }
            }
            let new_layer = apply_draws(layer, &pairs);
            let ghost old_out = out@;
            out.push(new_layer);
            proof {
                let rest = ls.skip(i as int);
                assert(rest[0] == ls[i as int]);
                assert(rest.drop_first() =~= ls.skip(i + 1));
                assert(seeded_layers(seed, e, self.swaps as nat, rest)
                    == seq![new_layer@] + seeded_layers(seed, rng.earlier(), self.swaps as nat, ls.skip(i + 1)));
                assert(orders_view(out@) =~= orders_view(old_out).push(new_layer@));
                assert(orders_view(out@) + seeded_layers(seed, rng.earlier(), self.swaps as nat, ls.skip(i + 1))
                    =~= orders_view(old_out) + (seq![new_layer@] + seeded_layers(seed, rng.earlier(), self.swaps as nat, ls.skip(i + 1))));
            }
            i = i + 1;
        }
        proof {
            assert(ls.skip(i as int) =~= Seq::<Map<NodeID, usize>>::empty());
            assert(orders_view(out@) + Seq::<Map<NodeID, usize>>::empty() =~= orders_view(out@));
            assert forall|j: int| 0 <= j < out.len() implies arrangement(#[trigger] orders_view(out@)[j], doms[j]) by {
                assert(arrangement(out@[j]@, doms[j]));
            }
        }
        out
    }
}

/// Two seeded orderings with the same swaps and seed order the same layers the same way,
/// whatever the edges, dummy bounds and owners.
pub proof fn law_seeded_deterministic(
    p: PseudoRandomLayerOrdering,
    q: PseudoRandomLayerOrdering,
    ls: Seq<Map<NodeID, usize>>,
    ev1: Map<NodeID, Map<NodeID, usize>>,
    ev2: Map<NodeID, Map<NodeID, usize>>,
    gs1: NodeID,
    gs2: NodeID,
    es1: NodeID,
    es2: NodeID,
    ow1: Map<NodeID, NodeID>,
    ow2: Map<NodeID, NodeID>,
    out1: Seq<Map<NodeID, usize>>,
    out2: Seq<Map<NodeID, usize>>,
)
    requires
        p.swaps() == q.swaps(),
        p.seed() == q.seed(),
        p.ordered_to(ls, ev1, gs1, es1, ow1, out1),
        q.ordered_to(ls, ev2, gs2, es2, ow2, out2),
    ensures
        out1 == out2,
{
}

/// The draws of every layer.
pub open spec fn draws_view(draws: Seq<Vec<(usize, usize)>>) -> Seq<Seq<(usize, usize)>> {
    draws.map_values(|d: Vec<(usize, usize)>| d@)
}

/// Every layer after its nodes, sorted by id, are swapped at the drawn positions.
pub open spec fn layers_swapped(ls: Seq<Map<NodeID, usize>>, draws: Seq<Seq<(usize, usize)>>) -> Seq<Map<NodeID, usize>> {
    Seq::new(ls.len(), |i: int| swaps_applied(ls[i], sorted_ids(ls[i]), draws[i]))
}

/// With nothing drawn, every layer stays as it is.
pub proof fn law_no_draws(ls: Seq<Map<NodeID, usize>>, draws: Seq<Seq<(usize, usize)>>)
    requires
        draws.len() == ls.len(),
        forall|i: int| 0 <= i < draws.len() ==> (#[trigger] draws[i]).len() == 0,
    ensures
        layers_swapped(ls, draws) == ls,
{
    assert(layers_swapped(ls, draws) =~= ls);
}

/// An ordering that swaps random pairs of nodes, `swaps` times the size of each layer, with
/// draws made by the caller.
pub struct RandomLayerOrdering {
    swaps: usize,
}

impl RandomLayerOrdering {
    /// The number of swaps per node.
    pub closed spec fn swaps(&self) -> usize {
        self.swaps
    }

    pub fn new(swaps_per_node: usize) -> (out: RandomLayerOrdering)
        ensures
            out.swaps() == swaps_per_node,
    {
        RandomLayerOrdering { swaps: swaps_per_node }
    }

    /// The number of swaps for a layer of `len` nodes.
    pub fn swap_count(&self, len: usize) -> (out: usize)
        requires
            self.swaps() * len <= usize::MAX,
        ensures
            out == self.swaps() * len,
    {
        self.swaps * len
    }

    /// Swaps, in every layer, the nodes at the drawn positions of its nodes sorted by id, one
    /// pair after the other; `draws[i]` holds the pairs for layer `i`, one per swap.
    pub fn order_nodes_with_draws(&self, layers: &Vec<Order>, draws: &Vec<Vec<(usize, usize)>>) -> (out: Vec<Order>)
        requires
            all_orders(orders_view(layers@)),
            draws.len() == layers.len(),
            forall|i: int| 0 <= i < layers.len() ==> (#[trigger] draws@[i])@.len() == self.swaps() * layers@[i]@.dom().len(),
            forall|i: int, k: int| 0 <= i < layers.len() && 0 <= k < draws@[i]@.len() ==>
                (#[trigger] draws@[i]@[k]).0 < layers@[i]@.dom().len() && draws@[i]@[k].1 < layers@[i]@.dom().len(),
        ensures
            orders_view(out@) == layers_swapped(orders_view(layers@), draws_view(draws@)),
            arrangements(orders_view(out@), layer_doms(orders_view(layers@))),
    {
        swap_layers(layers, draws)
    }

    /// The ordering that swaps with the given draws, `draws[i]` holding the pairs of positions
    /// for layer `i`.
    pub fn with_draws(&self, draws: Vec<Vec<(usize, usize)>>) -> (out: DrawnLayerOrdering)
        ensures
            out.swaps() == self.swaps(),
            out.draws() == draws_view(draws@),
    {
        DrawnLayerOrdering { swaps: self.swaps, draws }
    }
}

/// The random ordering with its draws made: it swaps, in every layer, the nodes at the drawn
/// positions of its nodes sorted by id.
pub struct DrawnLayerOrdering {
    swaps: usize,
    draws: Vec<Vec<(usize, usize)>>,
}

impl DrawnLayerOrdering {
    /// The number of swaps per node.
    pub closed spec fn swaps(&self) -> usize {
        self.swaps
    }

    /// The pairs of positions drawn for every layer.
    pub closed spec fn draws(&self) -> Seq<Seq<(usize, usize)>> {
        draws_view(self.draws@)
    }
}

impl LayerOrdering for DrawnLayerOrdering {
    open spec fn accepts_layers(&self, doms: Seq<Set<NodeID>>, ev: Map<NodeID, Map<NodeID, usize>>) -> bool {
        &&& self.draws().len() == doms.len()
        &&& forall|i: int| 0 <= i < doms.len() ==> (#[trigger] self.draws()[i]).len() == self.swaps() * doms[i].len()
        &&& forall|i: int, k: int| 0 <= i < doms.len() && 0 <= k < self.draws()[i].len() ==>
            (#[trigger] self.draws()[i][k]).0 < doms[i].len() && self.draws()[i][k].1 < doms[i].len()
    }

    open spec fn ordered_to(
        &self,
        ls: Seq<Map<NodeID, usize>>,
        ev: Map<NodeID, Map<NodeID, usize>>,
        group_start: NodeID,
        edge_start: NodeID,
        owners: Map<NodeID, NodeID>,
        out: Seq<Map<NodeID, usize>>,
    ) -> bool {
        out == layers_swapped(ls, self.draws())
    }

    fn order_nodes(
        &self,
        layers: &Vec<Order>,
        edges: &EdgeMap,
        dummy_group_start_id: NodeID,
        dummy_edge_start_id: NodeID,
        owners: &HashMap<NodeID, NodeID>,
    ) -> (out: Vec<Order>) {
        let ghost doms = layer_doms(orders_view(layers@));
        proof {
            assert forall|i: int, k: int| 0 <= i < layers.len() && 0 <= k < self.draws@[i]@.len() implies
                (#[trigger] self.draws@[i]@[k]).0 < layers@[i]@.dom().len() && self.draws@[i]@[k].1 < layers@[i]@.dom().len() by {
                assert(self.draws()[i] == self.draws@[i]@);
                assert(doms[i] == layers@[i]@.dom());
            }
        }
        swap_layers(layers, &self.draws)
    }
}

/// Swaps, in every layer, the nodes at the drawn positions of its nodes sorted by id, one pair
/// after the other; `draws[i]` holds the pairs for layer `i`.
fn swap_layers(layers: &Vec<Order>, draws: &Vec<Vec<(usize, usize)>>) -> (out: Vec<Order>)
    requires
        all_orders(orders_view(layers@)),
        draws.len() == layers.len(),
        forall|i: int, k: int| 0 <= i < layers.len() && 0 <= k < draws@[i]@.len() ==>
            (#[trigger] draws@[i]@[k]).0 < layers@[i]@.dom().len() && draws@[i]@[k].1 < layers@[i]@.dom().len(),
    ensures
        orders_view(out@) == layers_swapped(orders_view(layers@), draws_view(draws@)),
        arrangements(orders_view(out@), layer_doms(orders_view(layers@))),
{
    let ghost doms = layer_doms(orders_view(layers@));
    let mut out: Vec<Order> = Vec::new();
    let mut i: usize = 0;
    while i < layers.len()
        invariant
            doms == layer_doms(orders_view(layers@)),
            all_orders(orders_view(layers@)),
            draws.len() == layers.len(),
            forall|i: int, k: int| 0 <= i < layers.len() && 0 <= k < draws@[i]@.len() ==>
                (#[trigger] draws@[i]@[k]).0 < layers@[i]@.dom().len() && draws@[i]@[k].1 < layers@[i]@.dom().len(),
            i <= layers.len(),
            out.len() == i,
            forall|j: int| 0 <= j < i ==> arrangement(#[trigger] out@[j]@, doms[j]),
            forall|j: int| 0 <= j < i ==> (#[trigger] out@[j])@ == swaps_applied(layers@[j]@, sorted_ids(layers@[j]@), draws@[j]@),
        decreases layers.len() - i,
    {
        assert(is_order(orders_view(layers@)[i as int]));
        let pairs = &draws[i];
        assert forall|k: int| 0 <= k < pairs.len() implies (#[trigger] pairs@[k]).0 < layers@[i as int]@.dom().len() && pairs@[k].1 < layers@[i as int]@.dom().len() by {
            assert(draws@[i as int]@[k] == pairs@[k]);
        }
        let layer = apply_draws(&layers[i], pairs);
        out.push(layer);
        i = i + 1;
    }
    proof {
        assert forall|j: int| 0 <= j < out.len() implies arrangement(#[trigger] orders_view(out@)[j], doms[j]) by {
            assert(arrangement(out@[j]@, doms[j]));
        }
        assert(orders_view(out@) =~= layers_swapped(orders_view(layers@), draws_view(draws@)));
    }
    out
}

/// Applies one ordering and then another.
pub struct SequenceOrdering<O1: LayerOrdering, O2: LayerOrdering> {
    ordering1: O1,
    ordering2: O2,
}

impl<O1: LayerOrdering, O2: LayerOrdering> SequenceOrdering<O1, O2> {
    /// The ordering applied first.
    pub closed spec fn first(&self) -> O1 {
        self.ordering1
    }

    /// The ordering applied second.
    pub closed spec fn second(&self) -> O2 {
        self.ordering2
    }

    pub fn new(o1: O1, o2: O2) -> (out: SequenceOrdering<O1, O2>)
        ensures
            out.first() == o1,
            out.second() == o2,
    {
        SequenceOrdering { ordering1: o1, ordering2: o2 }
    }

    pub fn get_ordering1(&mut self) -> (out: &mut O1)
        ensures
            *out == old(self).first(),
            final(self).first() == *final(out),
            final(self).second() == old(self).second(),
    {
        &mut self.ordering1
    }

    pub fn get_ordering2(&mut self) -> (out: &mut O2)
        ensures
            *out == old(self).second(),
            final(self).second() == *final(out),
            final(self).first() == old(self).first(),
    {
        &mut self.ordering2
    }
}

impl<O1: LayerOrdering, O2: LayerOrdering> LayerOrdering for SequenceOrdering<O1, O2> {
    open spec fn accepts_layers(&self, doms: Seq<Set<NodeID>>, ev: Map<NodeID, Map<NodeID, usize>>) -> bool {
        self.first().accepts_layers(doms, ev) && self.second().accepts_layers(doms, ev)
    }

    open spec fn ordered_to(
        &self,
        ls: Seq<Map<NodeID, usize>>,
        ev: Map<NodeID, Map<NodeID, usize>>,
        group_start: NodeID,
        edge_start: NodeID,
        owners: Map<NodeID, NodeID>,
        out: Seq<Map<NodeID, usize>>,
    ) -> bool {
        exists|mid: Seq<Map<NodeID, usize>>| #[trigger] self.first().ordered_to(ls, ev, group_start, edge_start, owners, mid)
            && arrangements(mid, layer_doms(ls))
            && self.second().ordered_to(mid, ev, group_start, edge_start, owners, out)
    }

    fn order_nodes(
        &self,
        layers: &Vec<Order>,
        edges: &EdgeMap,
        dummy_group_start_id: NodeID,
        dummy_edge_start_id: NodeID,
        owners: &HashMap<NodeID, NodeID>,
    ) -> (out: Vec<Order>) {
        let o1 = self.ordering1.order_nodes(layers, edges, dummy_group_start_id, dummy_edge_start_id, owners);
        proof {
            let doms = layer_doms(orders_view(layers@));
            assert(layer_doms(orders_view(o1@)) =~= doms);
            assert(all_orders(orders_view(o1@)));
        }
        let out = self.ordering2.order_nodes(&o1, edges, dummy_group_start_id, dummy_edge_start_id, owners);
        proof {
            assert(self.first().ordered_to(orders_view(layers@), edge_view(edges@), dummy_group_start_id,
                dummy_edge_start_id, owners@, orders_view(o1@)));
        }
        out
    }
}

} // verus!
