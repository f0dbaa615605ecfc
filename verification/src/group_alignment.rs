use std::collections::HashMap;
use vstd::prelude::*;
use crate::layer_orderer::{
    NodeID, Order, EdgeMap, is_order, order_seq, seq_order, get_sequence, order_from_sequence,
    lemma_order_seq, lemma_seq_order, lemma_orders_equal, orders_view, all_orders,
};
use crate::sugiyama_ordering::{layer_doms, arrangements};
use crate::barycenter_ordering::arrangement;
use crate::layout_traits::LayerGroupSorting;
use crate::barycenter_ordering::{Barycenter, frac_lt, frac_eq, barycenter_less, barycenter_equal};

verus! {

broadcast use vstd::std_specs::hash::group_hash_axioms;

/// The group of node `n` if that group already has an index, that is, occurred in the
/// previous layer.
pub open spec fn self_group(gi: Map<NodeID, usize>, owners: Map<NodeID, NodeID>, n: NodeID) -> Option<NodeID> {
    if owners.contains_key(n) && gi.contains_key(owners[n]) {
        Some(owners[n])
    } else {
        None
    }
}

/// Among the nodes at positions `p..` of the layer `s`, the indexed group with the smallest
/// index (the one furthest back among equals).
pub open spec fn next_group(s: Seq<NodeID>, gi: Map<NodeID, usize>, owners: Map<NodeID, NodeID>, p: int) -> Option<NodeID>
    decreases s.len() - p,
{
    if p >= s.len() || p < 0 {
        None
    } else {
        let later = next_group(s, gi, owners, p + 1);
        match self_group(gi, owners, s[p]) {
            Some(g) => if later is None || gi[g] < gi[later->0] { Some(g) } else { later },
            None => later,
        }
    }
}

/// The group that the node at position `p` is sorted with: its own indexed group, or else
/// the next group after it.
pub open spec fn assigned_group(s: Seq<NodeID>, gi: Map<NodeID, usize>, owners: Map<NodeID, NodeID>, p: int) -> Option<NodeID> {
    match self_group(gi, owners, s[p]) {
        Some(g) => Some(g),
        None => next_group(s, gi, owners, p + 1),
    }
}

/// The sort key of the node at position `p`: the index of its assigned group, or
/// `usize::MAX` when it has none.
pub open spec fn group_key(s: Seq<NodeID>, gi: Map<NodeID, usize>, owners: Map<NodeID, NodeID>, p: int) -> usize {
    match assigned_group(s, gi, owners, p) {
        Some(g) => gi[g],
        None => usize::MAX,
    }
}

/// Position `x` comes before position `y` when sorting by key, ties by position.
pub open spec fn key_lt(keys: Seq<usize>, x: int, y: int) -> bool {
    keys[x] < keys[y] || (keys[x] == keys[y] && x < y)
}

/// `out` orders the nodes of `layer` by the keys of their positions, ties by position.
pub open spec fn sorted_by_keys(out: Map<NodeID, usize>, layer: Map<NodeID, usize>, keys: Seq<usize>) -> bool {
    &&& is_order(out)
    &&& out.dom() == layer.dom()
    &&& forall|u: NodeID, v: NodeID| layer.contains_key(u) && layer.contains_key(v) ==>
        (#[trigger] out[u] < #[trigger] out[v] <==> key_lt(keys, layer[u] as int, layer[v] as int))
}

/// The group keys of all positions of the layer `s`.
pub open spec fn group_keys(s: Seq<NodeID>, gi: Map<NodeID, usize>, owners: Map<NodeID, NodeID>) -> Seq<usize> {
    Seq::new(s.len(), |p: int| group_key(s, gi, owners, p))
}

/// The nodes of `layer` whose position sorts before that of `u`.
pub open spec fn sorted_below(layer: Map<NodeID, usize>, keys: Seq<usize>, u: NodeID) -> Set<NodeID> {
    layer.dom().filter(|v: NodeID| key_lt(keys, layer[v] as int, layer[u] as int))
}

/// Every node of `layer` placed at the number of nodes that sort before it.
pub open spec fn rank_order(layer: Map<NodeID, usize>, keys: Seq<usize>) -> Map<NodeID, usize> {
    Map::new(|u: NodeID| layer.contains_key(u), |u: NodeID| sorted_below(layer, keys, u).len() as usize)
}

/// The layer sorted by the group keys of its nodes over the group index `gi`.
pub open spec fn aligned_order(layer: Map<NodeID, usize>, gi: Map<NodeID, usize>, owners: Map<NodeID, NodeID>) -> Map<NodeID, usize> {
    rank_order(layer, group_keys(order_seq(layer), gi, owners))
}

/// A node that sorts before another has fewer nodes sorting before it.
proof fn lemma_sorted_below(layer: Map<NodeID, usize>, keys: Seq<usize>, u: NodeID, v: NodeID)
    requires
        is_order(layer),
        layer.contains_key(u),
        layer.contains_key(v),
        key_lt(keys, layer[u] as int, layer[v] as int),
    ensures
        sorted_below(layer, keys, u).len() < sorted_below(layer, keys, v).len(),
        sorted_below(layer, keys, v).len() <= layer.dom().len(),
{
    let bu = sorted_below(layer, keys, u);
    let bv = sorted_below(layer, keys, v);
    layer.dom().lemma_len_filter(|w: NodeID| key_lt(keys, layer[w] as int, layer[u] as int));
    layer.dom().lemma_len_filter(|w: NodeID| key_lt(keys, layer[w] as int, layer[v] as int));
    assert(bu.subset_of(bv.remove(u)));
    vstd::set_lib::lemma_len_subset(bu, bv.remove(u));
    assert(bv.contains(u));
}

/// Ranking by the keys sorts the layer by the keys, ties by position.
proof fn lemma_rank_order(layer: Map<NodeID, usize>, keys: Seq<usize>)
    requires
        is_order(layer),
        layer.dom().len() <= usize::MAX,
    ensures
        sorted_by_keys(rank_order(layer, keys), layer, keys),
{
    let r = rank_order(layer, keys);
    assert(r.dom() =~= layer.dom());
    assert forall|u: NodeID| #[trigger] r.contains_key(u) implies r[u] < r.dom().len() by {
        let bu = sorted_below(layer, keys, u);
        layer.dom().lemma_len_filter(|w: NodeID| key_lt(keys, layer[w] as int, layer[u] as int));
        assert(bu.subset_of(layer.dom().remove(u)));
        vstd::set_lib::lemma_len_subset(bu, layer.dom().remove(u));
    }
    assert forall|u: NodeID, v: NodeID| layer.contains_key(u) && layer.contains_key(v) implies
        (#[trigger] r[u] < #[trigger] r[v] <==> key_lt(keys, layer[u] as int, layer[v] as int)) by {
        assert(r.contains_key(u) && r.contains_key(v));
        layer.dom().lemma_len_filter(|w: NodeID| key_lt(keys, layer[w] as int, layer[u] as int));
        layer.dom().lemma_len_filter(|w: NodeID| key_lt(keys, layer[w] as int, layer[v] as int));
        if key_lt(keys, layer[u] as int, layer[v] as int) {
            lemma_sorted_below(layer, keys, u, v);
        } else if u != v {
            assert(layer[u] != layer[v]);
            lemma_sorted_below(layer, keys, v, u);
        }
    }
    assert forall|k1: NodeID, k2: NodeID|
        r.contains_key(k1) && r.contains_key(k2) && #[trigger] r[k1] == #[trigger] r[k2] implies k1 == k2 by {
        if k1 != k2 {
            assert(layer[k1] != layer[k2]);
            if key_lt(keys, layer[k1] as int, layer[k2] as int) {
                lemma_sorted_below(layer, keys, k1, k2);
            } else {
                lemma_sorted_below(layer, keys, k2, k1);
            }
        }
    }
}

/// The group index after a layer listed as `s`: for every owner, the last position of a
/// node it owns.
pub open spec fn owner_positions(s: Seq<NodeID>, owners: Map<NodeID, NodeID>) -> Map<NodeID, usize>
    decreases s.len(),
{
    if s.len() == 0 {
        Map::empty()
    } else {
        let m = owner_positions(s.drop_last(), owners);
        if owners.contains_key(s.last()) {
            m.insert(owners[s.last()], (s.len() - 1) as usize)
        } else {
            m
        }
    }
}

/// The aligned layers: every layer sorted by the group keys over the group index of the
/// aligned layer before it (the first over an empty index).
pub open spec fn aligned_layers(ls: Seq<Map<NodeID, usize>>, owners: Map<NodeID, NodeID>) -> Seq<Map<NodeID, usize>>
    decreases ls.len(),
{
    if ls.len() == 0 {
        Seq::empty()
    } else {
        let prev = aligned_layers(ls.drop_last(), owners);
        let gi = if prev.len() == 0 { Map::empty() } else { owner_positions(order_seq(prev.last()), owners) };
        prev.push(aligned_order(ls.last(), gi, owners))
    }
}

proof fn lemma_aligned_layers_len(ls: Seq<Map<NodeID, usize>>, owners: Map<NodeID, NodeID>)
    ensures
        aligned_layers(ls, owners).len() == ls.len(),
    decreases ls.len(),
{
    if ls.len() > 0 {
        lemma_aligned_layers_len(ls.drop_last(), owners);
    }
}

/// The keyed order is determined by its defining property.
proof fn lemma_aligned_order_unique(m: Map<NodeID, usize>, layer: Map<NodeID, usize>, gi: Map<NodeID, usize>, owners: Map<NodeID, NodeID>)
    requires
        is_order(layer),
        layer.dom().len() <= usize::MAX,
        sorted_by_keys(m, layer, group_keys(order_seq(layer), gi, owners)),
    ensures
        aligned_order(layer, gi, owners) == m,
{
    let keys = group_keys(order_seq(layer), gi, owners);
    let c = aligned_order(layer, gi, owners);
    lemma_rank_order(layer, keys);
    assert(sorted_by_keys(c, layer, keys));
    assert forall|u: NodeID, v: NodeID| m.contains_key(u) && m.contains_key(v) implies
        (#[trigger] m[u] < #[trigger] m[v] <==> c[u] < c[v]) by {
        assert(m[u] < m[v] <==> key_lt(keys, layer[u] as int, layer[v] as int));
        assert(c[u] < c[v] <==> key_lt(keys, layer[u] as int, layer[v] as int));
    }
    lemma_orders_equal(m, c);
}

/// Sorts the positions `0..keys.len()` by key, ties by position.
fn sort_by_keys(keys: &Vec<usize>) -> (out: Vec<usize>)
    ensures
        out.len() == keys.len(),
        out@.no_duplicates(),
        forall|a: int| 0 <= a < out.len() ==> (#[trigger] out@[a]) < keys.len(),
        forall|x: usize| x < keys.len() ==> out@.contains(x),
        forall|a: int, b: int| 0 <= a < b < out.len() ==> key_lt(keys@, #[trigger] out@[a] as int, #[trigger] out@[b] as int),
{
    let mut sorted: Vec<usize> = Vec::new();
    let mut i: usize = 0;
    while i < keys.len()
        invariant
            i <= keys.len(),
            sorted.len() == i,
            sorted@.no_duplicates(),
            forall|a: int| 0 <= a < sorted.len() ==> (#[trigger] sorted@[a]) < i,
            forall|x: usize| x < i ==> sorted@.contains(x),
            forall|a: int, b: int| 0 <= a < b < sorted.len() ==> key_lt(keys@, #[trigger] sorted@[a] as int, #[trigger] sorted@[b] as int),
        decreases keys.len() - i,
    {
        let mut pos: usize = 0;
        while pos < sorted.len() && keys[sorted[pos]] <= keys[i]
            invariant
                i < keys.len(),
                sorted.len() == i,
                forall|a: int| 0 <= a < sorted.len() ==> (#[trigger] sorted@[a]) < i,
                pos <= sorted.len(),
                forall|a: int| 0 <= a < pos ==> keys@[#[trigger] sorted@[a] as int] <= keys@[i as int],
            decreases sorted.len() - pos,
        {
            pos = pos + 1;
        }
        proof {
            if pos < sorted.len() {
                assert forall|b: int| pos <= b < sorted.len() implies keys@[i as int] < keys@[#[trigger] sorted@[b] as int] by {
                    if b > pos {
                        assert(key_lt(keys@, sorted@[pos as int] as int, sorted@[b] as int));
                    }
                }
            }
        }
        let ghost old_sorted = sorted@;
        sorted.insert(pos, i);
        proof {
            let ns = sorted@;
            assert(ns == old_sorted.insert(pos as int, i));
            assert forall|a: int| 0 <= a < ns.len() implies (#[trigger] ns[a]) < i + 1 by {
                if a < pos { assert(ns[a] == old_sorted[a]); } else if a > pos { assert(ns[a] == old_sorted[a - 1]); }
            }
            assert forall|a: int, b: int| 0 <= a < b < ns.len() implies key_lt(keys@, #[trigger] ns[a] as int, #[trigger] ns[b] as int) by {
                if a < pos && b < pos {
                    assert(ns[a] == old_sorted[a] && ns[b] == old_sorted[b]);
                } else if a < pos && b == pos {
                    assert(ns[a] == old_sorted[a]);
                } else if a < pos && b > pos {
                    assert(ns[a] == old_sorted[a] && ns[b] == old_sorted[b - 1]);
                } else if a == pos {
                    assert(ns[b] == old_sorted[b - 1]);
                } else {
                    assert(ns[a] == old_sorted[a - 1] && ns[b] == old_sorted[b - 1]);
                }
            }
            assert forall|a: int, b: int| 0 <= a < ns.len() && 0 <= b < ns.len() && a != b implies ns[a] != ns[b] by {
                if a != pos && b != pos {
                    let oa = if a < pos { a } else { a - 1 };
                    let ob = if b < pos { b } else { b - 1 };
                    assert(ns[a] == old_sorted[oa] && ns[b] == old_sorted[ob]);
                } else if a == pos {
                    let ob = if b < pos { b } else { b - 1 };
                    assert(ns[b] == old_sorted[ob]);
                } else {
                    let oa = if a < pos { a } else { a - 1 };
                    assert(ns[a] == old_sorted[oa]);
                }
            }
            assert forall|x: usize| x < i + 1 implies ns.contains(x) by {
                if x == i {
                    assert(ns[pos as int] == i);
                } else {
                    assert(old_sorted.contains(x));
                    let a = choose|a: int| 0 <= a < old_sorted.len() && old_sorted[a] == x;
                    if a < pos { assert(ns[a] == x); } else { assert(ns[a + 1] == x); }
                }
            }
        }
        i = i + 1;
    }
    sorted
}

/// Orders `layer` by the sort keys of its positions, ties by position.
fn order_by_keys(layer: &Order, seq: &Vec<NodeID>, keys: &Vec<usize>) -> (out: Order)
    requires
        is_order(layer@),
        seq@ == order_seq(layer@),
        keys.len() == seq.len(),
    ensures
        sorted_by_keys(out@, layer@, keys@),
{
    proof {
        lemma_order_seq(layer@);
    }
    let sorted = sort_by_keys(keys);
    let mut nodes: Vec<NodeID> = Vec::new();
    let mut k: usize = 0;
    while k < sorted.len()
        invariant
            sorted.len() == seq.len(),
            forall|a: int| 0 <= a < sorted.len() ==> (#[trigger] sorted@[a]) < seq.len(),
            k <= sorted.len(),
            nodes.len() == k,
            forall|a: int| 0 <= a < k ==> #[trigger] nodes@[a] == seq@[sorted@[a] as int],
        decreases sorted.len() - k,
    {
        nodes.push(seq[sorted[k]]);
        k = k + 1;
    }
    proof {
        assert forall|a: int, b: int| 0 <= a < nodes.len() && 0 <= b < nodes.len() && a != b implies nodes@[a] != nodes@[b] by {
            assert(sorted@[a] != sorted@[b]);
            assert(seq@[sorted@[a] as int] != seq@[sorted@[b] as int]);
        }
    }
    let out = order_from_sequence(&nodes);
    proof {
        let l = layer@;
        assert forall|n: NodeID| out@.contains_key(n) <==> l.contains_key(n) by {
            if l.contains_key(n) {
                let x = l[n] as usize;
                assert(seq@[x as int] == n);
                assert(sorted@.contains(x));
                let a = choose|a: int| 0 <= a < sorted.len() && sorted@[a] == x;
                assert(nodes@[a] == n);
                assert(nodes@.to_set().contains(n));
            }
            if out@.contains_key(n) {
                assert(nodes@.to_set().contains(n));
                let a = choose|a: int| 0 <= a < nodes.len() && nodes@[a] == n;
                assert(l.contains_key(seq@[sorted@[a] as int]));
            }
        }
        assert(out@.dom() =~= l.dom());
        assert forall|u: NodeID, v: NodeID| l.contains_key(u) && l.contains_key(v) implies
            (#[trigger] out@[u] < #[trigger] out@[v] <==> key_lt(keys@, l[u] as int, l[v] as int)) by {
            let x = l[u] as usize;
            let y = l[v] as usize;
            assert(seq@[x as int] == u && seq@[y as int] == v);
            assert(sorted@.contains(x));
            assert(sorted@.contains(y));
            let a = choose|a: int| 0 <= a < sorted.len() && sorted@[a] == x;
            let b = choose|b: int| 0 <= b < sorted.len() && sorted@[b] == y;
            assert(nodes@[a] == u && nodes@[b] == v);
            assert(out@[u] == a && out@[v] == b);
            if a < b {
                assert(key_lt(keys@, sorted@[a] as int, sorted@[b] as int));
            } else if b < a {
                assert(key_lt(keys@, sorted@[b] as int, sorted@[a] as int));
            }
        }
    }
    out
}

/// Sorts `layer` so that every node follows its assigned group: the index in `group_index`
/// of its own group, or of the next group after it, with nodes of no group last; ties keep
/// the layer's order.
pub fn align_layer(layer: &Order, group_index: &HashMap<NodeID, usize>, owners: &HashMap<NodeID, NodeID>) -> (out: Order)
    requires
        is_order(layer@),
    ensures
        out@ == aligned_order(layer@, group_index@, owners@),
        is_order(out@),
        out@.dom() == layer@.dom(),
{
    let ghost gi = group_index@;
    let ghost ow = owners@;
    let s = get_sequence(layer);
    proof {
        lemma_order_seq(layer@);
    }
    let len = s.len();
    let mut next: Option<NodeID> = None;
    let mut keys_rev: Vec<usize> = Vec::new();
    let mut p: usize = len;
    while p > 0
        invariant
            gi == group_index@,
            ow == owners@,
            len == s.len(),
            p <= len,
            next == next_group(s@, gi, ow, p as int),
            next is Some ==> gi.contains_key(next->0),
            keys_rev.len() == len - p,
            forall|j: int| 0 <= j < keys_rev.len() ==> #[trigger] keys_rev@[j] == group_key(s@, gi, ow, len - 1 - j),
        decreases p,
    {
        p = p - 1;
        let node = s[p];
        let own: Option<NodeID> = match owners.get(&node) {
            Some(o) => if group_index.contains_key(o) { Some(*o) } else { None },
            None => None,
        };
        assert(own == self_group(gi, ow, s@[p as int]));
        let key: usize;
        match own {
            Some(g) => {
                let gidx = *group_index.get(&g).unwrap();
                key = gidx;
                let new_next = match next {
                    None => true,
                    Some(ng) => gidx < *group_index.get(&ng).unwrap(),
                };
                if new_next {
                    next = Some(g);
                }
            },
            None => {
                key = match next {
                    Some(ng) => *group_index.get(&ng).unwrap(),
                    None => usize::MAX,
                };
            },
        }
        let ghost old_keys = keys_rev@;
        keys_rev.push(key);
        proof {
            assert forall|j: int| 0 <= j < keys_rev.len() implies #[trigger] keys_rev@[j] == group_key(s@, gi, ow, len - 1 - j) by {
                if j < old_keys.len() {
                    assert(keys_rev@[j] == old_keys[j]);
                }
            }
        }
    }
    let mut keys: Vec<usize> = Vec::new();
    let mut q: usize = 0;
    while q < len
        invariant
            len == s.len(),
            keys_rev.len() == len,
            forall|j: int| 0 <= j < keys_rev.len() ==> #[trigger] keys_rev@[j] == group_key(s@, gi, ow, len - 1 - j),
            q <= len,
            keys.len() == q,
            forall|j: int| 0 <= j < q ==> #[trigger] keys@[j] == group_key(s@, gi, ow, j),
        decreases len - q,
    {
        keys.push(keys_rev[len - 1 - q]);
        q = q + 1;
    }
    proof {
        assert(keys@ =~= group_keys(order_seq(layer@), gi, ow));
    }
    let out = order_by_keys(layer, &s, &keys);
    proof {
        lemma_aligned_order_unique(out@, layer@, gi, ow);
    }
    out
}

/// The group index after an aligned layer: for every owner, the last position of a node it
/// owns.
pub fn group_positions(order: &Order, owners: &HashMap<NodeID, NodeID>) -> (out: HashMap<NodeID, usize>)
    requires
        is_order(order@),
    ensures
        out@ == owner_positions(order_seq(order@), owners@),
{
    let s = get_sequence(order);
    let mut out: HashMap<NodeID, usize> = HashMap::new();
    let mut r: usize = 0;
    proof {
        assert(s@.take(0).len() == 0);
    }
    while r < s.len()
        invariant
            r <= s.len(),
            s@ == order_seq(order@),
            out@ == owner_positions(s@.take(r as int), owners@),
        decreases s.len() - r,
    {
        let node = s[r];
        proof {
            let t = s@.take(r + 1);
            assert(t.drop_last() =~= s@.take(r as int));
            assert(t.last() == node);
        }
        match owners.get(&node) {
            Some(group) => {
                out.insert(*group, r);
            },
            None => {},
        }
        r = r + 1;
    }
    proof {
        assert(s@.take(r as int) =~= s@);
    }
    out
}

/// Sorts each layer according to the group order in the previous layer, so that no two
/// groups cross while the given ordering is kept as far as possible.
pub struct OrderingGroupAlignment;

impl LayerGroupSorting for OrderingGroupAlignment {
    open spec fn accepts_groups(&self, ls: Seq<Map<NodeID, usize>>, owners: Map<NodeID, NodeID>) -> bool {
        true
    }

    open spec fn aligned_to(
        &self,
        ls: Seq<Map<NodeID, usize>>,
        ev: Map<NodeID, Map<NodeID, usize>>,
        group_start: NodeID,
        edge_start: NodeID,
        owners: Map<NodeID, NodeID>,
        out: Seq<Map<NodeID, usize>>,
    ) -> bool {
        out == aligned_layers(ls, owners)
    }

    /// Aligns the layers top to bottom. The edges and the dummy node bounds are not used.
    fn align_cross_layer_nodes(
        &self,
        layers: &Vec<Order>,
        edges: &EdgeMap,
        dummy_group_start_id: NodeID,
        dummy_edge_start_id: NodeID,
        owners: &HashMap<NodeID, NodeID>,
    ) -> (out: Vec<Order>)
        ensures
            orders_view(out@) == aligned_layers(orders_view(layers@), owners@),
    {
        let ghost ls = orders_view(layers@);
        let mut out: Vec<Order> = Vec::new();
        let mut group_index: HashMap<NodeID, usize> = HashMap::new();
        let mut i: usize = 0;
        proof {
            assert(ls.take(0) =~= Seq::<Map<NodeID, usize>>::empty());
            assert(orders_view(out@) =~= Seq::<Map<NodeID, usize>>::empty());
        }
        while i < layers.len()
            invariant
                ls == orders_view(layers@),
                all_orders(ls),
                i <= layers.len(),
                out.len() == i,
                orders_view(out@) == aligned_layers(ls.take(i as int), owners@),
                group_index@ == (if i == 0 { Map::<NodeID, usize>::empty() } else { owner_positions(order_seq(out@[i - 1]@), owners@) }),
                forall|j: int| 0 <= j < i ==> arrangement(#[trigger] out@[j]@, ls[j].dom()),
            decreases layers.len() - i,
        {
            let ghost prev = orders_view(out@);
            assert(is_order(ls[i as int]));
            let aligned = align_layer(&layers[i], &group_index, owners);
            group_index = group_positions(&aligned, owners);
            out.push(aligned);
            proof {
                let t = ls.take(i + 1);
                assert(t.drop_last() =~= ls.take(i as int));
                assert(t.last() == ls[i as int]);
                lemma_aligned_layers_len(ls.take(i as int), owners@);
                if i > 0 {
                    assert(prev.last() == out@[i - 1]@);
                }
                assert(orders_view(out@) =~= prev.push(out@[i as int]@));
            }
            i = i + 1;
        }
        proof {
            assert(ls.take(i as int) =~= ls);
            assert forall|j: int| 0 <= j < out.len() implies arrangement(#[trigger] orders_view(out@)[j], layer_doms(ls)[j]) by {
                assert(arrangement(out@[j]@, ls[j].dom()));
            }
        }
        out
    }
}

/// The group index that layer `i` of the aligned layers `out` is sorted over.
pub open spec fn index_before(out: Seq<Map<NodeID, usize>>, owners: Map<NodeID, NodeID>, i: int) -> Map<NodeID, usize> {
    if i == 0 { Map::empty() } else { owner_positions(order_seq(out[i - 1]), owners) }
}

/// Layer `i` of the aligned layers is layer `i` sorted over the group index of aligned layer
/// `i - 1`.
proof fn lemma_aligned_layers_index(ls: Seq<Map<NodeID, usize>>, owners: Map<NodeID, NodeID>, i: int)
    requires
        0 <= i < ls.len(),
    ensures
        aligned_layers(ls, owners).len() == ls.len(),
        aligned_layers(ls, owners)[i] == aligned_order(ls[i], index_before(aligned_layers(ls, owners), owners, i), owners),
    decreases ls.len(),
{
    lemma_aligned_layers_len(ls, owners);
    let out = aligned_layers(ls, owners);
    let prev = aligned_layers(ls.drop_last(), owners);
    lemma_aligned_layers_len(ls.drop_last(), owners);
    assert(out == prev.push(out.last()));
    if i < ls.len() - 1 {
        lemma_aligned_layers_index(ls.drop_last(), owners, i);
        assert(out[i] == prev[i]);
        if i > 0 {
            assert(out[i - 1] == prev[i - 1]);
        }
        assert(index_before(out, owners, i) == index_before(prev, owners, i));
    } else if i > 0 {
        assert(out[i - 1] == prev.last());
    }
}

/// The group index holds, for an owner with a single node in the layer, that node's position.
proof fn lemma_owner_positions(s: Seq<NodeID>, owners: Map<NodeID, NodeID>, j: int)
    requires
        0 <= j < s.len(),
        s.len() <= usize::MAX + 1,
        owners.contains_key(s[j]),
        forall|k: int| 0 <= k < s.len() && k != j && owners.contains_key(#[trigger] s[k]) ==> owners[s[k]] != owners[s[j]],
    ensures
        owner_positions(s, owners).contains_key(owners[s[j]]),
        owner_positions(s, owners)[owners[s[j]]] == j,
    decreases s.len(),
{
    let t = s.drop_last();
    if j < s.len() - 1 {
        assert forall|k: int| 0 <= k < t.len() && k != j && owners.contains_key(#[trigger] t[k]) implies owners[t[k]] != owners[t[j]] by {
            assert(t[k] == s[k]);
        }
        lemma_owner_positions(t, owners, j);
        assert(t[j] == s[j]);
        let last = s.len() - 1;
        if owners.contains_key(s.last()) {
            assert(owners[s[last]] != owners[s[j]]);
        }
    }
}

/// No two groups cross between neighbouring aligned layers: if the groups of `a` and `b`
/// have no other node in layer `l - 1`, and `a2` and `b2` of those groups are in layer `l`,
/// then `a` placed before `b` puts `a2` before `b2`.
pub proof fn law_groups_do_not_cross(
    ls: Seq<Map<NodeID, usize>>,
    owners: Map<NodeID, NodeID>,
    l: int,
    a: NodeID,
    b: NodeID,
    a2: NodeID,
    b2: NodeID,
)
    requires
        all_orders(ls),
        forall|i: int| 0 <= i < ls.len() ==> (#[trigger] ls[i]).dom().len() <= usize::MAX,
        1 <= l < ls.len(),
        ls[l - 1].contains_key(a),
        ls[l - 1].contains_key(b),
        ls[l].contains_key(a2),
        ls[l].contains_key(b2),
        owners.contains_key(a),
        owners.contains_key(b),
        owners.contains_key(a2),
        owners.contains_key(b2),
        owners[a2] == owners[a],
        owners[b2] == owners[b],
        owners[a] != owners[b],
        forall|n: NodeID| #[trigger] ls[l - 1].contains_key(n) && owners.contains_key(n) && owners[n] == owners[a] ==> n == a,
        forall|n: NodeID| #[trigger] ls[l - 1].contains_key(n) && owners.contains_key(n) && owners[n] == owners[b] ==> n == b,
        aligned_layers(ls, owners)[l - 1][a] < aligned_layers(ls, owners)[l - 1][b],
    ensures
        aligned_layers(ls, owners)[l][a2] < aligned_layers(ls, owners)[l][b2],
{
    let out = aligned_layers(ls, owners);
    lemma_aligned_layers_index(ls, owners, l - 1);
    lemma_aligned_layers_index(ls, owners, l);
    let pl = ls[l - 1];
    assert(is_order(pl));
    assert(pl.dom().len() <= usize::MAX);
    let p = out[l - 1];
    lemma_rank_order(pl, group_keys(order_seq(pl), index_before(out, owners, l - 1), owners));
    assert(is_order(p) && p.dom() == pl.dom());
    let s = order_seq(p);
    lemma_order_seq(p);
    let gi = index_before(out, owners, l);
    assert(gi == owner_positions(s, owners));
    assert(s[p[a] as int] == a);
    assert(s[p[b] as int] == b);
    assert forall|k: int| 0 <= k < s.len() && k != p[a] as int && owners.contains_key(#[trigger] s[k]) implies owners[s[k]] != owners[s[p[a] as int]] by {
        assert(p.contains_key(s[k]));
        assert(p[s[k]] == k);
    }
    lemma_owner_positions(s, owners, p[a] as int);
    assert forall|k: int| 0 <= k < s.len() && k != p[b] as int && owners.contains_key(#[trigger] s[k]) implies owners[s[k]] != owners[s[p[b] as int]] by {
        assert(p.contains_key(s[k]));
        assert(p[s[k]] == k);
    }
    lemma_owner_positions(s, owners, p[b] as int);
    let cl = ls[l];
    let cs = order_seq(cl);
    lemma_order_seq(cl);
    let keys = group_keys(cs, gi, owners);
    assert(cs[cl[a2] as int] == a2);
    assert(cs[cl[b2] as int] == b2);
    assert(keys[cl[a2] as int] == gi[owners[a]]);
    assert(keys[cl[b2] as int] == gi[owners[b]]);
    lemma_rank_order(cl, keys);
}

/// `m` with position `pos` added to the sum, and one to the count, of owner `g`.
pub open spec fn sum_added(m: Map<NodeID, (nat, nat)>, g: NodeID, pos: nat) -> Map<NodeID, (nat, nat)> {
    let old = if m.contains_key(g) { m[g] } else { (0nat, 0nat) };
    m.insert(g, (old.0 + pos, old.1 + 1))
}

/// The sums of positions and counts of nodes per owner, over the nodes `s[0..p]` of a layer
/// listed by position, added to `m`.
pub open spec fn sums_in_layer(m: Map<NodeID, (nat, nat)>, s: Seq<NodeID>, ow: Map<NodeID, NodeID>, p: int) -> Map<NodeID, (nat, nat)>
    decreases p,
{
    if p <= 0 {
        m
    } else {
        let m1 = sums_in_layer(m, s, ow, p - 1);
        if ow.contains_key(s[p - 1]) { sum_added(m1, ow[s[p - 1]], (p - 1) as nat) } else { m1 }
    }
}

/// For every owner, the sum of the positions and the number of the nodes it owns in the
/// layers `ls[0..i]`.
pub open spec fn owner_sums(ls: Seq<Map<NodeID, usize>>, ow: Map<NodeID, NodeID>, i: int) -> Map<NodeID, (nat, nat)>
    decreases i,
{
    if i <= 0 {
        Map::empty()
    } else {
        let s = order_seq(ls[i - 1]);
        sums_in_layer(owner_sums(ls, ow, i - 1), s, ow, s.len() as int)
    }
}

/// The value a node is sorted by: the average position of its owner's nodes over all
/// layers, or its own position for a node without owner.
pub open spec fn avg_key(sums: Map<NodeID, (nat, nat)>, ow: Map<NodeID, NodeID>, l: Map<NodeID, usize>, n: NodeID) -> (nat, nat) {
    if ow.contains_key(n) { sums[ow[n]] } else { (l[n] as nat, 1nat) }
}

/// Node `u` sorts before `v`: a smaller average, or an equal one and a smaller id.
pub open spec fn avg_before(sums: Map<NodeID, (nat, nat)>, ow: Map<NodeID, NodeID>, l: Map<NodeID, usize>, u: NodeID, v: NodeID) -> bool {
    frac_lt(avg_key(sums, ow, l, u), avg_key(sums, ow, l, v))
        || (frac_eq(avg_key(sums, ow, l, u), avg_key(sums, ow, l, v)) && u < v)
}

/// The layer ordered by average: every node placed at the number of nodes sorting before it.
pub open spec fn avg_order(l: Map<NodeID, usize>, sums: Map<NodeID, (nat, nat)>, ow: Map<NodeID, NodeID>) -> Map<NodeID, usize> {
    Map::new(
        |u: NodeID| l.contains_key(u),
        |u: NodeID| l.dom().filter(|v: NodeID| avg_before(sums, ow, l, v, u)).len() as usize,
    )
}

/// The layers each ordered by the average positions of the groups.
pub open spec fn averaged_layers(ls: Seq<Map<NodeID, usize>>, ow: Map<NodeID, NodeID>) -> Seq<Map<NodeID, usize>> {
    ls.map_values(|l: Map<NodeID, usize>| avg_order(l, owner_sums(ls, ow, ls.len() as int), ow))
}

/// Every owner of a node of the layer has a positive count, and the sums fit in a `usize`.
pub open spec fn sums_fit(sums: Map<NodeID, (nat, nat)>) -> bool {
    forall|g: NodeID| #[trigger] sums.contains_key(g) ==> sums[g].0 <= usize::MAX && 0 < sums[g].1 <= usize::MAX
}

/// Every owned node of the layer `l` has its owner's sums.
pub open spec fn owners_summed(sums: Map<NodeID, (nat, nat)>, ow: Map<NodeID, NodeID>, l: Map<NodeID, usize>) -> bool {
    forall|n: NodeID| #[trigger] l.contains_key(n) && ow.contains_key(n) ==> sums.contains_key(ow[n])
}

proof fn lemma_avg_before(sums: Map<NodeID, (nat, nat)>, ow: Map<NodeID, NodeID>, l: Map<NodeID, usize>, u: NodeID, v: NodeID, w: NodeID)
    requires
        sums_fit(sums),
        owners_summed(sums, ow, l),
        l.contains_key(u),
        l.contains_key(v),
        l.contains_key(w),
    ensures
        !avg_before(sums, ow, l, u, u),
        u != v ==> (avg_before(sums, ow, l, u, v) || avg_before(sums, ow, l, v, u)),
        avg_before(sums, ow, l, u, v) ==> !avg_before(sums, ow, l, v, u),
        avg_before(sums, ow, l, u, v) && avg_before(sums, ow, l, v, w) ==> avg_before(sums, ow, l, u, w),
{
    let ku = avg_key(sums, ow, l, u);
    let kv = avg_key(sums, ow, l, v);
    let kw = avg_key(sums, ow, l, w);
    assert(ku.1 > 0 && kv.1 > 0 && kw.1 > 0);
    crate::barycenter_ordering::lemma_frac_props(ku, kv, kw);
    crate::barycenter_ordering::lemma_frac_props(kv, ku, kw);
    crate::barycenter_ordering::lemma_frac_props(ku, ku, ku);
}

proof fn lemma_avg_below(sums: Map<NodeID, (nat, nat)>, ow: Map<NodeID, NodeID>, l: Map<NodeID, usize>, u: NodeID, v: NodeID)
    requires
        is_order(l),
        sums_fit(sums),
        owners_summed(sums, ow, l),
        l.contains_key(u),
        l.contains_key(v),
        avg_before(sums, ow, l, u, v),
    ensures
        l.dom().filter(|x: NodeID| avg_before(sums, ow, l, x, u)).len() < l.dom().filter(|x: NodeID| avg_before(sums, ow, l, x, v)).len(),
        l.dom().filter(|x: NodeID| avg_before(sums, ow, l, x, v)).len() <= l.dom().len(),
{
    let bu = l.dom().filter(|x: NodeID| avg_before(sums, ow, l, x, u));
    let bv = l.dom().filter(|x: NodeID| avg_before(sums, ow, l, x, v));
    l.dom().lemma_len_filter(|x: NodeID| avg_before(sums, ow, l, x, u));
    l.dom().lemma_len_filter(|x: NodeID| avg_before(sums, ow, l, x, v));
    assert forall|x: NodeID| bu.contains(x) implies bv.remove(u).contains(x) by {
        lemma_avg_before(sums, ow, l, x, u, v);
        lemma_avg_before(sums, ow, l, x, x, x);
    }
    assert(bu.subset_of(bv.remove(u)));
    vstd::set_lib::lemma_len_subset(bu, bv.remove(u));
    assert(bv.contains(u));
}

/// Ordering by average gives an order of the same nodes, sorted by average.
pub proof fn lemma_avg_order(l: Map<NodeID, usize>, sums: Map<NodeID, (nat, nat)>, ow: Map<NodeID, NodeID>)
    requires
        is_order(l),
        l.dom().len() <= usize::MAX,
        sums_fit(sums),
        owners_summed(sums, ow, l),
    ensures
        is_order(avg_order(l, sums, ow)),
        avg_order(l, sums, ow).dom() == l.dom(),
        forall|u: NodeID, v: NodeID| l.contains_key(u) && l.contains_key(v) ==>
            (#[trigger] avg_order(l, sums, ow)[u] < #[trigger] avg_order(l, sums, ow)[v] <==> avg_before(sums, ow, l, u, v)),
{
    let r = avg_order(l, sums, ow);
    assert(r.dom() =~= l.dom());
    assert forall|u: NodeID| #[trigger] r.contains_key(u) implies r[u] < r.dom().len() by {
        let bu = l.dom().filter(|x: NodeID| avg_before(sums, ow, l, x, u));
        l.dom().lemma_len_filter(|x: NodeID| avg_before(sums, ow, l, x, u));
        assert forall|x: NodeID| bu.contains(x) implies l.dom().remove(u).contains(x) by {
            lemma_avg_before(sums, ow, l, x, x, x);
        }
        assert(bu.subset_of(l.dom().remove(u)));
        vstd::set_lib::lemma_len_subset(bu, l.dom().remove(u));
    }
    assert forall|u: NodeID, v: NodeID| l.contains_key(u) && l.contains_key(v) implies
        (#[trigger] r[u] < #[trigger] r[v] <==> avg_before(sums, ow, l, u, v)) by {
        l.dom().lemma_len_filter(|x: NodeID| avg_before(sums, ow, l, x, u));
        l.dom().lemma_len_filter(|x: NodeID| avg_before(sums, ow, l, x, v));
        lemma_avg_before(sums, ow, l, u, v, v);
        if avg_before(sums, ow, l, u, v) {
            lemma_avg_below(sums, ow, l, u, v);
        } else if u != v {
            lemma_avg_below(sums, ow, l, v, u);
        }
    }
    assert forall|k1: NodeID, k2: NodeID|
        r.contains_key(k1) && r.contains_key(k2) && #[trigger] r[k1] == #[trigger] r[k2] implies k1 == k2 by {
        if k1 != k2 {
            lemma_avg_before(sums, ow, l, k1, k2, k2);
            if avg_before(sums, ow, l, k1, k2) {
                lemma_avg_below(sums, ow, l, k1, k2);
            } else {
                lemma_avg_below(sums, ow, l, k2, k1);
            }
        }
    }
}

/// Every owner's sums in `a` are at most those in `b`.
pub open spec fn sums_le(a: Map<NodeID, (nat, nat)>, b: Map<NodeID, (nat, nat)>) -> bool {
    forall|g: NodeID| #[trigger] a.contains_key(g) ==> b.contains_key(g) && a[g].0 <= b[g].0 && a[g].1 <= b[g].1
}

proof fn lemma_sums_in_layer_mono(m: Map<NodeID, (nat, nat)>, s: Seq<NodeID>, ow: Map<NodeID, NodeID>, p: int, q: int)
    requires
        0 <= p <= q,
    ensures
        sums_le(sums_in_layer(m, s, ow, p), sums_in_layer(m, s, ow, q)),
        sums_le(m, sums_in_layer(m, s, ow, p)),
    decreases q,
{
    if q > p {
        lemma_sums_in_layer_mono(m, s, ow, p, q - 1);
    } else if p > 0 {
        lemma_sums_in_layer_mono(m, s, ow, p - 1, p - 1);
    }
}

proof fn lemma_sums_in_layer_has(m: Map<NodeID, (nat, nat)>, s: Seq<NodeID>, ow: Map<NodeID, NodeID>, q: int, p: int)
    requires
        0 <= q < p <= s.len(),
        ow.contains_key(s[q]),
    ensures
        sums_in_layer(m, s, ow, p).contains_key(ow[s[q]]),
        sums_in_layer(m, s, ow, p)[ow[s[q]]].1 > 0,
    decreases p,
{
    if q < p - 1 {
        lemma_sums_in_layer_has(m, s, ow, q, p - 1);
        lemma_sums_in_layer_mono(m, s, ow, p - 1, p);
    }
}

proof fn lemma_owner_sums_mono(ls: Seq<Map<NodeID, usize>>, ow: Map<NodeID, NodeID>, i: int, j: int)
    requires
        0 <= i <= j,
    ensures
        sums_le(owner_sums(ls, ow, i), owner_sums(ls, ow, j)),
    decreases j,
{
    if j > i {
        lemma_owner_sums_mono(ls, ow, i, j - 1);
        let s = order_seq(ls[j - 1]);
        lemma_sums_in_layer_mono(owner_sums(ls, ow, j - 1), s, ow, 0, s.len() as int);
    }
}

/// Every owner of a node of the layers has a positive count in the sums.
proof fn lemma_owner_sums_has(ls: Seq<Map<NodeID, usize>>, ow: Map<NodeID, NodeID>, i: int, n: NodeID)
    requires
        all_orders(ls),
        0 <= i < ls.len(),
        ls[i].contains_key(n),
        ow.contains_key(n),
    ensures
        owner_sums(ls, ow, ls.len() as int).contains_key(ow[n]),
        owner_sums(ls, ow, ls.len() as int)[ow[n]].1 > 0,
{
    let s = order_seq(ls[i]);
    assert(is_order(ls[i]));
    lemma_order_seq(ls[i]);
    let q = ls[i][n] as int;
    assert(s[q] == n);
    lemma_sums_in_layer_has(owner_sums(ls, ow, i), s, ow, q, s.len() as int);
    lemma_owner_sums_mono(ls, ow, i + 1, ls.len() as int);
}

/// The sums and counts of a map of pairs.
pub open spec fn sums_view(m: Map<NodeID, (usize, usize)>) -> Map<NodeID, (nat, nat)> {
    Map::new(|g: NodeID| m.contains_key(g), |g: NodeID| (m[g].0 as nat, m[g].1 as nat))
}

/// Adds up, per owner, the positions and the number of the nodes it owns in all layers.
fn owner_sum_map(layers: &Vec<Order>, owners: &HashMap<NodeID, NodeID>) -> (out: HashMap<NodeID, (usize, usize)>)
    requires
        all_orders(orders_view(layers@)),
        sums_fit(owner_sums(orders_view(layers@), owners@, layers.len() as int)),
    ensures
        sums_view(out@) == owner_sums(orders_view(layers@), owners@, layers.len() as int),
{
    let ghost ls = orders_view(layers@);
    let ghost ow = owners@;
    let ghost fin = owner_sums(ls, ow, ls.len() as int);
    let mut sums: HashMap<NodeID, (usize, usize)> = HashMap::new();
    proof {
        assert(sums_view(sums@) =~= owner_sums(ls, ow, 0));
    }
    let mut i: usize = 0;
    while i < layers.len()
        invariant
            ls == orders_view(layers@),
            ow == owners@,
            fin == owner_sums(ls, ow, ls.len() as int),
            all_orders(ls),
            sums_fit(fin),
            i <= layers.len(),
            sums_view(sums@) == owner_sums(ls, ow, i as int),
        decreases layers.len() - i,
    {
        assert(is_order(ls[i as int]));
        let seq = get_sequence(&layers[i]);
        let ghost base = owner_sums(ls, ow, i as int);
        proof {
            lemma_owner_sums_mono(ls, ow, i + 1, ls.len() as int);
            lemma_sums_in_layer_mono(base, seq@, ow, 0, seq.len() as int);
        }
        let mut p: usize = 0;
        while p < seq.len()
            invariant
                ow == owners@,
                sums_fit(fin),
                sums_le(sums_in_layer(base, seq@, ow, seq.len() as int), fin),
                p <= seq.len(),
                sums_view(sums@) == sums_in_layer(base, seq@, ow, p as int),
            decreases seq.len() - p,
        {
            let node = seq[p];
            proof {
                lemma_sums_in_layer_mono(base, seq@, ow, p + 1, seq.len() as int);
            }
            match owners.get(&node) {
                Some(g) => {
                    let (sum, count) = match sums.get(g) {
                        Some(v) => *v,
                        None => (0, 0),
                    };
                    proof {
                        let next = sums_in_layer(base, seq@, ow, p + 1);
                        assert(next.contains_key(*g));
                        assert(fin.contains_key(*g));
                    }
                    sums.insert(*g, (sum + p, count + 1));
                    proof {
                        assert(sums_view(sums@) =~= sums_in_layer(base, seq@, ow, p + 1));
                    }
                },
                None => {},
            }
            p = p + 1;
        }
        i = i + 1;
    }
    sums
}

/// Position `x` sorts before position `y`: a smaller average, or an equal one and a smaller id.
spec fn position_before(keys: Seq<Barycenter>, seq: Seq<NodeID>, x: int, y: int) -> bool {
    frac_lt(keys[x].frac(), keys[y].frac()) || (frac_eq(keys[x].frac(), keys[y].frac()) && seq[x] < seq[y])
}

/// Sorts the positions of the layer listed by `seq` by the averages in `keys`, ties by id.
fn sort_by_average(keys: &Vec<Barycenter>, seq: &Vec<NodeID>) -> (out: Vec<usize>)
    requires
        keys.len() == seq.len(),
        forall|i: int| 0 <= i < keys.len() ==> (#[trigger] keys@[i]).total > 0,
        seq@.no_duplicates(),
    ensures
        out.len() == keys.len(),
        out@.no_duplicates(),
        forall|a: int| 0 <= a < out.len() ==> (#[trigger] out@[a]) < keys.len(),
        forall|x: usize| x < keys.len() ==> out@.contains(x),
        forall|a: int, b: int| 0 <= a < b < out.len() ==> position_before(keys@, seq@, #[trigger] out@[a] as int, #[trigger] out@[b] as int),
{
    let mut sorted: Vec<usize> = Vec::new();
    let mut i: usize = 0;
    while i < keys.len()
        invariant
            keys.len() == seq.len(),
            forall|i: int| 0 <= i < keys.len() ==> (#[trigger] keys@[i]).total > 0,
            seq@.no_duplicates(),
            i <= keys.len(),
            sorted.len() == i,
            sorted@.no_duplicates(),
            forall|a: int| 0 <= a < sorted.len() ==> (#[trigger] sorted@[a]) < i,
            forall|x: usize| x < i ==> sorted@.contains(x),
            forall|a: int, b: int| 0 <= a < b < sorted.len() ==> position_before(keys@, seq@, #[trigger] sorted@[a] as int, #[trigger] sorted@[b] as int),
        decreases keys.len() - i,
    {
        let mut pos: usize = 0;
        while pos < sorted.len() && !(barycenter_less(&keys[i], &keys[sorted[pos]])
            || (barycenter_equal(&keys[i], &keys[sorted[pos]]) && seq[i] < seq[sorted[pos]]))
            invariant
                keys.len() == seq.len(),
                i < keys.len(),
                sorted.len() == i,
                forall|a: int| 0 <= a < sorted.len() ==> (#[trigger] sorted@[a]) < i,
                pos <= sorted.len(),
                forall|a: int| 0 <= a < pos ==> !position_before(keys@, seq@, i as int, #[trigger] sorted@[a] as int),
            decreases sorted.len() - pos,
        {
            pos = pos + 1;
        }
        proof {
            if pos < sorted.len() {
                assert(position_before(keys@, seq@, i as int, sorted@[pos as int] as int));
                assert forall|b: int| pos <= b < sorted.len() implies position_before(keys@, seq@, i as int, #[trigger] sorted@[b] as int) by {
                    if b > pos {
                        let x = sorted@[pos as int] as int;
                        let y = sorted@[b] as int;
                        assert(position_before(keys@, seq@, x, y));
                        crate::barycenter_ordering::lemma_frac_props(keys@[i as int].frac(), keys@[x].frac(), keys@[y].frac());
                    }
                }
            }
        }
        let ghost old_sorted = sorted@;
        sorted.insert(pos, i);
        proof {
            let ns = sorted@;
            assert(ns == old_sorted.insert(pos as int, i));
            assert forall|a: int| 0 <= a < ns.len() implies (#[trigger] ns[a]) < i + 1 by {
                if a < pos { assert(ns[a] == old_sorted[a]); } else if a > pos { assert(ns[a] == old_sorted[a - 1]); }
            }
            assert forall|a: int, b: int| 0 <= a < b < ns.len() implies position_before(keys@, seq@, #[trigger] ns[a] as int, #[trigger] ns[b] as int) by {
                if a < pos && b < pos {
                    assert(ns[a] == old_sorted[a] && ns[b] == old_sorted[b]);
                } else if a < pos && b == pos {
                    let x = old_sorted[a] as int;
                    assert(ns[a] == old_sorted[a]);
                    assert(!position_before(keys@, seq@, i as int, x));
                    assert(seq@[i as int] != seq@[x]);
                    crate::barycenter_ordering::lemma_frac_props(keys@[i as int].frac(), keys@[x].frac(), keys@[i as int].frac());
                } else if a < pos && b > pos {
                    assert(ns[a] == old_sorted[a] && ns[b] == old_sorted[b - 1]);
                } else if a == pos {
                    assert(ns[b] == old_sorted[b - 1]);
                } else {
                    assert(ns[a] == old_sorted[a - 1] && ns[b] == old_sorted[b - 1]);
                }
            }
            assert forall|a: int, b: int| 0 <= a < ns.len() && 0 <= b < ns.len() && a != b implies ns[a] != ns[b] by {
                if a != pos && b != pos {
                    let oa = if a < pos { a } else { a - 1 };
                    let ob = if b < pos { b } else { b - 1 };
                    assert(ns[a] == old_sorted[oa] && ns[b] == old_sorted[ob]);
                } else if a == pos {
                    let ob = if b < pos { b } else { b - 1 };
                    assert(ns[b] == old_sorted[ob]);
                } else {
                    let oa = if a < pos { a } else { a - 1 };
                    assert(ns[a] == old_sorted[oa]);
                }
            }
            assert forall|x: usize| x < i + 1 implies ns.contains(x) by {
                if x == i {
                    assert(ns[pos as int] == i);
                } else {
                    assert(old_sorted.contains(x));
                    let a = choose|a: int| 0 <= a < old_sorted.len() && old_sorted[a] == x;
                    if a < pos { assert(ns[a] == x); } else { assert(ns[a + 1] == x); }
                }
            }
        }
        i = i + 1;
    }
    sorted
}

/// Orders a layer by the average positions of the groups of its nodes (a node without group
/// by its own position), ties by node id.
fn order_by_average(layer: &Order, sums: &HashMap<NodeID, (usize, usize)>, owners: &HashMap<NodeID, NodeID>) -> (out: Order)
    requires
        is_order(layer@),
        sums_fit(sums_view(sums@)),
        owners_summed(sums_view(sums@), owners@, layer@),
    ensures
        out@ == avg_order(layer@, sums_view(sums@), owners@),
        is_order(out@),
        out@.dom() == layer@.dom(),
{
    let ghost sv = sums_view(sums@);
    let ghost ow = owners@;
    let ghost l = layer@;
    let seq = get_sequence(layer);
    proof {
        lemma_order_seq(l);
    }
    let mut keys: Vec<Barycenter> = Vec::new();
    let mut p: usize = 0;
    while p < seq.len()
        invariant
            sv == sums_view(sums@),
            ow == owners@,
            l == layer@,
            seq@ == order_seq(l),
            forall|x: int| 0 <= x < seq.len() ==> l.contains_key(#[trigger] seq@[x]) && l[seq@[x]] == x,
            sums_fit(sv),
            owners_summed(sv, ow, l),
            p <= seq.len(),
            keys.len() == p,
            forall|x: int| 0 <= x < p ==> (#[trigger] keys@[x]).frac() == avg_key(sv, ow, l, seq@[x]) && keys@[x].total > 0,
        decreases seq.len() - p,
    {
        let node = seq[p];
        proof {
            assert(l.contains_key(seq@[p as int]));
        }
        let key = match owners.get(&node) {
            Some(g) => {
                let (sum, count) = *sums.get(g).unwrap();
                Barycenter { sum, total: count }
            },
            None => Barycenter { sum: p, total: 1 },
        };
        keys.push(key);
        p = p + 1;
    }
    let sorted = sort_by_average(&keys, &seq);
    let mut nodes: Vec<NodeID> = Vec::new();
    let mut k: usize = 0;
    while k < sorted.len()
        invariant
            sorted.len() == seq.len(),
            forall|a: int| 0 <= a < sorted.len() ==> (#[trigger] sorted@[a]) < seq.len(),
            k <= sorted.len(),
            nodes.len() == k,
            forall|a: int| 0 <= a < k ==> #[trigger] nodes@[a] == seq@[sorted@[a] as int],
        decreases sorted.len() - k,
    {
        nodes.push(seq[sorted[k]]);
        k = k + 1;
    }
    proof {
        assert forall|a: int, b: int| 0 <= a < nodes.len() && 0 <= b < nodes.len() && a != b implies nodes@[a] != nodes@[b] by {
            assert(sorted@[a] != sorted@[b]);
            assert(seq@[sorted@[a] as int] != seq@[sorted@[b] as int]);
        }
    }
    let out = order_from_sequence(&nodes);
    proof {
        assert forall|n: NodeID| out@.contains_key(n) <==> l.contains_key(n) by {
            if l.contains_key(n) {
                let x = l[n] as usize;
                assert(seq@[x as int] == n);
                assert(sorted@.contains(x));
                let a = choose|a: int| 0 <= a < sorted.len() && sorted@[a] == x;
                assert(nodes@[a] == n);
                assert(nodes@.to_set().contains(n));
            }
            if out@.contains_key(n) {
                assert(nodes@.to_set().contains(n));
                let a = choose|a: int| 0 <= a < nodes.len() && nodes@[a] == n;
                assert(l.contains_key(seq@[sorted@[a] as int]));
            }
        }
        assert(out@.dom() =~= l.dom());
        lemma_avg_order(l, sv, ow);
        let m = avg_order(l, sv, ow);
        assert forall|u: NodeID, v: NodeID| out@.contains_key(u) && out@.contains_key(v) implies
            (#[trigger] out@[u] < #[trigger] out@[v] <==> m[u] < m[v]) by {
            let x = l[u] as usize;
            let y = l[v] as usize;
            assert(seq@[x as int] == u && seq@[y as int] == v);
            assert(sorted@.contains(x));
            assert(sorted@.contains(y));
            let a = choose|a: int| 0 <= a < sorted.len() && sorted@[a] == x;
            let b = choose|b: int| 0 <= b < sorted.len() && sorted@[b] == y;
            assert(nodes@[a] == u && nodes@[b] == v);
            assert(out@[u] == a && out@[v] == b);
            assert(keys@[x as int].frac() == avg_key(sv, ow, l, u));
            assert(keys@[y as int].frac() == avg_key(sv, ow, l, v));
            lemma_avg_before(sv, ow, l, u, v, v);
            if a < b {
                assert(position_before(keys@, seq@, sorted@[a] as int, sorted@[b] as int));
            } else if b < a {
                assert(position_before(keys@, seq@, sorted@[b] as int, sorted@[a] as int));
            }
        }
        lemma_orders_equal(out@, m);
    }
    out
}

/// Sorts every layer by the average position of each group over all layers, so that the
/// nodes of a group tend to line up.
pub struct AverageGroupAlignment;

impl LayerGroupSorting for AverageGroupAlignment {
    open spec fn accepts_groups(&self, ls: Seq<Map<NodeID, usize>>, owners: Map<NodeID, NodeID>) -> bool {
        sums_fit(owner_sums(ls, owners, ls.len() as int))
    }

    open spec fn aligned_to(
        &self,
        ls: Seq<Map<NodeID, usize>>,
        ev: Map<NodeID, Map<NodeID, usize>>,
        group_start: NodeID,
        edge_start: NodeID,
        owners: Map<NodeID, NodeID>,
        out: Seq<Map<NodeID, usize>>,
    ) -> bool {
        out == averaged_layers(ls, owners)
    }

    /// Orders every layer by average; the edges and the dummy node bounds are not used.
    fn align_cross_layer_nodes(
        &self,
        layers: &Vec<Order>,
        edges: &EdgeMap,
        dummy_group_start_id: NodeID,
        dummy_edge_start_id: NodeID,
        owners: &HashMap<NodeID, NodeID>,
    ) -> (out: Vec<Order>)
        ensures
            orders_view(out@) == averaged_layers(orders_view(layers@), owners@),
    {
        let ghost ls = orders_view(layers@);
        let ghost ow = owners@;
        let sums = owner_sum_map(layers, owners);
        let ghost sv = sums_view(sums@);
        let mut out: Vec<Order> = Vec::new();
        let mut i: usize = 0;
        while i < layers.len()
            invariant
                ls == orders_view(layers@),
                ow == owners@,
                all_orders(ls),
                sv == sums_view(sums@),
                sv == owner_sums(ls, ow, ls.len() as int),
                sums_fit(sv),
                i <= layers.len(),
                out.len() == i,
                forall|j: int| 0 <= j < i ==> (#[trigger] out@[j])@ == avg_order(ls[j], sv, ow),
                forall|j: int| 0 <= j < i ==> arrangement(#[trigger] out@[j]@, ls[j].dom()),
            decreases layers.len() - i,
        {
            proof {
                assert(is_order(ls[i as int]));
                assert forall|n: NodeID| #[trigger] ls[i as int].contains_key(n) && ow.contains_key(n) implies sv.contains_key(ow[n]) by {
                    lemma_owner_sums_has(ls, ow, i as int, n);
                }
            }
            let layer = order_by_average(&layers[i], &sums, owners);
            out.push(layer);
            i = i + 1;
        }
        proof {
            assert(orders_view(out@) =~= averaged_layers(ls, ow));
            assert forall|j: int| 0 <= j < out.len() implies arrangement(#[trigger] orders_view(out@)[j], layer_doms(ls)[j]) by {
                assert(arrangement(out@[j]@, ls[j].dom()));
            }
        }
        out
    }
}

} // verus!
