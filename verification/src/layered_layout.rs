use std::collections::HashMap;
use vstd::prelude::*;
use crate::layer_orderer::{NodeID, Order, EdgeMap, is_order, edge_view, orders_view, all_orders, order_seq, map_entries, lists_map};
use crate::group_alignment::owner_positions;
use crate::layout_traits::{LayerOrdering, LayerGroupSorting};
use crate::sugiyama_ordering::{arrangements, layer_doms};
use crate::barycenter_ordering::arrangement;

verus! {

broadcast use vstd::std_specs::hash::group_hash_axioms;

/// `node` is a dummy node of a group: its id lies in `dummy_group_start_id..dummy_edge_start_id`.
pub open spec fn group_dummy(node: NodeID, dummy_group_start_id: NodeID, dummy_edge_start_id: NodeID) -> bool {
    dummy_group_start_id <= node < dummy_edge_start_id
}

/// `node` is a dummy node of an edge: its id is at least `dummy_edge_start_id`.
pub open spec fn edge_dummy(node: NodeID, dummy_edge_start_id: NodeID) -> bool {
    node >= dummy_edge_start_id
}

pub fn is_group_dummy(node: NodeID, dummy_group_start_id: NodeID, dummy_edge_start_id: NodeID) -> (out: bool)
    ensures
        out == group_dummy(node, dummy_group_start_id, dummy_edge_start_id),
{
    node >= dummy_group_start_id && node < dummy_edge_start_id
}

pub fn is_edge_dummy(node: NodeID, dummy_edge_start_id: NodeID) -> (out: bool)
    ensures
        out == edge_dummy(node, dummy_edge_start_id),
{
    node >= dummy_edge_start_id
}

/// No node is both a dummy node of a group and a dummy node of an edge.
pub proof fn law_dummy_kinds_disjoint(node: NodeID, dummy_group_start_id: NodeID, dummy_edge_start_id: NodeID)
    ensures
        !(group_dummy(node, dummy_group_start_id, dummy_edge_start_id) && edge_dummy(node, dummy_edge_start_id)),
{
}

/// The layers extended with empty layers so that layer `layer` exists.
pub open spec fn padded(ls: Seq<Map<NodeID, usize>>, layer: int) -> Seq<Map<NodeID, usize>> {
    if layer < ls.len() {
        ls
    } else {
        ls + Seq::new((layer + 1 - ls.len()) as nat, |i: int| Map::<NodeID, usize>::empty())
    }
}

/// The layers with `id` placed at the end of layer `layer`.
pub open spec fn layer_added(ls: Seq<Map<NodeID, usize>>, layer: int, id: NodeID) -> Seq<Map<NodeID, usize>> {
    let p = padded(ls, layer);
    p.update(layer, p[layer].insert(id, p[layer].dom().len() as usize))
}

/// Places `id` at the end of layer `layer`, adding empty layers up to it where needed.
pub fn add_to_layer(layers: &mut Vec<Order>, layer: usize, id: NodeID)
    requires
        layer < usize::MAX,
    ensures
        orders_view(final(layers)@) == layer_added(orders_view(old(layers)@), layer as int, id),
        all_orders(orders_view(old(layers)@)) && !layer_ids(orders_view(old(layers)@)).contains(id) ==>
            all_orders(orders_view(final(layers)@)),
        layer_ids(orders_view(final(layers)@)) == layer_ids(orders_view(old(layers)@)).insert(id),
        orders_view(final(layers)@).len() == (if (layer as int) < old(layers).len() { old(layers).len() as int } else { layer + 1 }),
        forall|i: int, x: NodeID| 0 <= i < orders_view(final(layers)@).len() ==>
            (#[trigger] orders_view(final(layers)@)[i].contains_key(x) <==>
                ((i < old(layers).len() && orders_view(old(layers)@)[i].contains_key(x)) || (i == layer && x == id))),
{
    let ghost start = orders_view(layers@);
    while layer >= layers.len()
        invariant
            start.len() <= layers.len(),
            layer < usize::MAX,
            layers.len() <= (if layer < start.len() { start.len() as int } else { layer as int + 1 }),
            orders_view(layers@) == padded(start, layer as int).take(layers.len() as int),
        decreases layer + 1 - layers.len(),
    {
        let ghost before = orders_view(layers@);
        layers.push(HashMap::new());
        proof {
            assert(orders_view(layers@) =~= padded(start, layer as int).take(layers.len() as int));
        }
    }
    proof {
        assert(padded(start, layer as int).len() == layers.len());
        assert(orders_view(layers@) =~= padded(start, layer as int));
    }
    let ghost before = orders_view(layers@);
    let l = &mut layers[layer];
    let len = l.len();
    l.insert(id, len);
    proof {
        assert(orders_view(layers@) =~= layer_added(start, layer as int, id));
        let p = padded(start, layer as int);
        assert(p[layer as int].dom().len() == len);
        if all_orders(start) && !layer_ids(start).contains(id) {
            if (layer as int) < start.len() {
                assert(!start[layer as int].contains_key(id));
            }
            law_layer_added_keeps_orders(start, layer as int, id);
        }
        let r = orders_view(layers@);
        assert forall|n: NodeID| #[trigger] layer_ids(r).contains(n) <==> layer_ids(start).insert(id).contains(n) by {
            if layer_ids(r).contains(n) && n != id {
                let i = choose|i: int| 0 <= i < r.len() && #[trigger] r[i].contains_key(n);
                if i == layer {
                    assert(p[i].contains_key(n));
                }
                if i >= start.len() {
                    assert(p[i] == Map::<NodeID, usize>::empty());
                }
                assert(start[i].contains_key(n));
            }
            if layer_ids(start).contains(n) {
                let i = choose|i: int| 0 <= i < start.len() && #[trigger] start[i].contains_key(n);
                assert(r[i].contains_key(n));
            }
            if n == id {
                assert(r[layer as int].contains_key(id));
            }
        }
        assert(layer_ids(r) =~= layer_ids(start).insert(id));
        assert forall|i: int, x: NodeID| 0 <= i < r.len() implies
            (#[trigger] r[i].contains_key(x) <==> ((i < start.len() && start[i].contains_key(x)) || (i == layer && x == id))) by {
            if i >= start.len() {
                assert(p[i] == Map::<NodeID, usize>::empty());
            }
        }
    }
}

/// The nodes of all layers.
pub open spec fn layer_ids(ls: Seq<Map<NodeID, usize>>) -> Set<NodeID> {
    Set::new(|n: NodeID| exists|i: int| 0 <= i < ls.len() && #[trigger] ls[i].contains_key(n))
}

/// Every node of the layers has an id below `next`.
pub open spec fn ids_below(ls: Seq<Map<NodeID, usize>>, next: int) -> bool {
    forall|n: NodeID| #[trigger] layer_ids(ls).contains(n) ==> n < next
}

/// An order extended at its end keeps being an order, if the node is new.
pub proof fn law_layer_added_keeps_orders(ls: Seq<Map<NodeID, usize>>, layer: int, id: NodeID)
    requires
        all_orders(ls),
        0 <= layer,
        layer < ls.len() ==> !ls[layer].contains_key(id) && ls[layer].dom().len() <= usize::MAX,
    ensures
        all_orders(layer_added(ls, layer, id)),
        layer_added(ls, layer, id).len() == (if layer < ls.len() { ls.len() as int } else { layer + 1 }),
        layer_added(ls, layer, id)[layer].dom() == padded(ls, layer)[layer].dom().insert(id),
        forall|i: int| 0 <= i < ls.len() && i != layer ==> #[trigger] layer_added(ls, layer, id)[i] == ls[i],
{
    let p = padded(ls, layer);
    let r = layer_added(ls, layer, id);
    assert forall|i: int| 0 <= i < r.len() implies is_order(#[trigger] r[i]) by {
        if i == layer {
            let m = p[layer];
            if layer >= ls.len() {
                assert(m == Map::<NodeID, usize>::empty());
            }
            assert(is_order(m));
            let n = m.insert(id, m.dom().len() as usize);
            assert(n.dom() =~= m.dom().insert(id));
            assert(!m.contains_key(id));
        } else if i >= ls.len() {
            assert(r[i] == Map::<NodeID, usize>::empty());
        } else {
            assert(r[i] == ls[i]);
        }
    }
}

/// The edges with an edge from `from` to `to` of weight 1 added.
pub open spec fn edge_added(ev: Map<NodeID, Map<NodeID, usize>>, from: NodeID, to: NodeID) -> Map<NodeID, Map<NodeID, usize>> {
    ev.insert(from, (if ev.contains_key(from) { ev[from] } else { Map::empty() }).insert(to, 1))
}

/// Adds the edge from `from` to `to` (with weight 1; an edge that is already there stays one
/// edge).
pub fn add_to_edges(edges: &mut EdgeMap, from: NodeID, to: NodeID)
    ensures
        edge_view(final(edges)@) == edge_added(edge_view(old(edges)@), from, to),
{
    let mut tos = match edges.remove(&from) {
        Some(t) => t,
        None => HashMap::new(),
    };
    tos.insert(to, 1);
    edges.insert(from, tos);
    proof {
        assert(edge_view(final(edges)@) =~= edge_added(edge_view(old(edges)@), from, to));
    }
}

/// For every group, the node standing for it at each of its layers.
pub type GroupLayers = HashMap<NodeID, HashMap<u32, usize>>;

/// The nodes of the groups by layer, as a map of maps.
pub open spec fn group_layers_view(m: Map<NodeID, HashMap<u32, usize>>) -> Map<NodeID, Map<u32, usize>> {
    Map::new(|g: NodeID| m.contains_key(g), |g: NodeID| m[g]@)
}

/// The layers after the groups `groups[0..k]` (id, first level, last level) were placed at
/// their first level.
pub open spec fn groups_placed(ls: Seq<Map<NodeID, usize>>, groups: Seq<(NodeID, u32, u32)>, k: int) -> Seq<Map<NodeID, usize>>
    decreases k,
{
    if k <= 0 {
        ls
    } else {
        layer_added(groups_placed(ls, groups, k - 1), groups[k - 1].1 as int, groups[k - 1].0)
    }
}

/// The first free id after the groups `groups[0..k]`: above every group id and at least `next`.
pub open spec fn first_free(next: int, groups: Seq<(NodeID, u32, u32)>, k: int) -> int
    decreases k,
{
    if k <= 0 {
        next
    } else {
        let n = first_free(next, groups, k - 1);
        if groups[k - 1].0 >= n { groups[k - 1].0 + 1 } else { n }
    }
}

/// Every group of `groups[0..k]` with its node at its first level.
pub open spec fn start_layers(groups: Seq<(NodeID, u32, u32)>, k: int) -> Map<NodeID, Map<u32, usize>>
    decreases k,
{
    if k <= 0 {
        Map::empty()
    } else {
        start_layers(groups, k - 1).insert(groups[k - 1].0, Map::empty().insert(groups[k - 1].1, groups[k - 1].0))
    }
}

/// The number of dummy nodes a group needs: one for every level after its first.
pub open spec fn span(group: (NodeID, u32, u32)) -> int {
    if group.2 > group.1 { group.2 - group.1 } else { 0 }
}

/// The number of dummy nodes of the groups `groups[0..k]`.
pub open spec fn total_span(groups: Seq<(NodeID, u32, u32)>, k: int) -> int
    decreases k,
{
    if k <= 0 { 0 } else { total_span(groups, k - 1) + span(groups[k - 1]) }
}

/// The state while dummy nodes are added: layers, edges, owners, next free id, group layers,
/// and the node the next edge starts from.
pub type DummyState = (Seq<Map<NodeID, usize>>, Map<NodeID, Map<NodeID, usize>>, Map<NodeID, NodeID>, int, Map<NodeID, Map<u32, usize>>, NodeID);

/// Adds the next free id as a dummy node of group `g` at level `lv`, with an edge from the
/// previous node of the group.
pub open spec fn dummy_step(st: DummyState, g: NodeID, lv: int) -> DummyState {
    let id = st.3 as usize;
    (
        layer_added(st.0, lv, id),
        edge_added(st.1, st.5, id),
        st.2.insert(id, g),
        st.3 + 1,
        st.4.insert(g, (if st.4.contains_key(g) { st.4[g] } else { Map::empty() }).insert(lv as u32, id)),
        id,
    )
}

/// The first `c` dummy nodes of group `g`, at the levels after `start`.
pub open spec fn group_chain(st: DummyState, g: NodeID, start: int, c: int) -> DummyState
    decreases c,
{
    if c <= 0 { st } else { dummy_step(group_chain(st, g, start, c - 1), g, start + c) }
}

/// The state after the groups `groups[0..k]` were given their owners and dummy nodes.
pub open spec fn group_dummies(st: DummyState, groups: Seq<(NodeID, u32, u32)>, k: int) -> DummyState
    decreases k,
{
    if k <= 0 {
        st
    } else {
        let s = group_dummies(st, groups, k - 1);
        let g = groups[k - 1].0;
        group_chain((s.0, s.1, s.2.insert(g, g), s.3, s.4, g), g, groups[k - 1].1 as int, span(groups[k - 1]))
    }
}

/// The ids and levels fit: no group id is `usize::MAX`, no level is `u32::MAX`, and the dummy
/// ids stay below `usize::MAX`.
pub open spec fn groups_fit(next: int, groups: Seq<(NodeID, u32, u32)>) -> bool {
    &&& forall|k: int| 0 <= k < groups.len() ==> (#[trigger] groups[k]).0 < usize::MAX && groups[k].1 < u32::MAX && groups[k].2 < u32::MAX
    &&& first_free(next, groups, groups.len() as int) + total_span(groups, groups.len() as int) < usize::MAX
}

proof fn lemma_first_free_mono(next: int, groups: Seq<(NodeID, u32, u32)>, a: int, b: int)
    requires
        0 <= a <= b,
    ensures
        first_free(next, groups, a) <= first_free(next, groups, b),
        next <= first_free(next, groups, a),
    decreases b,
{
    if b > a {
        lemma_first_free_mono(next, groups, a, b - 1);
    } else if a > 0 {
        lemma_first_free_mono(next, groups, a - 1, a - 1);
    }
}

proof fn lemma_total_span_mono(groups: Seq<(NodeID, u32, u32)>, a: int, b: int)
    requires
        0 <= a <= b,
    ensures
        total_span(groups, a) <= total_span(groups, b),
        0 <= total_span(groups, a),
    decreases b,
{
    if b > a {
        lemma_total_span_mono(groups, a, b - 1);
    } else if a > 0 {
        lemma_total_span_mono(groups, a - 1, a - 1);
    }
}

/// Every owned node lies in one layer at most.
pub open spec fn owned_once(ls: Seq<Map<NodeID, usize>>, owners: Map<NodeID, NodeID>) -> bool {
    forall|n: NodeID, i: int, j: int| 0 <= i < ls.len() && 0 <= j < ls.len() && owners.contains_key(n)
        && #[trigger] ls[i].contains_key(n) && #[trigger] ls[j].contains_key(n) ==> i == j
}

/// Every owned node and every owner is below `next`.
pub open spec fn owners_below(owners: Map<NodeID, NodeID>, next: int) -> bool {
    forall|n: NodeID| #[trigger] owners.contains_key(n) ==> n < next && owners[n] < next
}

/// The nodes owned by `g` lie in the layers up to `lv`.
pub open spec fn owned_up_to(ls: Seq<Map<NodeID, usize>>, owners: Map<NodeID, NodeID>, g: NodeID, lv: int) -> bool {
    forall|n: NodeID, i: int| 0 <= i < ls.len() && owners.contains_key(n) && owners[n] == g && #[trigger] ls[i].contains_key(n) ==> i <= lv
}

proof fn lemma_first_free_above(next: int, groups: Seq<(NodeID, u32, u32)>, k: int, j: int)
    requires
        0 <= j < k,
    ensures
        groups[j].0 < first_free(next, groups, k),
    decreases k,
{
    if j < k - 1 {
        lemma_first_free_above(next, groups, k - 1, j);
    }
}

/// The layers are valid orders of nodes with ids below `next`, the groups are distinct, and
/// none of them is in the layers yet.
pub open spec fn fresh_start(ls: Seq<Map<NodeID, usize>>, next: int, groups: Seq<(NodeID, u32, u32)>) -> bool {
    &&& all_orders(ls)
    &&& ids_below(ls, next)
    &&& forall|j: int, k: int| 0 <= j < k < groups.len() ==> (#[trigger] groups[j]).0 != (#[trigger] groups[k]).0
    &&& forall|k: int| 0 <= k < groups.len() ==> !layer_ids(ls).contains((#[trigger] groups[k]).0)
}

/// Places every group at its first level, then gives it a dummy node at each later level,
/// chained by edges and owned by the group. Returns the first dummy id and the group layers.
pub fn add_groups_with_dummies(
    groups: &Vec<(NodeID, u32, u32)>,
    layers: &mut Vec<Order>,
    edges: &mut EdgeMap,
    dummy_owners: &mut HashMap<NodeID, NodeID>,
    next_free_id: &mut NodeID,
) -> (out: (NodeID, GroupLayers))
    requires
        groups_fit(*old(next_free_id) as int, groups@),
    ensures
        fresh_start(orders_view(old(layers)@), *old(next_free_id) as int, groups@) ==>
            all_orders(orders_view(final(layers)@)) && ids_below(orders_view(final(layers)@), *final(next_free_id) as int),
        fresh_start(orders_view(old(layers)@), *old(next_free_id) as int, groups@) && old(dummy_owners)@ == Map::<NodeID, NodeID>::empty() ==>
            owners_unique(orders_view(final(layers)@), final(dummy_owners)@)
            && owned_once(orders_view(final(layers)@), final(dummy_owners)@)
            && owners_below(final(dummy_owners)@, *final(next_free_id) as int),
        groups.len() > 0 ==> orders_view(final(layers)@).len() > 0,
        out.0 == first_free(*old(next_free_id) as int, groups@, groups.len() as int),
        *final(next_free_id) == out.0 + total_span(groups@, groups.len() as int),
        ({
            let st = group_dummies(
                (groups_placed(orders_view(old(layers)@), groups@, groups.len() as int), edge_view(old(edges)@),
                    old(dummy_owners)@, out.0 as int, start_layers(groups@, groups.len() as int), 0),
                groups@, groups.len() as int);
            &&& orders_view(final(layers)@) == st.0
            &&& edge_view(final(edges)@) == st.1
            &&& final(dummy_owners)@ == st.2
            &&& *final(next_free_id) == st.3
            &&& group_layers_view(out.1@) == st.4
        }),
{
    let ghost gs = groups@;
    let ghost n0 = *next_free_id as int;
    let ghost l0 = orders_view(layers@);
    let ghost fresh = fresh_start(l0, n0, gs);
    let ghost clean = fresh && dummy_owners@ == Map::<NodeID, NodeID>::empty();
    let mut group_layers: GroupLayers = HashMap::new();
    let mut k: usize = 0;
    while k < groups.len()
        invariant
            gs == groups@,
            groups_fit(n0, gs),
            k <= groups.len(),
            orders_view(layers@) == groups_placed(l0, gs, k as int),
            *next_free_id == first_free(n0, gs, k as int),
            group_layers_view(group_layers@) == start_layers(gs, k as int),
            edge_view(edges@) == edge_view(old(edges)@),
            dummy_owners@ == old(dummy_owners)@,
            fresh == fresh_start(l0, n0, gs),
            fresh ==> all_orders(orders_view(layers@)),
            fresh ==> ids_below(orders_view(layers@), *next_free_id as int),
            fresh ==> forall|j: int| k <= j < gs.len() ==> !layer_ids(orders_view(layers@)).contains(#[trigger] gs[j].0),
            fresh ==> forall|j: int, i: int| 0 <= j < k && 0 <= i < orders_view(layers@).len() ==>
                (#[trigger] orders_view(layers@)[i].contains_key(#[trigger] gs[j].0) <==> i == gs[j].1),
            fresh ==> forall|j: int| 0 <= j < k ==> (#[trigger] gs[j]).1 < orders_view(layers@).len(),
            clean == (fresh && dummy_owners@ == Map::<NodeID, NodeID>::empty()),
            k > 0 ==> orders_view(layers@).len() > 0,
        decreases groups.len() - k,
    {
        let (group, start, _end) = groups[k];
        proof {
            lemma_first_free_mono(n0, gs, k as int, gs.len() as int);
            lemma_total_span_mono(gs, 0, gs.len() as int);
            assert(gs[k as int].0 < usize::MAX && gs[k as int].1 < u32::MAX);
        }
        let ghost before = orders_view(layers@);
        add_to_layer(layers, start as usize, group);
        proof {
            if fresh {
                assert(!layer_ids(before).contains(gs[k as int].0));
                assert forall|j: int| k + 1 <= j < gs.len() implies !layer_ids(orders_view(layers@)).contains(#[trigger] gs[j].0) by {
                    assert(gs[k as int].0 != gs[j].0);
                    assert(!layer_ids(before).contains(gs[j].0));
                }
                let now = orders_view(layers@);
                assert forall|j: int, i: int| 0 <= j < k + 1 && 0 <= i < now.len() implies
                    (#[trigger] now[i].contains_key(#[trigger] gs[j].0) <==> i == gs[j].1) by {
                    if j < k {
                        assert(gs[j].0 != gs[k as int].0);
                        if i == gs[j].1 {
                            assert(before[i].contains_key(gs[j].0));
                        }
                    } else {
                        if i < before.len() && before[i].contains_key(gs[j].0) {
                            assert(layer_ids(before).contains(gs[j].0));
                        }
                    }
                }
                assert forall|j: int| 0 <= j < k + 1 implies (#[trigger] gs[j]).1 < now.len() by {
                    if j < k {
                        assert(gs[j].1 < before.len());
                    }
                }
            }
        }
        let mut at_start: HashMap<u32, usize> = HashMap::new();
        at_start.insert(start, group);
        group_layers.insert(group, at_start);
        if group >= *next_free_id {
            *next_free_id = group + 1;
        }
        proof {
            assert(group_layers_view(group_layers@) =~= start_layers(gs, k + 1));
        }
        k = k + 1;
    }
    let dummy_group_start_id = *next_free_id;
    let ghost st0: DummyState = (orders_view(layers@), edge_view(edges@), dummy_owners@, dummy_group_start_id as int,
        group_layers_view(group_layers@), 0);
    let mut k: usize = 0;
    while k < groups.len()
        invariant
            gs == groups@,
            groups_fit(n0, gs),
            dummy_group_start_id == first_free(n0, gs, gs.len() as int),
            k <= groups.len(),
            ({
                let st = group_dummies(st0, gs, k as int);
                &&& orders_view(layers@) == st.0
                &&& edge_view(edges@) == st.1
                &&& dummy_owners@ == st.2
                &&& *next_free_id == st.3
                &&& group_layers_view(group_layers@) == st.4
            }),
            *next_free_id == dummy_group_start_id + total_span(gs, k as int),
            fresh ==> all_orders(orders_view(layers@)),
            fresh ==> ids_below(orders_view(layers@), *next_free_id as int),
            fresh == fresh_start(l0, n0, gs),
            clean ==> fresh,
            clean ==> forall|j: int, i: int| 0 <= j < gs.len() && 0 <= i < orders_view(layers@).len() ==>
                (#[trigger] orders_view(layers@)[i].contains_key(#[trigger] gs[j].0) <==> i == gs[j].1),
            clean ==> forall|j: int| 0 <= j < gs.len() ==> (#[trigger] gs[j]).1 < orders_view(layers@).len(),
            clean ==> owners_unique(orders_view(layers@), dummy_owners@),
            clean ==> owned_once(orders_view(layers@), dummy_owners@),
            clean ==> owners_below(dummy_owners@, *next_free_id as int),
            clean ==> forall|n: NodeID| #[trigger] dummy_owners@.contains_key(n) ==> exists|j: int| 0 <= j < k && dummy_owners@[n] == gs[j].0,
            clean ==> forall|n: NodeID| #[trigger] dummy_owners@.contains_key(n) ==> n >= dummy_group_start_id || exists|j: int| 0 <= j < k && n == gs[j].0,
            gs.len() > 0 ==> orders_view(layers@).len() > 0,
        decreases groups.len() - k,
    {
        let (group, start, end) = groups[k];
        let ghost s = group_dummies(st0, gs, k as int);
        let ghost owners_before = dummy_owners@;
        proof {
            if clean {
                lemma_first_free_above(n0, gs, gs.len() as int, k as int);
            }
        }
        dummy_owners.insert(group, group);
        proof {
            if clean {
                let ls = orders_view(layers@);
                let ow = dummy_owners@;
                assert(!owners_before.contains_key(group)) by {
                    if owners_before.contains_key(group) {
                        if exists|j: int| 0 <= j < k && group == gs[j].0 {
                            let j = choose|j: int| 0 <= j < k && group == gs[j].0;
                            assert(gs[j].0 != gs[k as int].0);
                        }
                    }
                }
                assert forall|n: NodeID| #[trigger] owners_before.contains_key(n) implies owners_before[n] != group by {
                    let j = choose|j: int| 0 <= j < k && owners_before[n] == gs[j].0;
                    assert(gs[j].0 != gs[k as int].0);
                }
                assert forall|n: NodeID, i: int, j: int| 0 <= i < ls.len() && 0 <= j < ls.len() && ow.contains_key(n)
                    && #[trigger] ls[i].contains_key(n) && #[trigger] ls[j].contains_key(n) implies i == j by {
                    if n == group {
                        assert(ls[i].contains_key(gs[k as int].0) && ls[j].contains_key(gs[k as int].0));
                    }
                }
                assert forall|i: int, a: NodeID, b: NodeID|
                    0 <= i < ls.len() && #[trigger] ls[i].contains_key(a) && #[trigger] ls[i].contains_key(b) && a != b
                        && ow.contains_key(a) && ow.contains_key(b) implies ow[a] != ow[b] by {
                    if a != group && b != group {
                        assert(owners_before.contains_key(a) && owners_before.contains_key(b));
                    }
                }
                assert forall|n: NodeID| #[trigger] ow.contains_key(n) implies exists|j: int| 0 <= j < k + 1 && ow[n] == gs[j].0 by {
                    if n == group {
                        assert(ow[n] == gs[k as int].0);
                    } else {
                        let j = choose|j: int| 0 <= j < k && owners_before[n] == gs[j].0;
                        assert(ow[n] == gs[j].0);
                    }
                }
                assert forall|n: NodeID| #[trigger] ow.contains_key(n) implies n >= dummy_group_start_id || exists|j: int| 0 <= j < k + 1 && n == gs[j].0 by {
                    if n == group {
                        assert(n == gs[k as int].0);
                    } else if n < dummy_group_start_id {
                        let j = choose|j: int| 0 <= j < k && n == gs[j].0;
                    }
                }
                assert forall|n: NodeID, i: int| 0 <= i < ls.len() && ow.contains_key(n) && ow[n] == group && #[trigger] ls[i].contains_key(n) implies i <= start by {
                    if n != group {
                        assert(owners_before[n] != group);
                    } else {
                        assert(ls[i].contains_key(gs[k as int].0));
                    }
                }
            }
        }
        let mut prev = group;
        let ghost s1: DummyState = (s.0, s.1, s.2.insert(group, group), s.3, s.4, group);
        proof {
            lemma_total_span_mono(gs, k + 1, gs.len() as int);
            lemma_total_span_mono(gs, 0, k as int);
            assert(gs[k as int].1 < u32::MAX && gs[k as int].2 < u32::MAX);
            assert forall|j: int| 0 <= j < gs.len() implies (#[trigger] gs[j]).0 < dummy_group_start_id by {
                lemma_first_free_above(n0, gs, gs.len() as int, j);
            }
        }
        let mut layer: u32 = start;
        while layer < end
            invariant
                start <= layer,
                end <= start ==> layer == start,
                end > start ==> layer <= end,
                end < u32::MAX,
                ({
                    let st = group_chain(s1, group, start as int, layer - start);
                    &&& orders_view(layers@) == st.0
                    &&& edge_view(edges@) == st.1
                    &&& dummy_owners@ == st.2
                    &&& *next_free_id == st.3
                    &&& group_layers_view(group_layers@) == st.4
                    &&& prev == st.5
                }),
                *next_free_id == dummy_group_start_id + total_span(gs, k as int) + (layer - start),
                dummy_group_start_id + total_span(gs, k as int) + span(gs[k as int]) < usize::MAX,
                span(gs[k as int]) == (if end > start { end - start } else { 0 }),
                fresh ==> all_orders(orders_view(layers@)),
                fresh ==> ids_below(orders_view(layers@), *next_free_id as int),
                clean ==> fresh,
                gs == groups@,
                k < gs.len(),
                group == gs[k as int].0,
                clean ==> group < dummy_group_start_id,
                dummy_group_start_id <= *next_free_id,
                clean ==> forall|j: int, i: int| 0 <= j < gs.len() && 0 <= i < orders_view(layers@).len() ==>
                    (#[trigger] orders_view(layers@)[i].contains_key(#[trigger] gs[j].0) <==> i == gs[j].1),
                clean ==> forall|j: int| 0 <= j < gs.len() ==> (#[trigger] gs[j]).1 < orders_view(layers@).len(),
                clean ==> forall|j: int| 0 <= j < gs.len() ==> (#[trigger] gs[j]).0 < dummy_group_start_id,
                clean ==> owners_unique(orders_view(layers@), dummy_owners@),
                clean ==> owned_once(orders_view(layers@), dummy_owners@),
                clean ==> owners_below(dummy_owners@, *next_free_id as int),
                clean ==> owned_up_to(orders_view(layers@), dummy_owners@, group, layer as int),
                clean ==> forall|n: NodeID| #[trigger] dummy_owners@.contains_key(n) ==> exists|j: int| 0 <= j < k + 1 && dummy_owners@[n] == gs[j].0,
                clean ==> forall|n: NodeID| #[trigger] dummy_owners@.contains_key(n) ==> n >= dummy_group_start_id || exists|j: int| 0 <= j < k + 1 && n == gs[j].0,
                orders_view(layers@).len() > 0,
            decreases end - layer,
        {
            layer = layer + 1;
            let layer_group_id = *next_free_id;
            *next_free_id = *next_free_id + 1;
            add_to_edges(edges, prev, layer_group_id);
            let ghost owners_before = dummy_owners@;
            dummy_owners.insert(layer_group_id, group);
            let ghost before = orders_view(layers@);
            add_to_layer(layers, layer as usize, layer_group_id);
            proof {
                if fresh {
                    assert(!layer_ids(before).contains(layer_group_id));
                }
                if clean {
                    let ls = orders_view(layers@);
                    let ow = dummy_owners@;
                    let d = layer_group_id;
                    assert(!owners_before.contains_key(d));
                    assert forall|x: NodeID, i: int| 0 <= i < before.len() && #[trigger] before[i].contains_key(x) implies x != d by {
                        assert(layer_ids(before).contains(x));
                    }
                    assert forall|j: int, i: int| 0 <= j < gs.len() && 0 <= i < ls.len() implies
                        (#[trigger] ls[i].contains_key(#[trigger] gs[j].0) <==> i == gs[j].1) by {
                        assert(gs[j].0 < dummy_group_start_id);
                        if i == gs[j].1 {
                            assert(before[i].contains_key(gs[j].0));
                        }
                    }
                    assert forall|j: int| 0 <= j < gs.len() implies (#[trigger] gs[j]).1 < ls.len() by {
                        assert(gs[j].1 < before.len());
                    }
                    assert forall|n: NodeID, i: int, j: int| 0 <= i < ls.len() && 0 <= j < ls.len() && ow.contains_key(n)
                        && #[trigger] ls[i].contains_key(n) && #[trigger] ls[j].contains_key(n) implies i == j by {
                        if n == d {
                            assert(i == layer && j == layer);
                        } else {
                            assert(before[i].contains_key(n) && before[j].contains_key(n));
                        }
                    }
                    assert forall|i: int, a: NodeID, b: NodeID|
                        0 <= i < ls.len() && #[trigger] ls[i].contains_key(a) && #[trigger] ls[i].contains_key(b) && a != b
                            && ow.contains_key(a) && ow.contains_key(b) implies ow[a] != ow[b] by {
                        if a == d {
                            assert(i == layer);
                            assert(before[i].contains_key(b));
                        } else if b == d {
                            assert(i == layer);
                            assert(before[i].contains_key(a));
                        } else {
                            assert(before[i].contains_key(a) && before[i].contains_key(b));
                        }
                    }
                    assert forall|n: NodeID, i: int| 0 <= i < ls.len() && ow.contains_key(n) && ow[n] == group && #[trigger] ls[i].contains_key(n) implies i <= layer by {
                        if n != d {
                            assert(before[i].contains_key(n));
                        }
                    }
                    assert forall|n: NodeID| #[trigger] ow.contains_key(n) implies exists|j: int| 0 <= j < k + 1 && ow[n] == gs[j].0 by {
                        if n == d {
                            assert(ow[n] == gs[k as int].0);
                        } else {
                            assert(owners_before.contains_key(n));
                        }
                    }
                    assert forall|n: NodeID| #[trigger] ow.contains_key(n) implies n >= dummy_group_start_id || exists|j: int| 0 <= j < k + 1 && n == gs[j].0 by {
                        if n != d {
                            assert(owners_before.contains_key(n));
                        }
                    }
                }
            }
            let mut at_levels = match group_layers.remove(&group) {
                Some(m) => m,
                None => HashMap::new(),
            };
            at_levels.insert(layer, layer_group_id);
            group_layers.insert(group, at_levels);
            prev = layer_group_id;
            proof {
                let c = layer - start;
                assert(start as int + c == layer as int);
                assert(group_layers_view(group_layers@) =~= group_chain(s1, group, start as int, c).4);
            }
        }
        proof {
            assert(layer - start == span(gs[k as int]));
        }
        k = k + 1;
    }
    (dummy_group_start_id, group_layers)
}

/// An edge of the grouped graph: its target group, the levels it leaves and enters, and its
/// kind (the index of its tag).
#[derive(Clone, Copy, PartialEq, Eq, Structural, Debug)]
pub struct EdgeData {
    pub to: NodeID,
    pub from_level: u32,
    pub to_level: u32,
    pub edge_type: usize,
}

/// The state while edges are laid out: layers, edges, owners, next free id, the bend nodes
/// and connections recorded so far, the node the next edge starts from, and the bend nodes of
/// the current edge.
pub type EdgeState = (
    Seq<Map<NodeID, usize>>,
    Map<NodeID, Map<NodeID, usize>>,
    Map<NodeID, NodeID>,
    int,
    Seq<((NodeID, EdgeData), Seq<NodeID>)>,
    Seq<((NodeID, EdgeData), (NodeID, NodeID))>,
    NodeID,
    Seq<NodeID>,
);

/// Adds the next free id as a bend node at level `lv`, owned by the edge's first bend node
/// `first`, with an edge from the previous node.
pub open spec fn bend_step(st: EdgeState, first: NodeID, lv: int) -> EdgeState {
    let id = st.3 as usize;
    (layer_added(st.0, lv, id), edge_added(st.1, st.6, id), st.2.insert(id, first), st.3 + 1, st.4, st.5, id, st.7.push(id))
}

/// The first `c` bend nodes of an edge leaving level `from`.
pub open spec fn bend_chain(st: EdgeState, first: NodeID, from: int, c: int) -> EdgeState
    decreases c,
{
    if c <= 0 { st } else { bend_step(bend_chain(st, first, from, c - 1), first, from + c) }
}

/// The number of bend nodes of an edge: one for every level strictly between its ends.
pub open spec fn bends(ed: EdgeData) -> int {
    if ed.to_level > ed.from_level + 1 { ed.to_level - ed.from_level - 1 } else { 0 }
}

/// Lays out the edge `ed` of `group`: where the group has a node at the edge's first level,
/// a chain of bend nodes is added and recorded, and where the target group has a node at the
/// edge's last level, the chain is connected to it.
pub open spec fn edge_laid(st: EdgeState, gl: Map<NodeID, Map<u32, usize>>, group: NodeID, ed: EdgeData) -> EdgeState {
    if !(gl.contains_key(group) && gl[group].contains_key(ed.from_level)) {
        st
    } else {
        let gc = gl[group][ed.from_level];
        let s1 = bend_chain((st.0, st.1, st.2, st.3, st.4, st.5, gc, Seq::empty()), st.3 as usize, ed.from_level as int, bends(ed));
        let s2 = (s1.0, s1.1, s1.2, s1.3, s1.4.push(((group, ed), s1.7)), s1.5, s1.6, s1.7);
        if gl.contains_key(ed.to) && gl[ed.to].contains_key(ed.to_level) {
            let tc = gl[ed.to][ed.to_level];
            (s2.0, edge_added(s2.1, s2.6, tc), s2.2, s2.3, s2.4, s2.5.push(((group, ed), (gc, tc))), s2.6, s2.7)
        } else {
            s2
        }
    }
}

/// The edges `eds[0..j]` of `group` laid out.
pub open spec fn edges_laid(st: EdgeState, gl: Map<NodeID, Map<u32, usize>>, group: NodeID, eds: Seq<EdgeData>, j: int) -> EdgeState
    decreases j,
{
    if j <= 0 { st } else { edge_laid(edges_laid(st, gl, group, eds, j - 1), gl, group, eds[j - 1]) }
}

/// The edges of the groups `children[0..k]` laid out.
pub open spec fn groups_edges_laid(st: EdgeState, gl: Map<NodeID, Map<u32, usize>>, children: Seq<(NodeID, Seq<EdgeData>)>, k: int) -> EdgeState
    decreases k,
{
    if k <= 0 {
        st
    } else {
        let c = children[k - 1];
        edges_laid(groups_edges_laid(st, gl, children, k - 1), gl, c.0, c.1, c.1.len() as int)
    }
}

/// The edges of a group as sequences.
pub open spec fn children_view(children: Seq<(NodeID, Vec<EdgeData>)>) -> Seq<(NodeID, Seq<EdgeData>)> {
    children.map_values(|c: (NodeID, Vec<EdgeData>)| (c.0, c.1@))
}

/// The bend nodes of the edges `eds[0..j]`.
pub open spec fn edges_bends(eds: Seq<EdgeData>, j: int) -> int
    decreases j,
{
    if j <= 0 { 0 } else { edges_bends(eds, j - 1) + bends(eds[j - 1]) }
}

/// The bend nodes of all edges of the groups `children[0..k]`.
pub open spec fn total_bends(children: Seq<(NodeID, Seq<EdgeData>)>, k: int) -> int
    decreases k,
{
    if k <= 0 { 0 } else { total_bends(children, k - 1) + edges_bends(children[k - 1].1, children[k - 1].1.len() as int) }
}

/// Edges leave no level `u32::MAX`, and the bend ids stay below `usize::MAX`.
pub open spec fn edges_fit(next: int, children: Seq<(NodeID, Seq<EdgeData>)>) -> bool {
    &&& forall|k: int, j: int| 0 <= k < children.len() && 0 <= j < children[k].1.len() ==> (#[trigger] children[k].1[j]).from_level < u32::MAX
    &&& next + total_bends(children, children.len() as int) < usize::MAX
}

proof fn lemma_edges_bends_mono(eds: Seq<EdgeData>, a: int, b: int)
    requires
        0 <= a <= b,
    ensures
        0 <= edges_bends(eds, a) <= edges_bends(eds, b),
    decreases b,
{
    if b > a {
        lemma_edges_bends_mono(eds, a, b - 1);
    } else if a > 0 {
        lemma_edges_bends_mono(eds, a - 1, a - 1);
    }
}

proof fn lemma_total_bends_mono(children: Seq<(NodeID, Seq<EdgeData>)>, a: int, b: int)
    requires
        0 <= a <= b,
    ensures
        0 <= total_bends(children, a) <= total_bends(children, b),
    decreases b,
{
    if b > a {
        lemma_total_bends_mono(children, a, b - 1);
        lemma_edges_bends_mono(children[b - 1].1, 0, children[b - 1].1.len() as int);
    } else if a > 0 {
        lemma_total_bends_mono(children, a - 1, a - 1);
        lemma_edges_bends_mono(children[a - 1].1, 0, children[a - 1].1.len() as int);
    }
}

/// The node standing for group `g` at `level`, if any.
fn group_node_at(group_layers: &GroupLayers, g: NodeID, level: u32) -> (out: Option<usize>)
    ensures
        out == (if group_layers_view(group_layers@).contains_key(g) && group_layers_view(group_layers@)[g].contains_key(level) {
            Some(group_layers_view(group_layers@)[g][level])
        } else {
            None
        }),
{
    match group_layers.get(&g) {
        Some(m) => match m.get(&level) {
            Some(n) => Some(*n),
            None => None,
        },
        None => None,
    }
}

/// Lays out every edge of every group (given with its edges in `group_children`) as a chain
/// of bend nodes, one per level strictly between its ends, owned by the first of them, and
/// connects the chain to the target group's node. Returns the bend nodes and the connected
/// end nodes of every edge.
pub fn add_edges_with_dummies(
    group_children: &Vec<(NodeID, Vec<EdgeData>)>,
    layers: &mut Vec<Order>,
    edges: &mut EdgeMap,
    dummy_owners: &mut HashMap<NodeID, NodeID>,
    group_layers: &GroupLayers,
    next_free_id: &mut NodeID,
) -> (out: (Vec<((NodeID, EdgeData), Vec<NodeID>)>, Vec<((NodeID, EdgeData), (NodeID, NodeID))>))
    requires
        edges_fit(*old(next_free_id) as int, children_view(group_children@)),
    ensures
        all_orders(orders_view(old(layers)@)) && ids_below(orders_view(old(layers)@), *old(next_free_id) as int) ==>
            all_orders(orders_view(final(layers)@)) && ids_below(orders_view(final(layers)@), *final(next_free_id) as int),
        orders_view(final(layers)@).len() >= orders_view(old(layers)@).len(),
        all_orders(orders_view(old(layers)@)) && ids_below(orders_view(old(layers)@), *old(next_free_id) as int)
            && owners_unique(orders_view(old(layers)@), old(dummy_owners)@) && owned_once(orders_view(old(layers)@), old(dummy_owners)@)
            && owners_below(old(dummy_owners)@, *old(next_free_id) as int) ==>
            owners_unique(orders_view(final(layers)@), final(dummy_owners)@)
            && owned_once(orders_view(final(layers)@), final(dummy_owners)@)
            && owners_below(final(dummy_owners)@, *final(next_free_id) as int),
        ({
            let st = groups_edges_laid(
                (orders_view(old(layers)@), edge_view(old(edges)@), old(dummy_owners)@, *old(next_free_id) as int,
                    Seq::empty(), Seq::empty(), 0, Seq::empty()),
                group_layers_view(group_layers@), children_view(group_children@), group_children.len() as int);
            &&& orders_view(final(layers)@) == st.0
            &&& edge_view(final(edges)@) == st.1
            &&& final(dummy_owners)@ == st.2
            &&& *final(next_free_id) == st.3
            &&& out.0@.map_values(|e: ((NodeID, EdgeData), Vec<NodeID>)| (e.0, e.1@)) == st.4
            &&& out.1@ == st.5
        }),
{
    let ghost cs = children_view(group_children@);
    let ghost gl = group_layers_view(group_layers@);
    let ghost n0 = *next_free_id as int;
    let ghost st0: EdgeState = (orders_view(layers@), edge_view(edges@), dummy_owners@, n0, Seq::empty(), Seq::empty(), 0, Seq::empty());
    let ghost fresh = all_orders(orders_view(layers@)) && ids_below(orders_view(layers@), n0);
    let ghost owned = fresh && owners_unique(orders_view(layers@), dummy_owners@) && owned_once(orders_view(layers@), dummy_owners@)
        && owners_below(dummy_owners@, n0);
    let ghost len0 = layers.len();
    let mut edge_bend_nodes: Vec<((NodeID, EdgeData), Vec<NodeID>)> = Vec::new();
    let mut edge_connection_nodes: Vec<((NodeID, EdgeData), (NodeID, NodeID))> = Vec::new();
    let ghost mut prev_g: NodeID = 0;
    let ghost mut cur_g: Seq<NodeID> = Seq::empty();
    let mut k: usize = 0;
    while k < group_children.len()
        invariant
            cs == children_view(group_children@),
            gl == group_layers_view(group_layers@),
            edges_fit(n0, cs),
            k <= group_children.len(),
            ({
                let st = groups_edges_laid(st0, gl, cs, k as int);
                &&& orders_view(layers@) == st.0
                &&& edge_view(edges@) == st.1
                &&& dummy_owners@ == st.2
                &&& *next_free_id == st.3
                &&& edge_bend_nodes@.map_values(|e: ((NodeID, EdgeData), Vec<NodeID>)| (e.0, e.1@)) == st.4
                &&& edge_connection_nodes@ == st.5
                &&& prev_g == st.6
                &&& cur_g == st.7
            }),
            *next_free_id <= n0 + total_bends(cs, k as int),
            fresh ==> all_orders(orders_view(layers@)),
            fresh ==> ids_below(orders_view(layers@), *next_free_id as int),
            owned ==> fresh,
            owned ==> owners_unique(orders_view(layers@), dummy_owners@),
            owned ==> owned_once(orders_view(layers@), dummy_owners@),
            owned ==> owners_below(dummy_owners@, *next_free_id as int),
            layers.len() >= len0,
        decreases group_children.len() - k,
    {
        let group = group_children[k].0;
        let eds = &group_children[k].1;
        let ghost sk = groups_edges_laid(st0, gl, cs, k as int);
        assert(cs[k as int] == (group, eds@));
        proof {
            lemma_total_bends_mono(cs, k + 1, cs.len() as int);
        }
        let mut j: usize = 0;
        while j < eds.len()
            invariant
                cs == children_view(group_children@),
                gl == group_layers_view(group_layers@),
                edges_fit(n0, cs),
                k < group_children.len(),
                cs[k as int] == (group, eds@),
                j <= eds.len(),
                ({
                    let st = edges_laid(sk, gl, group, eds@, j as int);
                    &&& orders_view(layers@) == st.0
                    &&& edge_view(edges@) == st.1
                    &&& dummy_owners@ == st.2
                    &&& *next_free_id == st.3
                    &&& edge_bend_nodes@.map_values(|e: ((NodeID, EdgeData), Vec<NodeID>)| (e.0, e.1@)) == st.4
                    &&& edge_connection_nodes@ == st.5
                    &&& prev_g == st.6
                    &&& cur_g == st.7
                }),
                *next_free_id <= n0 + total_bends(cs, k as int) + edges_bends(eds@, j as int),
                n0 + total_bends(cs, k as int) + edges_bends(eds@, eds.len() as int) < usize::MAX,
                fresh ==> all_orders(orders_view(layers@)),
                fresh ==> ids_below(orders_view(layers@), *next_free_id as int),
                owned ==> fresh,
                owned ==> owners_unique(orders_view(layers@), dummy_owners@),
                owned ==> owned_once(orders_view(layers@), dummy_owners@),
                owned ==> owners_below(dummy_owners@, *next_free_id as int),
                layers.len() >= len0,
            decreases eds.len() - j,
        {
            let ed = eds[j];
            let ghost sj = edges_laid(sk, gl, group, eds@, j as int);
            proof {
                lemma_edges_bends_mono(eds@, j + 1, eds.len() as int);
                assert(cs[k as int].1[j as int] == ed);
                assert(ed.from_level < u32::MAX);
            }
            match group_node_at(group_layers, group, ed.from_level) {
                None => {},
                Some(group_connection) => {
                    let mut prev = group_connection;
                    let mut bend_ids: Vec<NodeID> = Vec::new();
                    let first_bend_id = *next_free_id;
                    let ghost s0: EdgeState = (sj.0, sj.1, sj.2, sj.3, sj.4, sj.5, group_connection, Seq::empty());
                    proof {
                        prev_g = group_connection;
                        cur_g = Seq::empty();
                    }
                    let mut layer: u32 = ed.from_level + 1;
                    while layer < ed.to_level
                        invariant
                            ed.from_level < u32::MAX,
                            ed.from_level + 1 <= layer,
                            ed.to_level > ed.from_level + 1 ==> layer <= ed.to_level,
                            ed.to_level <= ed.from_level + 1 ==> layer == ed.from_level + 1,
                            first_bend_id == sj.3,
                            ({
                                let st = bend_chain(s0, first_bend_id, ed.from_level as int, layer - ed.from_level - 1);
                                &&& orders_view(layers@) == st.0
                                &&& edge_view(edges@) == st.1
                                &&& dummy_owners@ == st.2
                                &&& *next_free_id == st.3
                                &&& edge_bend_nodes@.map_values(|e: ((NodeID, EdgeData), Vec<NodeID>)| (e.0, e.1@)) == st.4
                                &&& edge_connection_nodes@ == st.5
                                &&& prev == st.6
                                &&& bend_ids@ == st.7
                            }),
                            *next_free_id == sj.3 + (layer - ed.from_level - 1),
                            sj.3 + bends(ed) < usize::MAX,
                            fresh ==> all_orders(orders_view(layers@)),
                            fresh ==> ids_below(orders_view(layers@), *next_free_id as int),
                            owned ==> fresh,
                            owned ==> owners_unique(orders_view(layers@), dummy_owners@),
                            owned ==> owned_once(orders_view(layers@), dummy_owners@),
                            owned ==> owners_below(dummy_owners@, *next_free_id as int),
                            first_bend_id <= *next_free_id,
                            owned ==> owned_up_to(orders_view(layers@), dummy_owners@, first_bend_id, layer - 1),
                            layers.len() >= len0,
                        decreases ed.to_level - layer,
                    {
                        let id = *next_free_id;
                        *next_free_id = *next_free_id + 1;
                        let ghost owners_before = dummy_owners@;
                        dummy_owners.insert(id, first_bend_id);
                        bend_ids.push(id);
                        let ghost before = orders_view(layers@);
                        add_to_layer(layers, layer as usize, id);
                        proof {
                            if fresh {
                                assert(!layer_ids(before).contains(id));
                            }
                            if owned {
                                let ls = orders_view(layers@);
                                let ow = dummy_owners@;
                                assert(!owners_before.contains_key(id));
                                assert forall|x: NodeID, i: int| 0 <= i < before.len() && #[trigger] before[i].contains_key(x) implies x != id by {
                                    assert(layer_ids(before).contains(x));
                                }
                                assert forall|n: NodeID, i: int, j: int| 0 <= i < ls.len() && 0 <= j < ls.len() && ow.contains_key(n)
                                    && #[trigger] ls[i].contains_key(n) && #[trigger] ls[j].contains_key(n) implies i == j by {
                                    if n == id {
                                        assert(i == layer && j == layer);
                                    } else {
                                        assert(before[i].contains_key(n) && before[j].contains_key(n));
                                    }
                                }
                                assert forall|i: int, a: NodeID, b: NodeID|
                                    0 <= i < ls.len() && #[trigger] ls[i].contains_key(a) && #[trigger] ls[i].contains_key(b) && a != b
                                        && ow.contains_key(a) && ow.contains_key(b) implies ow[a] != ow[b] by {
                                    if a == id {
                                        assert(i == layer);
                                        assert(before[i].contains_key(b));
                                    } else if b == id {
                                        assert(i == layer);
                                        assert(before[i].contains_key(a));
                                    } else {
                                        assert(before[i].contains_key(a) && before[i].contains_key(b));
                                    }
                                }
                                assert forall|n: NodeID, i: int| 0 <= i < ls.len() && ow.contains_key(n) && ow[n] == first_bend_id
                                    && #[trigger] ls[i].contains_key(n) implies i <= layer by {
                                    if n != id {
                                        assert(before[i].contains_key(n));
                                    }
                                }
                            }
                        }
                        add_to_edges(edges, prev, id);
                        prev = id;
                        proof {
                            let c = layer - ed.from_level - 1;
                            assert(ed.from_level as int + (c + 1) == layer as int);
                        }
                        layer = layer + 1;
                    }
                    proof {
                        assert(layer - ed.from_level - 1 == bends(ed));
                    }
                    let ghost s1 = bend_chain(s0, first_bend_id, ed.from_level as int, bends(ed));
                    let ghost old_b = edge_bend_nodes@;
                    edge_bend_nodes.push(((group, ed), bend_ids));
                    proof {
                        assert(edge_bend_nodes@.map_values(|e: ((NodeID, EdgeData), Vec<NodeID>)| (e.0, e.1@)) =~=
                            old_b.map_values(|e: ((NodeID, EdgeData), Vec<NodeID>)| (e.0, e.1@)).push(((group, ed), s1.7)));
                        cur_g = s1.7;
                        prev_g = prev;
                    }
                    match group_node_at(group_layers, ed.to, ed.to_level) {
                        None => {},
                        Some(to_group_connection) => {
                            edge_connection_nodes.push(((group, ed), (group_connection, to_group_connection)));
                            add_to_edges(edges, prev, to_group_connection);
                        },
                    }
                },
            }
            j = j + 1;
        }
        k = k + 1;
    }
    (edge_bend_nodes, edge_connection_nodes)
}

/// Within every layer, no two nodes have the same owner.
pub open spec fn owners_unique(ls: Seq<Map<NodeID, usize>>, owners: Map<NodeID, NodeID>) -> bool {
    forall|i: int, a: NodeID, b: NodeID|
        0 <= i < ls.len() && #[trigger] ls[i].contains_key(a) && #[trigger] ls[i].contains_key(b) && a != b
            && owners.contains_key(a) && owners.contains_key(b) ==> owners[a] != owners[b]
}

/// The position in the next layer of the group of the node at position `p`, if that group
/// is also in the next layer (`gn` holds the group positions of the next layer).
pub open spec fn shared_at(s: Seq<NodeID>, gn: Map<NodeID, usize>, ow: Map<NodeID, NodeID>, p: int) -> Option<usize> {
    if ow.contains_key(s[p]) && gn.contains_key(ow[s[p]]) { Some(gn[ow[s[p]]]) } else { None }
}

/// The next-layer position of the first shared group at a position from `q` on.
pub open spec fn left_limit(s: Seq<NodeID>, gn: Map<NodeID, usize>, ow: Map<NodeID, NodeID>, q: int) -> Option<usize>
    decreases s.len() - q,
{
    if q >= s.len() || q < 0 {
        None
    } else if shared_at(s, gn, ow, q) is Some {
        shared_at(s, gn, ow, q)
    } else {
        left_limit(s, gn, ow, q + 1)
    }
}

/// The next-layer position of the last shared group at a position before `q`.
pub open spec fn right_limit(s: Seq<NodeID>, gn: Map<NodeID, usize>, ow: Map<NodeID, NodeID>, q: int) -> Option<usize>
    decreases q,
{
    if q <= 0 || q > s.len() {
        None
    } else if shared_at(s, gn, ow, q - 1) is Some {
        shared_at(s, gn, ow, q - 1)
    } else {
        right_limit(s, gn, ow, q - 1)
    }
}

/// The edges of a row that stay within the limits in the next layer `ln`.
pub open spec fn filtered(row: Map<NodeID, usize>, ln: Map<NodeID, usize>, left: Option<usize>, right: Option<usize>) -> Map<NodeID, usize> {
    Map::new(
        |to: NodeID| row.contains_key(to)
            && (left is None || (ln.contains_key(to) && ln[to] <= left->0))
            && (right is None || (ln.contains_key(to) && ln[to] >= right->0)),
        |to: NodeID| row[to],
    )
}

/// The edges after the crossings of groups between layer `li` and the next layer `ln` were
/// removed: every node of `li` keeps only the edges that stay left of the group after it and
/// right of the group before it.
pub open spec fn layer_uncrossed(ev: Map<NodeID, Map<NodeID, usize>>, li: Map<NodeID, usize>, ln: Map<NodeID, usize>, ow: Map<NodeID, NodeID>) -> Map<NodeID, Map<NodeID, usize>> {
    let s = order_seq(li);
    let gn = owner_positions(order_seq(ln), ow);
    Map::new(
        |n: NodeID| ev.contains_key(n),
        |n: NodeID| if li.contains_key(n) {
            filtered(ev[n], ln, left_limit(s, gn, ow, li[n] + 1), right_limit(s, gn, ow, li[n] as int))
        } else {
            ev[n]
        },
    )
}

/// The edges after the layer pairs `(0, 1) .. (i - 1, i)` were treated.
pub open spec fn uncrossed_upto(ev: Map<NodeID, Map<NodeID, usize>>, ls: Seq<Map<NodeID, usize>>, ow: Map<NodeID, NodeID>, i: int) -> Map<NodeID, Map<NodeID, usize>>
    decreases i,
{
    if i <= 0 { ev } else { layer_uncrossed(uncrossed_upto(ev, ls, ow, i - 1), ls[i - 1], ls[i], ow) }
}

/// Keeps, of the edges of `node`, those within the limits in `next_layer`.
fn restrict_edges(edges: &mut EdgeMap, node: NodeID, next_layer: &Order, left: Option<usize>, right: Option<usize>)
    ensures
        edge_view(final(edges)@) == (if edge_view(old(edges)@).contains_key(node) {
            edge_view(old(edges)@).insert(node, filtered(edge_view(old(edges)@)[node], next_layer@, left, right))
        } else {
            edge_view(old(edges)@)
        }),
{
    let ghost ev = edge_view(edges@);
    let row = match edges.remove(&node) {
        Some(r) => r,
        None => {
            return;
        },
    };
    let entries = map_entries(&row);
    let mut kept: HashMap<NodeID, usize> = HashMap::new();
    let mut k: usize = 0;
    while k < entries.len()
        invariant
            lists_map(entries@, row@),
            k <= entries.len(),
            forall|to: NodeID| #[trigger] kept@.contains_key(to) ==> filtered(row@, next_layer@, left, right).contains_key(to) && kept@[to] == row@[to],
            forall|j: int| 0 <= j < k && filtered(row@, next_layer@, left, right).contains_key(#[trigger] entries@[j].0) ==> kept@.contains_key(entries@[j].0),
        decreases entries.len() - k,
    {
        let (to, w) = entries[k];
        let pos = next_layer.get(&to);
        let keep_left = match left {
            None => true,
            Some(l) => match pos { Some(p) => *p <= l, None => false },
        };
        let keep_right = match right {
            None => true,
            Some(r) => match pos { Some(p) => *p >= r, None => false },
        };
        if keep_left && keep_right {
            kept.insert(to, w);
        }
        k = k + 1;
    }
    proof {
        let f = filtered(row@, next_layer@, left, right);
        assert forall|to: NodeID| #[trigger] kept@.contains_key(to) <==> f.contains_key(to) by {
            if f.contains_key(to) {
                let j = choose|j: int| 0 <= j < entries.len() && #[trigger] entries@[j].0 == to;
            }
        }
        assert(kept@ =~= f);
    }
    edges.insert(node, kept);
    proof {
        assert(edge_view(edges@) =~= ev.insert(node, filtered(ev[node], next_layer@, left, right)));
    }
}

proof fn lemma_left_limit_at(s: Seq<NodeID>, gn: Map<NodeID, usize>, ow: Map<NodeID, NodeID>, q: int, f: int)
    requires
        0 <= q <= f < s.len(),
        shared_at(s, gn, ow, f) is Some,
        forall|x: int| q <= x < f ==> shared_at(s, gn, ow, x) is None,
    ensures
        left_limit(s, gn, ow, q) == shared_at(s, gn, ow, f),
    decreases f - q,
{
    if q < f {
        lemma_left_limit_at(s, gn, ow, q + 1, f);
    }
}

proof fn lemma_left_limit_none(s: Seq<NodeID>, gn: Map<NodeID, usize>, ow: Map<NodeID, NodeID>, q: int)
    requires
        0 <= q,
        forall|x: int| q <= x < s.len() ==> shared_at(s, gn, ow, x) is None,
    ensures
        left_limit(s, gn, ow, q) is None,
    decreases s.len() - q,
{
    if q < s.len() {
        lemma_left_limit_none(s, gn, ow, q + 1);
    }
}

proof fn lemma_right_limit_at(s: Seq<NodeID>, gn: Map<NodeID, usize>, ow: Map<NodeID, NodeID>, q: int, f: int)
    requires
        0 <= f < q <= s.len(),
        shared_at(s, gn, ow, f) is Some,
        forall|x: int| f < x < q ==> shared_at(s, gn, ow, x) is None,
    ensures
        right_limit(s, gn, ow, q) == shared_at(s, gn, ow, f),
    decreases q - f,
{
    if q > f + 1 {
        lemma_right_limit_at(s, gn, ow, q - 1, f);
    }
}

proof fn lemma_right_limit_none(s: Seq<NodeID>, gn: Map<NodeID, usize>, ow: Map<NodeID, NodeID>, q: int)
    requires
        0 <= q <= s.len(),
        forall|x: int| 0 <= x < q ==> shared_at(s, gn, ow, x) is None,
    ensures
        right_limit(s, gn, ow, q) is None,
    decreases q,
{
    if q > 0 {
        lemma_right_limit_none(s, gn, ow, q - 1);
    }
}

/// The edges after the nodes at positions below `c` of the layer `li` were limited on the left.
pub open spec fn left_applied(
    evi: Map<NodeID, Map<NodeID, usize>>,
    li: Map<NodeID, usize>,
    ln: Map<NodeID, usize>,
    sq: Seq<NodeID>,
    gn: Map<NodeID, usize>,
    ow: Map<NodeID, NodeID>,
    c: int,
) -> Map<NodeID, Map<NodeID, usize>> {
    Map::new(
        |n: NodeID| evi.contains_key(n),
        |n: NodeID| if li.contains_key(n) && li[n] < c { filtered(evi[n], ln, left_limit(sq, gn, ow, li[n] + 1), None) } else { evi[n] },
    )
}

/// The edges after the nodes at positions above `c` of the layer `li` were limited on the right.
pub open spec fn right_applied(
    lf: Map<NodeID, Map<NodeID, usize>>,
    li: Map<NodeID, usize>,
    ln: Map<NodeID, usize>,
    sq: Seq<NodeID>,
    gn: Map<NodeID, usize>,
    ow: Map<NodeID, NodeID>,
    c: int,
) -> Map<NodeID, Map<NodeID, usize>> {
    Map::new(
        |n: NodeID| lf.contains_key(n),
        |n: NodeID| if li.contains_key(n) && li[n] > c { filtered(lf[n], ln, None, right_limit(sq, gn, ow, li[n] as int)) } else { lf[n] },
    )
}

/// Removes the edges that cross a group between neighbouring layers: a node left of a shared
/// group keeps only edges that end left of (or at) that group's node in the next layer, and
/// symmetrically on the right.
pub fn remove_group_crossings(layers: &Vec<Order>, edges: &mut EdgeMap, dummy_owners: &HashMap<NodeID, NodeID>)
    requires
        layers.len() > 0,
        all_orders(orders_view(layers@)),
        owners_unique(orders_view(layers@), dummy_owners@),
    ensures
        edge_view(final(edges)@) == uncrossed_upto(edge_view(old(edges)@), orders_view(layers@), dummy_owners@, layers.len() - 1),
{
    let ghost ls = orders_view(layers@);
    let ghost ow = dummy_owners@;
    let ghost ev0 = edge_view(edges@);
    let mut i: usize = 0;
    while i < layers.len() - 1
        invariant
            ls == orders_view(layers@),
            ow == dummy_owners@,
            layers.len() > 0,
            all_orders(ls),
            owners_unique(ls, ow),
            i <= layers.len() - 1,
            edge_view(edges@) == uncrossed_upto(ev0, ls, ow, i as int),
        decreases layers.len() - 1 - i,
    {
        let ghost evi = edge_view(edges@);
        let ghost li = ls[i as int];
        let ghost ln = ls[i + 1];
        assert(is_order(li) && is_order(ln));
        let layer = crate::layer_orderer::get_sequence(&layers[i]);
        let next_layer = &layers[i + 1];
        let next_groups = crate::group_alignment::group_positions(next_layer, dummy_owners);
        let ghost sq = layer@;
        let ghost gn = next_groups@;
        proof {
            crate::layer_orderer::lemma_order_seq(li);
            assert(sq == order_seq(li));
        }
        let mut shared: Vec<(usize, usize)> = Vec::new();
        let mut p: usize = 0;
        while p < layer.len()
            invariant
                gn == next_groups@,
                ow == dummy_owners@,
                sq == layer@,
                p <= layer.len(),
                forall|e: int| 0 <= e < shared.len() ==> (#[trigger] shared@[e]).0 < p && shared_at(sq, gn, ow, shared@[e].0 as int) == Some(shared@[e].1),
                forall|e: int, f: int| 0 <= e < f < shared.len() ==> (#[trigger] shared@[e]).0 < (#[trigger] shared@[f]).0,
                forall|x: int| 0 <= x < p && shared_at(sq, gn, ow, x) is Some ==> exists|e: int| 0 <= e < shared.len() && (#[trigger] shared@[e]).0 == x,
            decreases layer.len() - p,
        {
            let node = layer[p];
            let ghost old_shared = shared@;
            match dummy_owners.get(&node) {
                Some(g) => match next_groups.get(g) {
                    Some(t) => {
                        shared.push((p, *t));
                    },
                    None => {},
                },
                None => {},
            }
            proof {
                assert forall|x: int| 0 <= x < p + 1 && shared_at(sq, gn, ow, x) is Some implies exists|e: int| 0 <= e < shared.len() && (#[trigger] shared@[e]).0 == x by {
                    if x == p {
                        assert(shared@[shared.len() - 1].0 == p);
                    } else {
                        let e = choose|e: int| 0 <= e < old_shared.len() && (#[trigger] old_shared[e]).0 == x;
                        assert(shared@[e] == old_shared[e]);
                    }
                }
            }
            p = p + 1;
        }
        proof {
            assert(left_applied(evi, li, ln, sq, gn, ow, 0) =~= evi);
        }
        let mut node_index: usize = 0;
        let mut e: usize = 0;
        while e < shared.len()
            invariant
                next_layer@ == ln,
                sq == layer@,
                forall|x: int| 0 <= x < sq.len() ==> li.contains_key(#[trigger] sq[x]) && li[sq[x]] == x,
                is_order(li),
                forall|e: int| 0 <= e < shared.len() ==> (#[trigger] shared@[e]).0 < sq.len() && shared_at(sq, gn, ow, shared@[e].0 as int) == Some(shared@[e].1),
                forall|e: int, f: int| 0 <= e < f < shared.len() ==> (#[trigger] shared@[e]).0 < (#[trigger] shared@[f]).0,
                forall|x: int| 0 <= x < sq.len() && shared_at(sq, gn, ow, x) is Some ==> exists|e: int| 0 <= e < shared.len() && (#[trigger] shared@[e]).0 == x,
                e <= shared.len(),
                e == 0 ==> node_index == 0,
                e > 0 ==> node_index == shared@[e - 1].0,
                edge_view(edges@) == left_applied(evi, li, ln, sq, gn, ow, node_index as int),
            decreases shared.len() - e,
        {
            let (from, to) = shared[e];
            let ghost start = node_index as int;
            proof {
                assert forall|x: int| start < x < from implies shared_at(sq, gn, ow, x) is None by {
                    if shared_at(sq, gn, ow, x) is Some {
                        let f = choose|f: int| 0 <= f < shared.len() && (#[trigger] shared@[f]).0 == x;
                        if f < e {
                            if f < e - 1 {
                                assert(shared@[f].0 < shared@[e - 1].0);
                            }
                        } else if f > e {
                            assert(shared@[e as int].0 < shared@[f].0);
                        }
                    }
                }
                if e == 0 && 0 < from {
                    if shared_at(sq, gn, ow, 0) is Some {
                        let f = choose|f: int| 0 <= f < shared.len() && (#[trigger] shared@[f]).0 == 0;
                        if f > 0 {
                            assert(shared@[0].0 < shared@[f].0);
                        }
                    }
                }
                if e > 0 {
                    assert(shared@[e - 1].0 < shared@[e as int].0);
                }
            }
            while node_index < from
                invariant
                    start <= node_index <= from,
                    from < sq.len(),
                    shared_at(sq, gn, ow, from as int) == Some(to),
                    forall|x: int| start < x < from ==> shared_at(sq, gn, ow, x) is None,
                    e == 0 ==> start == 0,
                    e == 0 && 0 < from ==> shared_at(sq, gn, ow, 0) is None,
                    forall|x: int| 0 <= x < sq.len() ==> li.contains_key(#[trigger] sq[x]) && li[sq[x]] == x,
                    is_order(li),
                is_order(li),
                    next_layer@ == ln,
                    sq == layer@,
                    edge_view(edges@) == left_applied(evi, li, ln, sq, gn, ow, node_index as int),
                decreases from - node_index,
            {
                let node = layer[node_index];
                proof {
                    lemma_left_limit_at(sq, gn, ow, node_index + 1, from as int);
                }
                restrict_edges(edges, node, next_layer, Some(to), None);
                proof {
                    assert(li[node] == node_index);
                    assert(edge_view(edges@) =~= left_applied(evi, li, ln, sq, gn, ow, node_index + 1));
                }
                node_index = node_index + 1;
            }
            e = e + 1;
        }
        proof {
            assert forall|x: int| node_index < x < sq.len() implies shared_at(sq, gn, ow, x) is None by {
                if shared_at(sq, gn, ow, x) is Some {
                    let f = choose|f: int| 0 <= f < shared.len() && (#[trigger] shared@[f]).0 == x;
                    if f < shared.len() - 1 {
                        assert(shared@[f].0 < shared@[shared.len() - 1].0);
                    }
                }
            }
            assert forall|n: NodeID| #[trigger] li.contains_key(n) && li[n] >= node_index implies left_limit(sq, gn, ow, li[n] + 1) is None by {
                lemma_left_limit_none(sq, gn, ow, li[n] + 1);
            }
        }
        let ghost lfull = left_applied(evi, li, ln, sq, gn, ow, sq.len() as int);
        proof {
            assert forall|n: NodeID| #[trigger] evi.contains_key(n) implies edge_view(edges@)[n] == lfull[n] by {
                if li.contains_key(n) && li[n] >= node_index {
                    assert(filtered(evi[n], ln, None, None) =~= evi[n]);
                }
            }
            assert(edge_view(edges@) =~= lfull);
        }
        if layer.len() > 0 {
            let mut node_index: usize = layer.len() - 1;
            proof {
                assert(right_applied(lfull, li, ln, sq, gn, ow, node_index as int) =~= lfull);
            }
            let mut e: usize = shared.len();
            while e > 0
                invariant
                    next_layer@ == ln,
                    sq == layer@,
                    sq.len() > 0,
                    forall|x: int| 0 <= x < sq.len() ==> li.contains_key(#[trigger] sq[x]) && li[sq[x]] == x,
                    is_order(li),
                is_order(li),
                    forall|e: int| 0 <= e < shared.len() ==> (#[trigger] shared@[e]).0 < sq.len() && shared_at(sq, gn, ow, shared@[e].0 as int) == Some(shared@[e].1),
                    forall|e: int, f: int| 0 <= e < f < shared.len() ==> (#[trigger] shared@[e]).0 < (#[trigger] shared@[f]).0,
                    forall|x: int| 0 <= x < sq.len() && shared_at(sq, gn, ow, x) is Some ==> exists|e: int| 0 <= e < shared.len() && (#[trigger] shared@[e]).0 == x,
                    e <= shared.len(),
                    e == shared.len() ==> node_index == sq.len() - 1,
                    e < shared.len() ==> node_index == shared@[e as int].0,
                    edge_view(edges@) == right_applied(lfull, li, ln, sq, gn, ow, node_index as int),
                decreases e,
            {
                e = e - 1;
                let (from, to) = shared[e];
                let ghost start = node_index as int;
                proof {
                    assert forall|x: int| from < x < start implies shared_at(sq, gn, ow, x) is None by {
                        if shared_at(sq, gn, ow, x) is Some {
                            let f = choose|f: int| 0 <= f < shared.len() && (#[trigger] shared@[f]).0 == x;
                            if f < e {
                                assert(shared@[f].0 < shared@[e as int].0);
                            } else if f > e + 1 {
                                assert(shared@[e + 1].0 < shared@[f].0);
                            }
                        }
                    }
                    if e == shared.len() - 1 && from < start {
                        if shared_at(sq, gn, ow, start) is Some {
                            let f = choose|f: int| 0 <= f < shared.len() && (#[trigger] shared@[f]).0 == start;
                            if f < e {
                                assert(shared@[f].0 < shared@[e as int].0);
                            }
                        }
                    }
                    if e + 1 < shared.len() {
                        assert(shared@[e as int].0 < shared@[e + 1].0);
                    }
                }
                while node_index > from
                    invariant
                        from <= node_index <= start,
                        start < sq.len(),
                        shared_at(sq, gn, ow, from as int) == Some(to),
                        forall|x: int| from < x < start ==> shared_at(sq, gn, ow, x) is None,
                        e == shared.len() - 1 && from < start ==> shared_at(sq, gn, ow, start) is None,
                        e < shared.len() - 1 ==> start == shared@[e + 1].0,
                        e < shared.len(),
                        forall|x: int| 0 <= x < sq.len() ==> li.contains_key(#[trigger] sq[x]) && li[sq[x]] == x,
                        is_order(li),
                    is_order(li),
                is_order(li),
                        next_layer@ == ln,
                        sq == layer@,
                        edge_view(edges@) == right_applied(lfull, li, ln, sq, gn, ow, node_index as int),
                    decreases node_index,
                {
                    let node = layer[node_index];
                    proof {
                        lemma_right_limit_at(sq, gn, ow, node_index as int, from as int);
                    }
                    restrict_edges(edges, node, next_layer, None, Some(to));
                    proof {
                        assert(li[node] == node_index);
                        assert(edge_view(edges@) =~= right_applied(lfull, li, ln, sq, gn, ow, node_index - 1));
                    }
                    node_index = node_index - 1;
                }
            }
            proof {
                assert forall|x: int| 0 <= x < node_index implies shared_at(sq, gn, ow, x) is None by {
                    if shared_at(sq, gn, ow, x) is Some {
                        let f = choose|f: int| 0 <= f < shared.len() && (#[trigger] shared@[f]).0 == x;
                        if f > 0 {
                            assert(shared@[0].0 < shared@[f].0);
                        }
                    }
                }
                assert forall|n: NodeID| #[trigger] li.contains_key(n) && li[n] <= node_index implies right_limit(sq, gn, ow, li[n] as int) is None by {
                    lemma_right_limit_none(sq, gn, ow, li[n] as int);
                }
                let target = layer_uncrossed(evi, li, ln, ow);
                assert forall|n: NodeID| #[trigger] evi.contains_key(n) implies edge_view(edges@)[n] == target[n] by {
                    if li.contains_key(n) {
                        assert(sq[li[n] as int] == n);
                        if li[n] <= node_index {
                            assert(filtered(evi[n], ln, left_limit(sq, gn, ow, li[n] + 1), None)
                                =~= filtered(evi[n], ln, left_limit(sq, gn, ow, li[n] + 1), right_limit(sq, gn, ow, li[n] as int)));
                        } else {
                            assert(filtered(filtered(evi[n], ln, left_limit(sq, gn, ow, li[n] + 1), None), ln, None, right_limit(sq, gn, ow, li[n] as int))
                                =~= filtered(evi[n], ln, left_limit(sq, gn, ow, li[n] + 1), right_limit(sq, gn, ow, li[n] as int)));
                        }
                    }
                }
                assert(edge_view(edges@) =~= target);
            }
        } else {
            proof {
                assert forall|n: NodeID| !li.contains_key(n) by {
                    if li.contains_key(n) {
                        assert(li[n] < li.dom().len());
                    }
                }
                assert(edge_view(edges@) =~= layer_uncrossed(evi, li, ln, ow));
            }
        }
        i = i + 1;
    }
}

/// The first shared position from `q` on, up to a shared position `f`.
proof fn lemma_left_limit_some(s: Seq<NodeID>, gn: Map<NodeID, usize>, ow: Map<NodeID, NodeID>, q: int, f: int) -> (g: int)
    requires
        0 <= q <= f < s.len(),
        shared_at(s, gn, ow, f) is Some,
    ensures
        q <= g <= f,
        shared_at(s, gn, ow, g) is Some,
        left_limit(s, gn, ow, q) == shared_at(s, gn, ow, g),
    decreases f - q,
{
    if shared_at(s, gn, ow, q) is Some {
        q
    } else {
        lemma_left_limit_some(s, gn, ow, q + 1, f)
    }
}

/// The last shared position before `q`, down to a shared position `f`.
proof fn lemma_right_limit_some(s: Seq<NodeID>, gn: Map<NodeID, usize>, ow: Map<NodeID, NodeID>, q: int, f: int) -> (g: int)
    requires
        0 <= f < q <= s.len(),
        shared_at(s, gn, ow, f) is Some,
    ensures
        f <= g < q,
        shared_at(s, gn, ow, g) is Some,
        right_limit(s, gn, ow, q) == shared_at(s, gn, ow, g),
    decreases q - f,
{
    if shared_at(s, gn, ow, q - 1) is Some {
        q - 1
    } else {
        lemma_right_limit_some(s, gn, ow, q - 1, f)
    }
}

/// After the crossings of groups are removed, no kept edge crosses a group that both layers
/// share, provided the shared groups themselves do not cross: an edge from a node left of a
/// group ends at or left of that group's node below, and one from a node right of it ends at
/// or right of it.
pub proof fn law_kept_edges_do_not_cross_groups(
    ev: Map<NodeID, Map<NodeID, usize>>,
    li: Map<NodeID, usize>,
    ln: Map<NodeID, usize>,
    ow: Map<NodeID, NodeID>,
    u: NodeID,
    v: NodeID,
    f: int,
)
    requires
        is_order(li),
        forall|x: int, y: int| 0 <= x < y < order_seq(li).len()
            && shared_at(order_seq(li), owner_positions(order_seq(ln), ow), ow, x) is Some
            && shared_at(order_seq(li), owner_positions(order_seq(ln), ow), ow, y) is Some ==>
            (#[trigger] shared_at(order_seq(li), owner_positions(order_seq(ln), ow), ow, x))->0
                <= (#[trigger] shared_at(order_seq(li), owner_positions(order_seq(ln), ow), ow, y))->0,
        li.contains_key(u),
        layer_uncrossed(ev, li, ln, ow).contains_key(u),
        layer_uncrossed(ev, li, ln, ow)[u].contains_key(v),
        0 <= f < order_seq(li).len(),
        shared_at(order_seq(li), owner_positions(order_seq(ln), ow), ow, f) is Some,
    ensures
        li[u] < f ==> ln.contains_key(v) && ln[v] <= shared_at(order_seq(li), owner_positions(order_seq(ln), ow), ow, f)->0,
        li[u] > f ==> ln.contains_key(v) && ln[v] >= shared_at(order_seq(li), owner_positions(order_seq(ln), ow), ow, f)->0,
{
    let s = order_seq(li);
    let gn = owner_positions(order_seq(ln), ow);
    let p = li[u] as int;
    crate::layer_orderer::lemma_order_seq(li);
    if p < f {
        let g = lemma_left_limit_some(s, gn, ow, p + 1, f);
        if g < f {
            assert(shared_at(s, gn, ow, g)->0 <= shared_at(s, gn, ow, f)->0);
        }
    }
    if p > f {
        let g = lemma_right_limit_some(s, gn, ow, p, f);
        if f < g {
            assert(shared_at(s, gn, ow, f)->0 <= shared_at(s, gn, ow, g)->0);
        }
    }
}

/// The state after the groups and then their edges were laid out on empty layers.
pub open spec fn built_state(groups: Seq<(NodeID, u32, u32)>, children: Seq<(NodeID, Seq<EdgeData>)>) -> EdgeState {
    let d = first_free(0, groups, groups.len() as int);
    let st = group_dummies(
        (groups_placed(Seq::empty(), groups, groups.len() as int), Map::empty(), Map::empty(), d,
            start_layers(groups, groups.len() as int), 0),
        groups, groups.len() as int);
    groups_edges_laid((st.0, st.1, st.2, st.3, Seq::empty(), Seq::empty(), 0, Seq::empty()), st.4, children, children.len() as int)
}

/// The node sets and owners of the layers are all that `owners_unique` depends on.
proof fn lemma_owners_unique_doms(a: Seq<Map<NodeID, usize>>, b: Seq<Map<NodeID, usize>>, owners: Map<NodeID, NodeID>)
    requires
        owners_unique(a, owners),
        arrangements(b, layer_doms(a)),
    ensures
        owners_unique(b, owners),
{
    assert forall|i: int, x: NodeID, y: NodeID|
        0 <= i < b.len() && #[trigger] b[i].contains_key(x) && #[trigger] b[i].contains_key(y) && x != y
            && owners.contains_key(x) && owners.contains_key(y) implies owners[x] != owners[y] by {
        assert(arrangement(b[i], layer_doms(a)[i]));
        assert(a[i].contains_key(x) && a[i].contains_key(y));
    }
}

/// The layers of a layered drawing with everything but coordinates decided: the nodes
/// ordered and aligned, the edges that cross groups removed, and the dummy nodes recorded.
pub struct ArrangedLayers {
    pub layers: Vec<Order>,
    pub edges: EdgeMap,
    pub owners: HashMap<NodeID, NodeID>,
    pub dummy_group_start_id: NodeID,
    pub dummy_edge_start_id: NodeID,
    pub edge_bend_nodes: Vec<((NodeID, EdgeData), Vec<NodeID>)>,
    pub edge_connection_nodes: Vec<((NodeID, EdgeData), (NodeID, NodeID))>,
}

/// A layered layout: an ordering of the nodes in each layer followed by an alignment of the
/// groups across layers.
pub struct LayeredLayout<O: LayerOrdering, G: LayerGroupSorting> {
    ordering: O,
    group_aligning: G,
}

impl<O: LayerOrdering, G: LayerGroupSorting> LayeredLayout<O, G> {
    /// The ordering.
    pub closed spec fn ordering(&self) -> O {
        self.ordering
    }

    /// The group alignment.
    pub closed spec fn group_aligning(&self) -> G {
        self.group_aligning
    }

    pub fn new(ordering: O, group_aligning: G) -> (out: Self)
        ensures
            out.ordering() == ordering,
            out.group_aligning() == group_aligning,
    {
        LayeredLayout { ordering, group_aligning }
    }

    /// Lays out the groups (id, first level, last level) and their edges as layers with dummy
    /// nodes, orders and aligns the layers, and removes the edges that cross groups.
    pub fn arrange_layers(
        &self,
        groups: &Vec<(NodeID, u32, u32)>,
        group_children: &Vec<(NodeID, Vec<EdgeData>)>,
    ) -> (out: ArrangedLayers)
        requires
            groups.len() > 0,
            groups_fit(0, groups@),
            forall|j: int, k: int| 0 <= j < k < groups.len() ==> (#[trigger] groups@[j]).0 != (#[trigger] groups@[k]).0,
            edges_fit(first_free(0, groups@, groups.len() as int) + total_span(groups@, groups.len() as int),
                children_view(group_children@)),
            self.ordering().accepts_layers(layer_doms(built_state(groups@, children_view(group_children@)).0),
                built_state(groups@, children_view(group_children@)).1),
            forall|os: Seq<Map<NodeID, usize>>| #[trigger] arrangements(os, layer_doms(built_state(groups@, children_view(group_children@)).0))
                ==> self.group_aligning().accepts_groups(os, built_state(groups@, children_view(group_children@)).2),
        ensures
            ({
                let st = built_state(groups@, children_view(group_children@));
                &&& arrangements(orders_view(out.layers@), layer_doms(st.0))
                &&& out.owners@ == st.2
                &&& edge_view(out.edges@) == uncrossed_upto(st.1, orders_view(out.layers@), st.2, out.layers.len() - 1)
                &&& out.dummy_group_start_id == first_free(0, groups@, groups.len() as int)
                &&& out.dummy_edge_start_id == out.dummy_group_start_id + total_span(groups@, groups.len() as int)
                &&& out.edge_bend_nodes@.map_values(|e: ((NodeID, EdgeData), Vec<NodeID>)| (e.0, e.1@)) == st.4
                &&& out.edge_connection_nodes@ == st.5
                &&& owners_unique(orders_view(out.layers@), out.owners@)
                &&& exists|mid: Seq<Map<NodeID, usize>>|
                    #[trigger] self.ordering().ordered_to(st.0, st.1, out.dummy_group_start_id, out.dummy_edge_start_id, st.2, mid)
                    && self.group_aligning().aligned_to(mid, st.1, out.dummy_group_start_id, out.dummy_edge_start_id, st.2,
                        orders_view(out.layers@))
            }),
    {
        let ghost gs = groups@;
        let ghost cs = children_view(group_children@);
        let mut layers: Vec<Order> = Vec::new();
        let mut edges: EdgeMap = HashMap::new();
        let mut dummy_owners: HashMap<NodeID, NodeID> = HashMap::new();
        let mut next_free_id: NodeID = 0;
        proof {
            assert(orders_view(layers@) =~= Seq::<Map<NodeID, usize>>::empty());
            assert(edge_view(edges@) =~= Map::<NodeID, Map<NodeID, usize>>::empty());
            assert(fresh_start(orders_view(layers@), 0, gs)) by {
                assert forall|n: NodeID| #[trigger] layer_ids(orders_view(layers@)).contains(n) implies n < 0 by {}
            }
        }
        let (dummy_group_start_id, group_layers) =
            add_groups_with_dummies(groups, &mut layers, &mut edges, &mut dummy_owners, &mut next_free_id);
        let dummy_edge_start_id = next_free_id;
        let (edge_bend_nodes, edge_connection_nodes) =
            add_edges_with_dummies(group_children, &mut layers, &mut edges, &mut dummy_owners, &group_layers, &mut next_free_id);
        proof {
            let st = built_state(gs, cs);
            assert(orders_view(layers@) == st.0);
            assert(edge_view(edges@) == st.1);
            assert(dummy_owners@ == st.2);
        }
        let ordered = self.ordering.order_nodes(&layers, &edges, dummy_group_start_id, dummy_edge_start_id, &dummy_owners);
        proof {
            let st = built_state(gs, cs);
            assert(layer_doms(orders_view(ordered@)) =~= layer_doms(st.0));
            assert(all_orders(orders_view(ordered@)));
            assert(arrangements(orders_view(ordered@), layer_doms(st.0)));
        }
        let aligned = self.group_aligning.align_cross_layer_nodes(&ordered, &edges, dummy_group_start_id, dummy_edge_start_id, &dummy_owners);
        proof {
            let st = built_state(gs, cs);
            assert(layer_doms(orders_view(aligned@)) =~= layer_doms(orders_view(ordered@)));
            assert(arrangements(orders_view(aligned@), layer_doms(st.0))) by {
                assert forall|i: int| 0 <= i < aligned.len() implies arrangement(#[trigger] orders_view(aligned@)[i], layer_doms(st.0)[i]) by {
                    assert(arrangement(orders_view(aligned@)[i], layer_doms(orders_view(ordered@))[i]));
                }
            }
            lemma_owners_unique_doms(st.0, orders_view(aligned@), st.2);
            assert(all_orders(orders_view(aligned@)));
            assert(aligned.len() == layers.len());
            assert(self.ordering().ordered_to(st.0, st.1, dummy_group_start_id, dummy_edge_start_id, st.2, orders_view(ordered@)));
            assert(self.group_aligning().aligned_to(orders_view(ordered@), st.1, dummy_group_start_id, dummy_edge_start_id, st.2,
                orders_view(aligned@)));
        }
        remove_group_crossings(&aligned, &mut edges, &dummy_owners);
        ArrangedLayers {
            layers: aligned,
            edges,
            owners: dummy_owners,
            dummy_group_start_id,
            dummy_edge_start_id,
            edge_bend_nodes,
            edge_connection_nodes,
        }
    }
}

} // verus!
