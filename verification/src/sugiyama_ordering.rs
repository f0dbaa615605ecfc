use std::collections::HashMap;
use vstd::prelude::*;
use crate::layout_traits::LayerOrdering;
use crate::layer_orderer::{
    NodeID, Order, EdgeMap, is_order, edge_view, crossings, count_crossings, swap_edges, swapped,
    LayerOrderer, groups_view, groups_well_formed, orders_view, all_orders,
};
use crate::barycenter_ordering::{arrangement, BarycenterOrdering};

verus! {

broadcast use vstd::std_specs::hash::group_hash_axioms;

/// The layers `os` are orders of the node sets `doms`, one for one.
pub open spec fn arrangements(os: Seq<Map<NodeID, usize>>, doms: Seq<Set<NodeID>>) -> bool {
    &&& os.len() == doms.len()
    &&& forall|i: int| 0 <= i < os.len() ==> arrangement(#[trigger] os[i], doms[i])
}

/// The node sets of the layers.
pub open spec fn layer_doms(os: Seq<Map<NodeID, usize>>) -> Seq<Set<NodeID>> {
    os.map_values(|o: Map<NodeID, usize>| o.dom())
}

/// The number of crossings between all pairs of neighbouring layers.
pub open spec fn graph_crossings(os: Seq<Map<NodeID, usize>>, ev: Map<NodeID, Map<NodeID, usize>>) -> nat
    decreases os.len(),
{
    if os.len() < 2 {
        0
    } else {
        graph_crossings(os.drop_last(), ev) + crossings(os[os.len() - 2], os[os.len() - 1], ev)
    }
}

/// However the layers with the node sets `doms` are ordered, their crossings fit in a `usize`.
pub open spec fn graph_safe(doms: Seq<Set<NodeID>>, ev: Map<NodeID, Map<NodeID, usize>>) -> bool {
    forall|os: Seq<Map<NodeID, usize>>| #[trigger] arrangements(os, doms) ==> graph_crossings(os, ev) <= usize::MAX
}

/// The orderer accepts every layer after the first, in any order, next to any order of the
/// layer before it, with the edges `e`.
pub open spec fn chain_accepts<L: LayerOrderer>(ord: L, doms: Seq<Set<NodeID>>, e: Map<NodeID, Map<NodeID, usize>>) -> bool {
    forall|i: int| 1 <= i < doms.len() ==> #[trigger] pair_accepts(ord, doms[i], doms[i - 1], e)
}

/// The orderer accepts any order of `d` next to any order of `d_next`, with the edges `e`.
pub open spec fn pair_accepts<L: LayerOrderer>(ord: L, d: Set<NodeID>, d_next: Set<NodeID>, e: Map<NodeID, Map<NodeID, usize>>) -> bool {
    forall|a: Map<NodeID, usize>, b: Map<NodeID, usize>|
        arrangement(a, d) && arrangement(b, d_next) ==> #[trigger] ord.accepts(a, b, e)
}

/// The orderer can be applied downwards with the reversed edges `rv` and upwards with the
/// edges `ev`, whatever the current orders.
pub open spec fn orderer_safe<L: LayerOrderer>(
    ord: L,
    doms: Seq<Set<NodeID>>,
    ev: Map<NodeID, Map<NodeID, usize>>,
    rv: Map<NodeID, Map<NodeID, usize>>,
) -> bool {
    chain_accepts(ord, doms, rv) && chain_accepts(ord, doms.reverse(), ev)
}

/// Whether `n` occurs in one of the groups.
pub open spec fn in_group(groups: Seq<Seq<NodeID>>, n: NodeID) -> bool {
    exists|g: int, i: int| 0 <= g < groups.len() && 0 <= i < groups[g].len() && #[trigger] groups[g][i] == n
}

/// The node in the mirrored position of `n`'s group, or `n` itself outside the groups.
pub open spec fn group_partner(groups: Seq<Seq<NodeID>>, n: NodeID) -> NodeID {
    if in_group(groups, n) {
        let (g, i) = choose|g: int, i: int| 0 <= g < groups.len() && 0 <= i < groups[g].len() && #[trigger] groups[g][i] == n;
        groups[g][groups[g].len() - 1 - i]
    } else {
        n
    }
}

/// The order in which every group's nodes are placed in reverse.
pub open spec fn reversed_groups(groups: Seq<Seq<NodeID>>, o: Map<NodeID, usize>) -> Map<NodeID, usize> {
    Map::new(|n: NodeID| o.contains_key(n), |n: NodeID| o[group_partner(groups, n)])
}

/// The partner of the node at index `i` of group `g` is the node at the mirrored index.
proof fn lemma_partner_at(groups: Seq<Seq<NodeID>>, o: Map<NodeID, usize>, g: int, i: int)
    requires
        groups_well_formed(groups, o),
        0 <= g < groups.len(),
        0 <= i < groups[g].len(),
    ensures
        in_group(groups, groups[g][i]),
        group_partner(groups, groups[g][i]) == groups[g][groups[g].len() - 1 - i],
{
    let n = groups[g][i];
    assert(in_group(groups, n));
    let (g2, i2) = choose|g2: int, i2: int| 0 <= g2 < groups.len() && 0 <= i2 < groups[g2].len() && #[trigger] groups[g2][i2] == n;
    if g2 != g {
        assert(groups[g][i] != groups[g2][i2]);
    }
    assert(g2 == g);
    assert(groups[g].no_duplicates());
    assert(i2 == i);
}

/// Taking the partner twice gives the node back, and partners stay within the order.
proof fn lemma_partner_involution(groups: Seq<Seq<NodeID>>, o: Map<NodeID, usize>, n: NodeID)
    requires
        groups_well_formed(groups, o),
        o.contains_key(n),
    ensures
        o.contains_key(group_partner(groups, n)),
        group_partner(groups, group_partner(groups, n)) == n,
{
    if in_group(groups, n) {
        let (g, i) = choose|g: int, i: int| 0 <= g < groups.len() && 0 <= i < groups[g].len() && #[trigger] groups[g][i] == n;
        lemma_partner_at(groups, o, g, i);
        let j = groups[g].len() - 1 - i;
        lemma_partner_at(groups, o, g, j);
        assert(groups[g].len() - 1 - j == i);
    }
}

/// Reversing well-formed groups of an order gives an order of the same nodes.
pub proof fn lemma_reversed_groups_order(groups: Seq<Seq<NodeID>>, o: Map<NodeID, usize>)
    requires
        is_order(o),
        groups_well_formed(groups, o),
    ensures
        is_order(reversed_groups(groups, o)),
        reversed_groups(groups, o).dom() == o.dom(),
{
    let r = reversed_groups(groups, o);
    assert(r.dom() =~= o.dom());
    assert forall|k: NodeID| #[trigger] r.contains_key(k) implies r[k] < r.dom().len() by {
        lemma_partner_involution(groups, o, k);
    }
    assert forall|k1: NodeID, k2: NodeID|
        r.contains_key(k1) && r.contains_key(k2) && #[trigger] r[k1] == #[trigger] r[k2] implies k1 == k2 by {
        lemma_partner_involution(groups, o, k1);
        lemma_partner_involution(groups, o, k2);
    }
}

/// Reversing the same well-formed groups twice gives the order back.
pub proof fn law_reverse_groups_involution(groups: Seq<Seq<NodeID>>, o: Map<NodeID, usize>)
    requires
        is_order(o),
        groups_well_formed(groups, o),
    ensures
        reversed_groups(groups, reversed_groups(groups, o)) == o,
{
    let r = reversed_groups(groups, o);
    lemma_reversed_groups_order(groups, o);
    assert forall|n: NodeID| #[trigger] o.contains_key(n) implies reversed_groups(groups, r)[n] == o[n] by {
        lemma_partner_involution(groups, o, n);
    }
    assert(reversed_groups(groups, r) =~= o);
}

/// The positions of group `k` below `i` and from `len - i` on, and all positions of the
/// groups before `k`.
spec fn covered_pos(groups: Seq<Seq<NodeID>>, k: int, i: int, g: int, j: int) -> bool {
    &&& 0 <= g < groups.len()
    &&& 0 <= j < groups[g].len()
    &&& (g < k || (g == k && (j < i || j >= groups[k].len() - i)))
}

spec fn covered(groups: Seq<Seq<NodeID>>, k: int, i: int, n: NodeID) -> bool {
    exists|g: int, j: int| covered_pos(groups, k, i, g, j) && #[trigger] groups[g][j] == n
}

/// Places the nodes of every group in reverse order, keeping the positions the group occupies.
pub fn reverse_groups(equal_groups: Vec<Vec<NodeID>>, order: &Order) -> (out: Order)
    requires
        is_order(order@),
        groups_well_formed(groups_view(equal_groups@), order@),
    ensures
        out@ == reversed_groups(groups_view(equal_groups@), order@),
        is_order(out@),
        out@.dom() == order@.dom(),
{
    let ghost gs = groups_view(equal_groups@);
    let ghost o = order@;
    let mut out = order.clone();
    let mut k: usize = 0;
    while k < equal_groups.len()
        invariant
            gs == groups_view(equal_groups@),
            o == order@,
            is_order(o),
            groups_well_formed(gs, o),
            k <= equal_groups.len(),
            out@.dom() == o.dom(),
            forall|g: int, j: int| 0 <= g < k && 0 <= j < gs[g].len() ==> out@[#[trigger] gs[g][j]] == o[gs[g][gs[g].len() - 1 - j]],
            forall|n: NodeID| #[trigger] o.contains_key(n) && !covered(gs, k as int, 0, n) ==> out@[n] == o[n],
        decreases equal_groups.len() - k,
    {
        let group = &equal_groups[k];
        let len = group.len();
        let ghost gk = gs[k as int];
        assert(gk == group@);
        let mut i: usize = 0;
        while i < len / 2
            invariant
                gs == groups_view(equal_groups@),
                o == order@,
                is_order(o),
                groups_well_formed(gs, o),
                k < equal_groups.len(),
                gk == gs[k as int],
                gk == group@,
                len == gk.len(),
                i <= len / 2,
                out@.dom() == o.dom(),
                forall|g: int, j: int| 0 <= g < k && 0 <= j < gs[g].len() ==> out@[#[trigger] gs[g][j]] == o[gs[g][gs[g].len() - 1 - j]],
                forall|j: int| 0 <= j < i ==> out@[#[trigger] gk[j]] == o[gk[len - 1 - j]],
                forall|j: int| len - i <= j < len ==> out@[#[trigger] gk[j]] == o[gk[len - 1 - j]],
                forall|n: NodeID| #[trigger] o.contains_key(n) && !covered(gs, k as int, i as int, n) ==> out@[n] == o[n],
            decreases len / 2 - i,
        {
            let first_node = group[i];
            let last_node = group[len - i - 1];
            let ghost old_out = out@;
            proof {
                assert(o.contains_key(gs[k as int][i as int]));
                assert(o.contains_key(gs[k as int][len - 1 - i]));
                assert(gk.no_duplicates());
                assert(first_node != last_node);
            }
            match order.get(&first_node) {
                Some(first_pos) => {
                    out.insert(last_node, *first_pos);
                },
                None => {},
            }
            match order.get(&last_node) {
                Some(last_pos) => {
                    out.insert(first_node, *last_pos);
                },
                None => {},
            }
            proof {
                assert(out@ == old_out.insert(last_node, o[first_node]).insert(first_node, o[last_node]));
                assert forall|g: int, j: int| 0 <= g < k && 0 <= j < gs[g].len() implies out@[#[trigger] gs[g][j]] == o[gs[g][gs[g].len() - 1 - j]] by {
                    assert(gs[g][j] != gs[k as int][i as int]);
                    assert(gs[g][j] != gs[k as int][len - 1 - i]);
                }
                assert forall|j: int| 0 <= j < i + 1 implies out@[#[trigger] gk[j]] == o[gk[len - 1 - j]] by {
                    if j < i {
                        assert(gk[j] != gk[i as int]);
                        assert(gk[j] != gk[len - 1 - i]);
                    }
                }
                assert forall|j: int| len - (i + 1) <= j < len implies out@[#[trigger] gk[j]] == o[gk[len - 1 - j]] by {
                    if j > len - 1 - i {
                        assert(gk[j] != gk[i as int]);
                        assert(gk[j] != gk[len - 1 - i]);
                    }
                }
                assert forall|n: NodeID| #[trigger] o.contains_key(n) && !covered(gs, k as int, i + 1, n) implies out@[n] == o[n] by {
                    if covered(gs, k as int, i as int, n) {
                        let (g, j) = choose|g: int, j: int| covered_pos(gs, k as int, i as int, g, j) && #[trigger] gs[g][j] == n;
                        assert(covered_pos(gs, k as int, i + 1, g, j));
                    }
                    assert(covered_pos(gs, k as int, i + 1, k as int, i as int));
                    assert(covered_pos(gs, k as int, i + 1, k as int, len - 1 - i));
                    assert(n != first_node);
                    assert(n != last_node);
                }
            }
            i = i + 1;
        }
        proof {
            assert forall|g: int, j: int| 0 <= g < k + 1 && 0 <= j < gs[g].len() implies out@[#[trigger] gs[g][j]] == o[gs[g][gs[g].len() - 1 - j]] by {
                if g == k {
                    if j >= i && j < len - i {
                        assert(j == len - 1 - j);
                        let n = gk[j];
                        assert(o.contains_key(n));
                        if covered(gs, k as int, i as int, n) {
                            let (g2, j2) = choose|g2: int, j2: int| covered_pos(gs, k as int, i as int, g2, j2) && #[trigger] gs[g2][j2] == n;
                            if g2 != k {
                                assert(gs[g2][j2] != gs[k as int][j]);
                            }
                            assert(gk.no_duplicates());
                            assert(j2 == j);
                        }
                    }
                }
            }
            assert forall|n: NodeID| #[trigger] o.contains_key(n) && !covered(gs, k + 1, 0, n) implies out@[n] == o[n] by {
                if covered(gs, k as int, i as int, n) {
                    let (g, j) = choose|g: int, j: int| covered_pos(gs, k as int, i as int, g, j) && #[trigger] gs[g][j] == n;
                    assert(covered_pos(gs, k + 1, 0, g, j));
                }
            }
        }
        k = k + 1;
    }
    proof {
        let r = reversed_groups(gs, o);
        assert forall|n: NodeID| #[trigger] o.contains_key(n) implies out@[n] == r[n] by {
            if in_group(gs, n) {
                let (g, j) = choose|g: int, j: int| 0 <= g < gs.len() && 0 <= j < gs[g].len() && #[trigger] gs[g][j] == n;
                lemma_partner_at(gs, o, g, j);
            } else {
                if covered(gs, k as int, 0, n) {
                    let (g, j) = choose|g: int, j: int| covered_pos(gs, k as int, 0, g, j) && #[trigger] gs[g][j] == n;
                    assert(in_group(gs, n));
                }
            }
        }
        assert(out@ =~= r);
        lemma_reversed_groups_order(gs, o);
    }
    out
}

/// Taking more layers never lowers the count of crossings.
proof fn lemma_graph_crossings_take(os: Seq<Map<NodeID, usize>>, ev: Map<NodeID, Map<NodeID, usize>>, i: int)
    requires
        0 <= i <= os.len(),
    ensures
        graph_crossings(os.take(i), ev) <= graph_crossings(os, ev),
    decreases os.len(),
{
    if i < os.len() {
        assert(os.drop_last().take(i) =~= os.take(i));
        lemma_graph_crossings_take(os.drop_last(), ev, i);
    } else {
        assert(os.take(i) =~= os);
    }
}

/// Counts the crossings between all pairs of neighbouring layers.
pub fn count_graph_crossings(orders: &Vec<Order>, edges: &EdgeMap) -> (out: usize)
    requires
        all_orders(orders_view(orders@)),
        graph_crossings(orders_view(orders@), edge_view(edges@)) <= usize::MAX,
    ensures
        out == graph_crossings(orders_view(orders@), edge_view(edges@)),
{
    let ghost os = orders_view(orders@);
    let ghost ev = edge_view(edges@);
    if orders.len() < 2 {
        return 0;
    }
    let mut total: usize = 0;
    let mut i: usize = 1;
    proof {
        assert(os.take(1).len() == 1);
    }
    while i < orders.len()
        invariant
            os == orders_view(orders@),
            ev == edge_view(edges@),
            all_orders(os),
            graph_crossings(os, ev) <= usize::MAX,
            1 <= i <= orders.len(),
            total == graph_crossings(os.take(i as int), ev),
        decreases orders.len() - i,
    {
        proof {
            let t = os.take(i + 1);
            assert(t.drop_last() =~= os.take(i as int));
            assert(t[t.len() - 2] == os[i - 1] && t[t.len() - 1] == os[i as int]);
            lemma_graph_crossings_take(os, ev, i + 1);
            assert(is_order(os[i - 1]) && is_order(os[i as int]));
        }
        let c = count_crossings((&orders[i - 1], &orders[i]), edges);
        total = total + c;
        i = i + 1;
    }
    proof {
        assert(os.take(i as int) =~= os);
    }
    total
}

/// Copies a list of layers.
fn clone_layers(v: &Vec<Order>) -> (out: Vec<Order>)
    ensures
        orders_view(out@) == orders_view(v@),
{
    let mut out: Vec<Order> = Vec::new();
    let mut i: usize = 0;
    while i < v.len()
        invariant
            i <= v.len(),
            out.len() == i,
            forall|j: int| 0 <= j < i ==> (#[trigger] out@[j])@ == v@[j]@,
        decreases v.len() - i,
    {
        out.push(v[i].clone());
        i = i + 1;
    }
    assert(orders_view(out@) =~= orders_view(v@));
    out
}

/// Copies a list of layers in reverse order.
fn reverse_layers(v: &Vec<Order>) -> (out: Vec<Order>)
    ensures
        orders_view(out@) == orders_view(v@).reverse(),
{
    let mut out: Vec<Order> = Vec::new();
    let mut i: usize = v.len();
    while i > 0
        invariant
            i <= v.len(),
            out.len() == v.len() - i,
            forall|j: int| 0 <= j < out.len() ==> (#[trigger] out@[j])@ == v@[v.len() - 1 - j]@,
        decreases i,
    {
        i = i - 1;
        out.push(v[i].clone());
    }
    assert(orders_view(out@) =~= orders_view(v@).reverse());
    out
}

/// One sweep over the layers: every layer after the first is ordered by the orderer against
/// the (already ordered) layer before it, with the edges `e`.
pub open spec fn oneway<L: LayerOrderer>(ord: L, os: Seq<Map<NodeID, usize>>, e: Map<NodeID, Map<NodeID, usize>>) -> Seq<Map<NodeID, usize>>
    decreases os.len(),
{
    if os.len() <= 1 {
        os
    } else {
        let prev = oneway(ord, os.drop_last(), e);
        prev.push(ord.order_spec(os.last(), prev.last(), e))
    }
}

proof fn lemma_oneway_len<L: LayerOrderer>(ord: L, os: Seq<Map<NodeID, usize>>, e: Map<NodeID, Map<NodeID, usize>>)
    ensures
        oneway(ord, os, e).len() == os.len(),
    decreases os.len(),
{
    if os.len() > 1 {
        lemma_oneway_len(ord, os.drop_last(), e);
    }
}

/// Orders every layer after the first against the layer before it, top to bottom.
pub fn apply_barycenters_oneway<L: LayerOrderer>(
    orders: &Vec<Order>,
    reverse_edges: &EdgeMap,
    edges: &EdgeMap,
    ordering: &L,
) -> (out: Vec<Order>)
    requires
        all_orders(orders_view(orders@)),
        chain_accepts(*ordering, layer_doms(orders_view(orders@)), edge_view(reverse_edges@)),
    ensures
        orders_view(out@) == oneway(*ordering, orders_view(orders@), edge_view(reverse_edges@)),
        arrangements(orders_view(out@), layer_doms(orders_view(orders@))),
{
    let ghost os = orders_view(orders@);
    let ghost e = edge_view(reverse_edges@);
    let ghost doms = layer_doms(os);
    if orders.len() == 0 {
        let out = clone_layers(orders);
        return out;
    }
    let mut out: Vec<Order> = Vec::new();
    out.push(orders[0].clone());
    proof {
        assert(os.take(1).len() == 1);
        assert(orders_view(out@) =~= oneway(*ordering, os.take(1), e));
    }
    let mut i: usize = 1;
    while i < orders.len()
        invariant
            os == orders_view(orders@),
            e == edge_view(reverse_edges@),
            doms == layer_doms(os),
            all_orders(os),
            chain_accepts(*ordering, doms, e),
            1 <= i <= orders.len(),
            out.len() == i,
            orders_view(out@) == oneway(*ordering, os.take(i as int), e),
            forall|j: int| 0 <= j < i ==> arrangement(#[trigger] out@[j]@, doms[j]),
        decreases orders.len() - i,
    {
        proof {
            assert(pair_accepts(*ordering, doms[i as int], doms[i - 1], e));
            assert(arrangement(os[i as int], doms[i as int]));
            assert(arrangement(out@[i - 1]@, doms[i - 1]));
            assert(ordering.accepts(orders@[i as int]@, out@[i - 1]@, e));
        }
        let new_layer = ordering.order(&orders[i], &out[i - 1], reverse_edges);
        let ghost prev = orders_view(out@);
        out.push(new_layer);
        proof {
            let t = os.take(i + 1);
            assert(t.drop_last() =~= os.take(i as int));
            assert(t.last() == os[i as int]);
            assert(prev.last() == out@[i - 1]@);
            assert(orders_view(out@) =~= prev.push(out@[i as int]@));
        }
        i = i + 1;
    }
    proof {
        assert(os.take(i as int) =~= os);
        assert forall|j: int| 0 <= j < out.len() implies arrangement(#[trigger] orders_view(out@)[j], doms[j]) by {
            assert(arrangement(out@[j]@, doms[j]));
        }
    }
    out
}

/// Orders of the node sets `doms` have those node sets.
proof fn lemma_arrangements_doms(os: Seq<Map<NodeID, usize>>, doms: Seq<Set<NodeID>>)
    requires
        arrangements(os, doms),
    ensures
        layer_doms(os) == doms,
        all_orders(os),
{
    assert(layer_doms(os) =~= doms);
}

/// One round of the iterative ordering: a downward sweep, kept if it does not add crossings,
/// then an upward sweep, kept on the same condition. Gives the layers and their crossings.
pub open spec fn iter_round<L: LayerOrderer>(
    ord: L,
    os: Seq<Map<NodeID, usize>>,
    c: nat,
    ev: Map<NodeID, Map<NodeID, usize>>,
    rv: Map<NodeID, Map<NodeID, usize>>,
) -> (Seq<Map<NodeID, usize>>, nat) {
    let down = oneway(ord, os, rv);
    let dc = graph_crossings(down, ev);
    let os1 = if dc <= c { down } else { os };
    let c1 = if dc <= c { dc } else { c };
    let up = oneway(ord, os1.reverse(), ev).reverse();
    let uc = graph_crossings(up, ev);
    if uc <= c1 { (up, uc) } else { (os1, c1) }
}

/// At most `k` rounds, stopping after the first round that leaves the crossings unchanged.
pub open spec fn iter_rounds<L: LayerOrderer>(
    ord: L,
    os: Seq<Map<NodeID, usize>>,
    c: nat,
    ev: Map<NodeID, Map<NodeID, usize>>,
    rv: Map<NodeID, Map<NodeID, usize>>,
    k: nat,
) -> Seq<Map<NodeID, usize>>
    decreases k,
{
    if k == 0 {
        os
    } else {
        let (os1, c1) = iter_round(ord, os, c, ev, rv);
        if c1 == c { os1 } else { iter_rounds(ord, os1, c1, ev, rv, (k - 1) as nat) }
    }
}

/// The result of the iterative ordering with at most `max_iterations` rounds.
pub open spec fn iterative<L: LayerOrderer>(
    ord: L,
    os: Seq<Map<NodeID, usize>>,
    ev: Map<NodeID, Map<NodeID, usize>>,
    rv: Map<NodeID, Map<NodeID, usize>>,
    max_iterations: nat,
) -> Seq<Map<NodeID, usize>> {
    iter_rounds(ord, os, graph_crossings(os, ev), ev, rv, max_iterations)
}

/// Rounds started from layers whose crossings are `c` never end with more crossings.
proof fn lemma_iter_rounds_crossings<L: LayerOrderer>(
    ord: L,
    os: Seq<Map<NodeID, usize>>,
    c: nat,
    ev: Map<NodeID, Map<NodeID, usize>>,
    rv: Map<NodeID, Map<NodeID, usize>>,
    k: nat,
)
    requires
        c == graph_crossings(os, ev),
    ensures
        graph_crossings(iter_rounds(ord, os, c, ev, rv, k), ev) <= c,
    decreases k,
{
    if k > 0 {
        let (os1, c1) = iter_round(ord, os, c, ev, rv);
        assert(c1 == graph_crossings(os1, ev) && c1 <= c);
        if c1 != c {
            lemma_iter_rounds_crossings(ord, os1, c1, ev, rv, (k - 1) as nat);
        }
    }
}

/// The iterative ordering sweeps both ways: with at least one round, it ends with no more
/// crossings than the layers it starts from, than the downward sweep over them, and than the
/// upward sweep over whichever of the two has fewer crossings (the start on a tie going down).
pub proof fn law_iterative_sweeps_both_ways<L: LayerOrderer>(
    ord: L,
    os: Seq<Map<NodeID, usize>>,
    ev: Map<NodeID, Map<NodeID, usize>>,
    rv: Map<NodeID, Map<NodeID, usize>>,
    k: nat,
)
    requires
        k >= 1,
    ensures
        graph_crossings(iterative(ord, os, ev, rv, k), ev) <= graph_crossings(os, ev),
        graph_crossings(iterative(ord, os, ev, rv, k), ev) <= graph_crossings(oneway(ord, os, rv), ev),
        graph_crossings(oneway(ord, os, rv), ev) <= graph_crossings(os, ev) ==>
            graph_crossings(iterative(ord, os, ev, rv, k), ev)
                <= graph_crossings(oneway(ord, oneway(ord, os, rv).reverse(), ev).reverse(), ev),
        graph_crossings(oneway(ord, os, rv), ev) > graph_crossings(os, ev) ==>
            graph_crossings(iterative(ord, os, ev, rv, k), ev)
                <= graph_crossings(oneway(ord, os.reverse(), ev).reverse(), ev),
{
    let c = graph_crossings(os, ev);
    let (os1, c1) = iter_round(ord, os, c, ev, rv);
    assert(c1 == graph_crossings(os1, ev));
    if c1 != c {
        lemma_iter_rounds_crossings(ord, os1, c1, ev, rv, (k - 1) as nat);
    }
}

/// Alternates downward and upward sweeps, keeping a sweep only where it does not add
/// crossings, until a round changes nothing or `max_iterations` rounds are done.
pub fn apply_barycenter_iterative<L: LayerOrderer>(
    orders: &Vec<Order>,
    edges: &EdgeMap,
    reversed_edges: &EdgeMap,
    ordering: &L,
    max_iterations: usize,
) -> (out: Vec<Order>)
    requires
        all_orders(orders_view(orders@)),
        orderer_safe(*ordering, layer_doms(orders_view(orders@)), edge_view(edges@), edge_view(reversed_edges@)),
        graph_safe(layer_doms(orders_view(orders@)), edge_view(edges@)),
    ensures
        orders_view(out@) == iterative(*ordering, orders_view(orders@), edge_view(edges@),
            edge_view(reversed_edges@), max_iterations as nat),
        arrangements(orders_view(out@), layer_doms(orders_view(orders@))),
        graph_crossings(orders_view(out@), edge_view(edges@)) <= graph_crossings(orders_view(orders@), edge_view(edges@)),
{
    let ghost os = orders_view(orders@);
    let ghost ev = edge_view(edges@);
    let ghost rv = edge_view(reversed_edges@);
    let ghost doms = layer_doms(os);
    let ghost total = iterative(*ordering, os, ev, rv, max_iterations as nat);
    let mut cur = clone_layers(orders);
    proof {
        assert(arrangements(os, doms));
    }
    let mut crossings = count_graph_crossings(&cur, edges);
    let mut i: usize = 0;
    while i < max_iterations
        invariant_except_break
            total == iter_rounds(*ordering, orders_view(cur@), crossings as nat, ev, rv, (max_iterations - i) as nat),
        invariant
            os == orders_view(orders@),
            ev == edge_view(edges@),
            rv == edge_view(reversed_edges@),
            doms == layer_doms(os),
            orderer_safe(*ordering, doms, ev, rv),
            graph_safe(doms, ev),
            i <= max_iterations,
            arrangements(orders_view(cur@), doms),
            crossings == graph_crossings(orders_view(cur@), ev),
            crossings <= graph_crossings(os, ev),
        ensures
            total == orders_view(cur@),
        decreases max_iterations - i,
    {
        let ghost c0 = orders_view(cur@);
        let old_crossings = crossings;
        proof {
            lemma_arrangements_doms(c0, doms);
        }
        let down = apply_barycenters_oneway(&cur, reversed_edges, edges, ordering);
        proof {
            lemma_arrangements_doms(orders_view(down@), doms);
        }
        let new_crossings = count_graph_crossings(&down, edges);
        if new_crossings <= crossings {
            crossings = new_crossings;
            cur = down;
        }
        let ghost c1 = orders_view(cur@);
        let rev = reverse_layers(&cur);
        proof {
            lemma_arrangements_doms(c1, doms);
            assert(layer_doms(orders_view(rev@)) =~= doms.reverse());
            assert(all_orders(orders_view(rev@)));
        }
        let up_rev = apply_barycenters_oneway(&rev, edges, reversed_edges, ordering);
        let up = reverse_layers(&up_rev);
        proof {
            lemma_oneway_len(*ordering, c1.reverse(), ev);
            assert forall|j: int| 0 <= j < up.len() implies arrangement(#[trigger] orders_view(up@)[j], doms[j]) by {
                let k = up.len() - 1 - j;
                assert(orders_view(up@)[j] == orders_view(up_rev@)[k]);
                assert(arrangement(orders_view(up_rev@)[k], doms.reverse()[k]));
            }
            assert(arrangements(orders_view(up@), doms));
        }
        let up_crossings = count_graph_crossings(&up, edges);
        if up_crossings <= crossings {
            crossings = up_crossings;
            cur = up;
        }
        proof {
            assert((orders_view(cur@), crossings as nat) == iter_round(*ordering, c0, old_crossings as nat, ev, rv));
        }
        if old_crossings == crossings {
            break;
        }
        i = i + 1;
    }
    cur
}

/// The downward part of `reverse_equal_nodes` after `i` steps: step `j` reverses the groups of
/// layer `j` that the orderer finds equal over layer `j + 1`, and stops the pass if layer
/// `j + 1` is then no longer sorted. Gives the layers and whether the pass stopped.
pub open spec fn forward_reversal<L: LayerOrderer>(
    ord: L,
    os: Seq<Map<NodeID, usize>>,
    ev: Map<NodeID, Map<NodeID, usize>>,
    rv: Map<NodeID, Map<NodeID, usize>>,
    i: int,
) -> (Seq<Map<NodeID, usize>>, bool)
    decreases i,
{
    if i <= 0 {
        (os, false)
    } else {
        let (out, stop) = forward_reversal(ord, os, ev, rv, i - 1);
        if stop {
            (out, true)
        } else {
            let j = i - 1;
            let out2 = out.update(j, reversed_groups(ord.equal_groups_spec(os[j], os[j + 1], ev), os[j]));
            (out2, !ord.sorted_spec(os[j + 1], out2[j], rv))
        }
    }
}

/// The upward part of `reverse_equal_nodes` after `t` steps, starting from `start`: step `s`
/// reverses the groups of layer `len - 1 - s` that the orderer finds equal over the layer
/// above, and stops the pass if the layer above is then no longer sorted.
pub open spec fn backward_reversal<L: LayerOrderer>(
    ord: L,
    os: Seq<Map<NodeID, usize>>,
    ev: Map<NodeID, Map<NodeID, usize>>,
    rv: Map<NodeID, Map<NodeID, usize>>,
    start: Seq<Map<NodeID, usize>>,
    t: int,
) -> (Seq<Map<NodeID, usize>>, bool)
    decreases t,
{
    if t <= 0 {
        (start, false)
    } else {
        let (out, stop) = backward_reversal(ord, os, ev, rv, start, t - 1);
        if stop {
            (out, true)
        } else {
            let i = os.len() - t;
            let out2 = out.update(i, reversed_groups(ord.equal_groups_spec(os[i], os[i - 1], rv), os[i]));
            (out2, !ord.sorted_spec(os[i - 1], out2[i], ev))
        }
    }
}

/// What `reverse_equal_nodes` returns: the layers as they stand when a pass first leaves a
/// layer unsorted, or `None` if neither pass does.
pub open spec fn reversal_result<L: LayerOrderer>(
    ord: L,
    os: Seq<Map<NodeID, usize>>,
    ev: Map<NodeID, Map<NodeID, usize>>,
    rv: Map<NodeID, Map<NodeID, usize>>,
) -> Option<Seq<Map<NodeID, usize>>> {
    if os.len() == 0 {
        None
    } else {
        let (f, stop) = forward_reversal(ord, os, ev, rv, os.len() - 1);
        if stop {
            Some(f)
        } else {
            let (b, stop2) = backward_reversal(ord, os, ev, rv, f, os.len() - 1);
            if stop2 { Some(b) } else { None }
        }
    }
}

proof fn lemma_forward_stopped<L: LayerOrderer>(
    ord: L,
    os: Seq<Map<NodeID, usize>>,
    ev: Map<NodeID, Map<NodeID, usize>>,
    rv: Map<NodeID, Map<NodeID, usize>>,
    i: int,
    j: int,
)
    requires
        0 <= i <= j,
        forward_reversal(ord, os, ev, rv, i).1,
    ensures
        forward_reversal(ord, os, ev, rv, j) == forward_reversal(ord, os, ev, rv, i),
    decreases j - i,
{
    if j > i {
        lemma_forward_stopped(ord, os, ev, rv, i, j - 1);
    }
}

proof fn lemma_backward_stopped<L: LayerOrderer>(
    ord: L,
    os: Seq<Map<NodeID, usize>>,
    ev: Map<NodeID, Map<NodeID, usize>>,
    rv: Map<NodeID, Map<NodeID, usize>>,
    start: Seq<Map<NodeID, usize>>,
    i: int,
    j: int,
)
    requires
        0 <= i <= j,
        backward_reversal(ord, os, ev, rv, start, i).1,
    ensures
        backward_reversal(ord, os, ev, rv, start, j) == backward_reversal(ord, os, ev, rv, start, i),
    decreases j - i,
{
    if j > i {
        lemma_backward_stopped(ord, os, ev, rv, start, i, j - 1);
    }
}

/// Reverses the groups of nodes that the orderer finds equal, layer by layer, first
/// downwards and then upwards, and returns the layers as soon as a reversal leaves the
/// neighbouring layer unsorted; `None` if no reversal does.
pub fn reverse_equal_nodes<L: LayerOrderer>(
    orders: &Vec<Order>,
    edges: &EdgeMap,
    reversed_edges: &EdgeMap,
    ordering: &L,
) -> (out: Option<Vec<Order>>)
    requires
        all_orders(orders_view(orders@)),
        orderer_safe(*ordering, layer_doms(orders_view(orders@)), edge_view(edges@), edge_view(reversed_edges@)),
    ensures
        out.is_some() == reversal_result(*ordering, orders_view(orders@), edge_view(edges@), edge_view(reversed_edges@)).is_some(),
        out.is_some() ==> orders_view(out.unwrap()@) == reversal_result(*ordering, orders_view(orders@),
            edge_view(edges@), edge_view(reversed_edges@)).unwrap(),
        out.is_some() ==> arrangements(orders_view(out.unwrap()@), layer_doms(orders_view(orders@))),
{
    let ghost os = orders_view(orders@);
    let ghost ev = edge_view(edges@);
    let ghost rv = edge_view(reversed_edges@);
    let ghost doms = layer_doms(os);
    if orders.len() == 0 {
        return None;
    }
    let len = orders.len();
    let mut out = clone_layers(orders);
    let mut i: usize = 0;
    while i + 1 < len
        invariant
            os == orders_view(orders@),
            ev == edge_view(edges@),
            rv == edge_view(reversed_edges@),
            doms == layer_doms(os),
            len == orders.len(),
            len >= 1,
            all_orders(os),
            orderer_safe(*ordering, doms, ev, rv),
            i + 1 <= len,
            out.len() == len,
            (orders_view(out@), false) == forward_reversal(*ordering, os, ev, rv, i as int),
            arrangements(orders_view(out@), doms),
        decreases len - i,
    {
        proof {
            let rd = doms.reverse();
            let k = len - 1 - i;
            assert(pair_accepts(*ordering, rd[k], rd[k - 1], ev));
            assert(arrangement(os[i as int], doms[i as int]));
            assert(arrangement(os[i + 1], doms[i + 1]));
            assert(ordering.accepts(os[i as int], os[i + 1], ev));
        }
        let equal_groups = ordering.get_equal_groups(&orders[i], &orders[i + 1], edges);
        let new_prev_layer = reverse_groups(equal_groups, &orders[i]);
        let ghost before = orders_view(out@);
        out.set(i, new_prev_layer);
        proof {
            assert(orders_view(out@) =~= before.update(i as int, out@[i as int]@));
            assert(arrangement(out@[i as int]@, doms[i as int]));
            assert(arrangements(orders_view(out@), doms));
            let k = i + 1;
            assert(pair_accepts(*ordering, doms[k], doms[k - 1], rv));
            assert(ordering.accepts(os[i + 1], out@[i as int]@, rv));
        }
        let sorted = ordering.is_sorted(&orders[i + 1], &out[i], reversed_edges);
        if !sorted {
            proof {
                lemma_forward_stopped(*ordering, os, ev, rv, i + 1, len - 1);
            }
            return Some(out);
        }
        i = i + 1;
    }
    let ghost f = orders_view(out@);
    let mut j: usize = len - 1;
    while j > 0
        invariant
            os == orders_view(orders@),
            ev == edge_view(edges@),
            rv == edge_view(reversed_edges@),
            doms == layer_doms(os),
            len == orders.len(),
            len >= 1,
            all_orders(os),
            orderer_safe(*ordering, doms, ev, rv),
            (f, false) == forward_reversal(*ordering, os, ev, rv, len - 1),
            j <= len - 1,
            out.len() == len,
            (orders_view(out@), false) == backward_reversal(*ordering, os, ev, rv, f, len - 1 - j),
            arrangements(orders_view(out@), doms),
        decreases j,
    {
        proof {
            assert(pair_accepts(*ordering, doms[j as int], doms[j - 1], rv));
            assert(arrangement(os[j as int], doms[j as int]));
            assert(arrangement(os[j - 1], doms[j - 1]));
            assert(ordering.accepts(os[j as int], os[j - 1], rv));
        }
        let equal_groups = ordering.get_equal_groups(&orders[j], &orders[j - 1], reversed_edges);
        let new_prev_layer = reverse_groups(equal_groups, &orders[j]);
        let ghost before = orders_view(out@);
        out.set(j, new_prev_layer);
        proof {
            assert(orders_view(out@) =~= before.update(j as int, out@[j as int]@));
            assert(arrangement(out@[j as int]@, doms[j as int]));
            assert(arrangements(orders_view(out@), doms));
            let rd = doms.reverse();
            let k = len - j;
            assert(pair_accepts(*ordering, rd[k], rd[k - 1], ev));
            assert(ordering.accepts(os[j - 1], out@[j as int]@, ev));
            assert(os.len() - (len - j) == j);
        }
        let sorted = ordering.is_sorted(&orders[j - 1], &out[j], edges);
        if !sorted {
            proof {
                lemma_backward_stopped(*ordering, os, ev, rv, f, len - j, len - 1);
            }
            return Some(out);
        }
        j = j - 1;
    }
    None
}

/// The rounds of the second phase from round `t` on: the iterative ordering, then, unless it
/// was the last round, the reversal of equal nodes, which ends the phase if it changes nothing.
pub open spec fn phase2_rounds<L: LayerOrderer>(
    ord: L,
    os: Seq<Map<NodeID, usize>>,
    ev: Map<NodeID, Map<NodeID, usize>>,
    rv: Map<NodeID, Map<NodeID, usize>>,
    p1: nat,
    t: nat,
    max2: nat,
) -> Seq<Map<NodeID, usize>>
    decreases max2 - t,
{
    if t >= max2 {
        os
    } else {
        let it = iterative(ord, os, ev, rv, p1);
        if t + 1 == max2 {
            it
        } else {
            match reversal_result(ord, it, ev, rv) {
                Some(n) => phase2_rounds(ord, n, ev, rv, p1, t + 1, max2),
                None => it,
            }
        }
    }
}

/// The result of the hierarchical barycenter ordering: the second phase, followed by a final
/// downward sweep that is kept only if it does not add crossings.
pub open spec fn hierarchical_order<L: LayerOrderer>(
    ord: L,
    os: Seq<Map<NodeID, usize>>,
    ev: Map<NodeID, Map<NodeID, usize>>,
    p1: nat,
    p2: nat,
) -> Seq<Map<NodeID, usize>> {
    let rv = swapped(ev);
    let mid = phase2_rounds(ord, os, ev, rv, p1, 0, p2);
    let fin = oneway(ord, mid, rv);
    if graph_crossings(fin, ev) <= graph_crossings(mid, ev) { fin } else { mid }
}

/// Orders all layers: up to `max_phase2_iterations` rounds of the iterative ordering (with at
/// most `max_phase1_iterations` sweeps each) alternated with reversals of equal nodes, then
/// a final downward sweep if it does not add crossings.
pub fn hierarchical_barycenter_order<L: LayerOrderer>(
    orders: &Vec<Order>,
    edges: &EdgeMap,
    ordering: &L,
    max_phase1_iterations: usize,
    max_phase2_iterations: usize,
) -> (out: Vec<Order>)
    requires
        all_orders(orders_view(orders@)),
        orderer_safe(*ordering, layer_doms(orders_view(orders@)), edge_view(edges@), swapped(edge_view(edges@))),
        graph_safe(layer_doms(orders_view(orders@)), edge_view(edges@)),
    ensures
        orders_view(out@) == hierarchical_order(*ordering, orders_view(orders@), edge_view(edges@),
            max_phase1_iterations as nat, max_phase2_iterations as nat),
        arrangements(orders_view(out@), layer_doms(orders_view(orders@))),
        graph_crossings(orders_view(out@), edge_view(edges@)) <= graph_crossings(phase2_rounds(*ordering, orders_view(orders@),
            edge_view(edges@), swapped(edge_view(edges@)), max_phase1_iterations as nat, 0, max_phase2_iterations as nat), edge_view(edges@)),
{
    let ghost os = orders_view(orders@);
    let ghost ev = edge_view(edges@);
    let ghost doms = layer_doms(os);
    let reversed_edges = swap_edges(edges);
    let ghost rv = edge_view(reversed_edges@);
    let ghost mid = phase2_rounds(*ordering, os, ev, rv, max_phase1_iterations as nat, 0, max_phase2_iterations as nat);
    let mut cur = clone_layers(orders);
    proof {
        assert(arrangements(os, doms));
    }
    let mut t: usize = 0;
    while t < max_phase2_iterations
        invariant_except_break
            mid == phase2_rounds(*ordering, orders_view(cur@), ev, rv, max_phase1_iterations as nat, t as nat,
                max_phase2_iterations as nat),
        invariant
            os == orders_view(orders@),
            ev == edge_view(edges@),
            rv == swapped(ev),
            rv == edge_view(reversed_edges@),
            doms == layer_doms(os),
            orderer_safe(*ordering, doms, ev, rv),
            graph_safe(doms, ev),
            t <= max_phase2_iterations,
            arrangements(orders_view(cur@), doms),
        ensures
            mid == orders_view(cur@),
        decreases max_phase2_iterations - t,
    {
        proof {
            lemma_arrangements_doms(orders_view(cur@), doms);
        }
        cur = apply_barycenter_iterative(&cur, edges, &reversed_edges, ordering, max_phase1_iterations);
        if t == max_phase2_iterations - 1 {
            break;
        }
        proof {
            lemma_arrangements_doms(orders_view(cur@), doms);
        }
        match reverse_equal_nodes(&cur, edges, &reversed_edges, ordering) {
            Some(new_orders) => {
                cur = new_orders;
            },
            None => {
                break;
            },
        }
        t = t + 1;
    }
    proof {
        lemma_arrangements_doms(orders_view(cur@), doms);
    }
    let old_crossings = count_graph_crossings(&cur, edges);
    let new_orders = apply_barycenters_oneway(&cur, &reversed_edges, edges, ordering);
    proof {
        lemma_arrangements_doms(orders_view(new_orders@), doms);
    }
    let new_crossings = count_graph_crossings(&new_orders, edges);
    if new_crossings <= old_crossings {
        new_orders
    } else {
        cur
    }
}

/// Layer ordering by repeated barycenter sweeps (the Sugiyama method) with a configurable
/// orderer for single layers.
pub struct SugiyamaOrdering<L: LayerOrderer> {
    layer_order: L,
    max_phase1_iterations: usize,
    max_phase2_iterations: usize,
}

impl SugiyamaOrdering<BarycenterOrdering> {
    /// The Sugiyama ordering with the barycenter orderer.
    pub fn new(max_phase1_iterations: usize, max_phase2_iterations: usize) -> (out: SugiyamaOrdering<BarycenterOrdering>)
        ensures
            out.orderer() == BarycenterOrdering,
            out.phase1() == max_phase1_iterations,
            out.phase2() == max_phase2_iterations,
    {
        SugiyamaOrdering { layer_order: BarycenterOrdering, max_phase1_iterations, max_phase2_iterations }
    }
}

impl<L: LayerOrderer> SugiyamaOrdering<L> {
    /// The orderer for single layers.
    pub closed spec fn orderer(&self) -> L {
        self.layer_order
    }

    /// The maximum number of sweeps per round.
    pub closed spec fn phase1(&self) -> usize {
        self.max_phase1_iterations
    }

    /// The maximum number of rounds.
    pub closed spec fn phase2(&self) -> usize {
        self.max_phase2_iterations
    }

    /// The Sugiyama ordering with the given orderer for single layers.
    pub fn new_custom(layer_order: L, max_phase1_iterations: usize, max_phase2_iterations: usize) -> (out: Self)
        ensures
            out.orderer() == layer_order,
            out.phase1() == max_phase1_iterations,
            out.phase2() == max_phase2_iterations,
    {
        SugiyamaOrdering { layer_order, max_phase1_iterations, max_phase2_iterations }
    }
}

impl<L: LayerOrderer> LayerOrdering for SugiyamaOrdering<L> {
    open spec fn accepts_layers(&self, doms: Seq<Set<NodeID>>, ev: Map<NodeID, Map<NodeID, usize>>) -> bool {
        orderer_safe(self.orderer(), doms, ev, swapped(ev)) && graph_safe(doms, ev)
    }

    open spec fn ordered_to(
        &self,
        ls: Seq<Map<NodeID, usize>>,
        ev: Map<NodeID, Map<NodeID, usize>>,
        group_start: NodeID,
        edge_start: NodeID,
        owners: Map<NodeID, NodeID>,
        out: Seq<Map<NodeID, usize>>,
    ) -> bool {
        out == hierarchical_order(self.orderer(), ls, ev, self.phase1() as nat, self.phase2() as nat)
    }

    /// Orders the nodes of all layers. The dummy node bounds and owners are not used by this
    /// ordering.
    fn order_nodes(
        &self,
        layers: &Vec<Order>,
        edges: &EdgeMap,
        dummy_group_start_id: NodeID,
        dummy_edge_start_id: NodeID,
        owners: &HashMap<NodeID, NodeID>,
    ) -> (out: Vec<Order>)
        ensures
            orders_view(out@) == hierarchical_order(self.orderer(), orders_view(layers@), edge_view(edges@),
                self.phase1() as nat, self.phase2() as nat),
    {
        hierarchical_barycenter_order(
            layers,
            edges,
            &self.layer_order,
            self.max_phase1_iterations,
            self.max_phase2_iterations,
        )
    }
}

} // verus!
