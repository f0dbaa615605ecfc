use std::collections::{HashMap, HashSet};
use vstd::prelude::*;
use crate::layer_orderer::{
    NodeID, Order, EdgeMap, OrderedEdgeMap, is_order, edge_view, edge_rows, map_entries, lists_map,
    orders_view, all_orders, ordered_view, order_seq, lemma_order_seq,
};
use crate::layered_layout::{is_group_dummy, is_edge_dummy, group_dummy, edge_dummy};

verus! {

broadcast use vstd::std_specs::hash::group_hash_axioms;

/// Node positioning after Brandes and Köpf, corrected for groups of nodes spanning layers.
/// Its coordinates are computed outside of the verified library; what is verified are the
/// integer steps that decide which nodes line up.
pub struct BrandesKopfPositioningCorrected;

/// The owner of `n`, if it has one.
pub open spec fn owner_of(owners: Map<NodeID, NodeID>, n: NodeID) -> Option<NodeID> {
    if owners.contains_key(n) { Some(owners[n]) } else { None }
}

/// `node` is a node of a group that continues into the next layer: it has an owner and an
/// edge to a node with the same owner.
pub open spec fn continues_group(ev: Map<NodeID, Map<NodeID, usize>>, owners: Map<NodeID, NodeID>, node: NodeID) -> bool {
    owners.contains_key(node) && exists|to: NodeID| #[trigger] ev[node].contains_key(to) && owner_of(owners, to) == Some(owners[node])
}

/// The edges kept by `remove_internal_group_to_other_edges`: a node of a group that continues
/// keeps only its edges within the group; any other node keeps its edges to nodes that are
/// not group dummies.
pub open spec fn group_edges_kept(
    ev: Map<NodeID, Map<NodeID, usize>>,
    owners: Map<NodeID, NodeID>,
    dummy_group_start_id: NodeID,
    dummy_edge_start_id: NodeID,
) -> Map<NodeID, Map<NodeID, usize>> {
    Map::new(
        |n: NodeID| ev.contains_key(n),
        |n: NodeID| if continues_group(ev, owners, n) {
            Map::new(|to: NodeID| ev[n].contains_key(to) && owner_of(owners, to) == Some(owners[n]), |to: NodeID| ev[n][to])
        } else {
            Map::new(|to: NodeID| ev[n].contains_key(to) && !group_dummy(to, dummy_group_start_id, dummy_edge_start_id), |to: NodeID| ev[n][to])
        },
    )
}

/// The owner of a node, looked up.
fn get_owner(owners: &HashMap<NodeID, NodeID>, n: NodeID) -> (out: Option<NodeID>)
    ensures
        out == owner_of(owners@, n),
{
    match owners.get(&n) {
        Some(o) => Some(*o),
        None => None,
    }
}

/// Removes the edges between dummy group nodes and nodes of other groups, so that the
/// positioning lines the nodes of a group up.
pub fn remove_internal_group_to_other_edges(
    edges: &EdgeMap,
    dummy_owners: &HashMap<NodeID, NodeID>,
    dummy_group_start_id: NodeID,
    dummy_edge_start_id: NodeID,
) -> (out: EdgeMap)
    ensures
        edge_view(out@) == group_edges_kept(edge_view(edges@), dummy_owners@, dummy_group_start_id, dummy_edge_start_id),
{
    let ghost ev = edge_view(edges@);
    let ghost ow = dummy_owners@;
    let ghost target = group_edges_kept(ev, ow, dummy_group_start_id, dummy_edge_start_id);
    let rows = edge_rows(edges);
    let mut out: EdgeMap = HashMap::new();
    let mut r: usize = 0;
    while r < rows.len()
        invariant
            ev == edge_view(edges@),
            ow == dummy_owners@,
            target == group_edges_kept(ev, ow, dummy_group_start_id, dummy_edge_start_id),
            rows.len() == edges@.dom().len(),
            forall|i: int| 0 <= i < rows.len() ==> edges@.contains_key(#[trigger] rows@[i].0) && edges@[rows@[i].0]@ == rows@[i].1@,
            forall|i: int, j: int| 0 <= i < j < rows.len() ==> rows@[i].0 != rows@[j].0,
            r <= rows.len(),
            forall|n: NodeID| #[trigger] out@.contains_key(n) <==> exists|i: int| 0 <= i < r && rows@[i].0 == n,
            forall|i: int| 0 <= i < r ==> out@[#[trigger] rows@[i].0]@ == target[rows@[i].0],
        decreases rows.len() - r,
    {
        let node = rows[r].0;
        let entries = map_entries(&rows[r].1);
        let ghost row = ev[node];
        assert(row == rows@[r as int].1@);
        let own = get_owner(dummy_owners, node);
        let mut non_end = false;
        if own.is_some() {
            let mut k: usize = 0;
            while k < entries.len()
                invariant_except_break
                    !non_end,
                invariant
                    lists_map(entries@, row),
                    row == ev[node],
                    ev.contains_key(node),
                    ow == dummy_owners@,
                    own == owner_of(ow, node),
                    own is Some,
                    k <= entries.len(),
                    forall|j: int| 0 <= j < k ==> owner_of(ow, #[trigger] entries@[j].0) != own,
                ensures
                    non_end ==> continues_group(ev, ow, node),
                    !non_end ==> forall|j: int| 0 <= j < entries.len() ==> owner_of(ow, #[trigger] entries@[j].0) != own,
                decreases entries.len() - k,
            {
                let to = entries[k].0;
                if get_owner(dummy_owners, to) == own {
                    non_end = true;
                    proof {
                        assert(ev[node].contains_key(to));
                    }
                    break;
                }
                k = k + 1;
            }
            proof {
                if !non_end {
                    assert forall|to: NodeID| #[trigger] ev[node].contains_key(to) implies owner_of(ow, to) != Some(ow[node]) by {
                        let j = choose|j: int| 0 <= j < entries.len() && #[trigger] entries@[j].0 == to;
                        assert(owner_of(ow, entries@[j].0) != own);
                    }
                }
            }
        }
        let mut kept: HashMap<NodeID, usize> = HashMap::new();
        let mut k: usize = 0;
        while k < entries.len()
            invariant
                lists_map(entries@, row),
                ow == dummy_owners@,
                own == owner_of(ow, node),
                non_end == continues_group(ev, ow, node),
                k <= entries.len(),
                forall|to: NodeID| #[trigger] kept@.contains_key(to) ==> row.contains_key(to) && kept@[to] == row[to],
                forall|to: NodeID| #[trigger] kept@.contains_key(to) ==> exists|j: int| 0 <= j < k && entries@[j].0 == to,
                forall|j: int| 0 <= j < k ==> (kept@.contains_key(#[trigger] entries@[j].0) <==> (if non_end {
                    owner_of(ow, entries@[j].0) == Some(ow[node])
                } else {
                    !group_dummy(entries@[j].0, dummy_group_start_id, dummy_edge_start_id)
                })),
            decreases entries.len() - k,
        {
            let (to, weight) = entries[k];
            let keep = if non_end {
                get_owner(dummy_owners, to) == own
            } else {
                !is_group_dummy(to, dummy_group_start_id, dummy_edge_start_id)
            };
            if keep {
                kept.insert(to, weight);
            }
            proof {
                assert forall|j: int| 0 <= j < k + 1 implies (kept@.contains_key(#[trigger] entries@[j].0) <==> (if non_end {
                    owner_of(ow, entries@[j].0) == Some(ow[node])
                } else {
                    !group_dummy(entries@[j].0, dummy_group_start_id, dummy_edge_start_id)
                })) by {
                    if j < k {
                        assert(entries@[j].0 != to);
                    }
                }
            }
            k = k + 1;
        }
        proof {
            assert forall|to: NodeID| #[trigger] kept@.contains_key(to) <==> target[node].contains_key(to) by {
                if row.contains_key(to) {
                    let j = choose|j: int| 0 <= j < entries.len() && #[trigger] entries@[j].0 == to;
                }
                if kept@.contains_key(to) {
                    let j = choose|j: int| 0 <= j < k && entries@[j].0 == to;
                    assert(kept@.contains_key(entries@[j].0));
                }
            }
            assert(kept@ =~= target[node]);
        }
        out.insert(node, kept);
        proof {
            assert forall|i: int| 0 <= i < r + 1 implies out@[#[trigger] rows@[i].0]@ == target[rows@[i].0] by {
                if i < r {
                    assert(rows@[i].0 != rows@[r as int].0);
                }
            }
            assert forall|n: NodeID| #[trigger] out@.contains_key(n) <==> exists|i: int| 0 <= i < r + 1 && rows@[i].0 == n by {
                if n == node {
                    assert(rows@[r as int].0 == n);
                }
            }
        }
        r = r + 1;
    }
    proof {
        assert forall|n: NodeID| #[trigger] edge_view(out@).contains_key(n) <==> target.contains_key(n) by {
            if out@.contains_key(n) {
                let i = choose|i: int| 0 <= i < r && rows@[i].0 == n;
                assert(edges@.contains_key(rows@[i].0));
            }
            if edges@.contains_key(n) {
                assert(exists|i: int| 0 <= i < rows.len() && #[trigger] rows@[i].0 == n);
                let i = choose|i: int| 0 <= i < rows.len() && #[trigger] rows@[i].0 == n;
                assert(out@.contains_key(rows@[i].0));
            }
        }
        assert forall|n: NodeID| #[trigger] edge_view(out@).contains_key(n) implies edge_view(out@)[n] == target[n] by {
            let i = choose|i: int| 0 <= i < r && rows@[i].0 == n;
            assert(out@[rows@[i].0]@ == target[rows@[i].0]);
        }
        assert(edge_view(out@) =~= target);
    }
    out
}

/// The layer read from the other end: every position `i` becomes `len - 1 - i`.
pub open spec fn mirrored(m: Map<NodeID, usize>) -> Map<NodeID, usize> {
    Map::new(|n: NodeID| m.contains_key(n), |n: NodeID| (m.dom().len() - 1 - m[n]) as usize)
}

/// Mirroring a valid order gives a valid order of the same nodes, and mirroring it again
/// gives the order back.
pub proof fn law_mirrored(m: Map<NodeID, usize>)
    requires
        is_order(m),
    ensures
        is_order(mirrored(m)),
        mirrored(m).dom() == m.dom(),
        mirrored(mirrored(m)) == m,
{
    let r = mirrored(m);
    lemma_order_seq(m);
    if m.dom().len() > 0 {
        // The last position is held by a node, so it fits in a `usize`.
        let last = m.dom().len() - 1;
        assert(m.contains_key(order_seq(m)[last]));
        assert(m[order_seq(m)[last]] == last);
    }
    assert(r.dom() =~= m.dom());
    assert forall|k1: NodeID, k2: NodeID| r.contains_key(k1) && r.contains_key(k2) && #[trigger] r[k1] == #[trigger] r[k2] implies k1 == k2 by {
        assert(m[k1] < m.dom().len() && m[k2] < m.dom().len());
        assert(m[k1] == m[k2]);
    }
    assert forall|n: NodeID| #[trigger] m.contains_key(n) implies mirrored(r)[n] == m[n] by {
        assert(m[n] < m.dom().len());
    }
    assert(mirrored(r) =~= m);
}

/// Reading every layer from right to left twice gives the layers back.
pub proof fn law_reverse_layers_twice(ls: Seq<Map<NodeID, usize>>)
    requires
        all_orders(ls),
    ensures
        ls.map_values(|m: Map<NodeID, usize>| mirrored(m)).map_values(|m: Map<NodeID, usize>| mirrored(m)) == ls,
{
    let r = ls.map_values(|m: Map<NodeID, usize>| mirrored(m)).map_values(|m: Map<NodeID, usize>| mirrored(m));
    assert forall|i: int| 0 <= i < ls.len() implies r[i] == ls[i] by {
        law_mirrored(ls[i]);
    }
    assert(r =~= ls);
}

/// Every layer read from right to left.
pub fn get_reverse_layers(layers: &Vec<Order>) -> (out: Vec<Order>)
    requires
        all_orders(orders_view(layers@)),
    ensures
        orders_view(out@) == orders_view(layers@).map_values(|m: Map<NodeID, usize>| mirrored(m)),
{
    let mut out: Vec<Order> = Vec::new();
    let mut i: usize = 0;
    while i < layers.len()
        invariant
            all_orders(orders_view(layers@)),
            i <= layers.len(),
            out.len() == i,
            forall|j: int| 0 <= j < i ==> (#[trigger] out@[j])@ == mirrored(layers@[j]@),
        decreases layers.len() - i,
    {
        let layer = &layers[i];
        assert(is_order(orders_view(layers@)[i as int]));
        let len = layer.len();
        let entries = map_entries(layer);
        let mut rev: Order = HashMap::new();
        let mut k: usize = 0;
        while k < entries.len()
            invariant
                lists_map(entries@, layer@),
                is_order(layer@),
                len == layer@.dom().len(),
                k <= entries.len(),
                forall|n: NodeID| #[trigger] rev@.contains_key(n) ==> layer@.contains_key(n) && rev@[n] == mirrored(layer@)[n],
                forall|j: int| 0 <= j < k ==> rev@.contains_key(#[trigger] entries@[j].0),
            decreases entries.len() - k,
        {
            let (node, index) = entries[k];
            rev.insert(node, len - 1 - index);
            k = k + 1;
        }
        proof {
            assert forall|n: NodeID| #[trigger] rev@.contains_key(n) <==> layer@.contains_key(n) by {
                if layer@.contains_key(n) {
                    let j = choose|j: int| 0 <= j < entries.len() && #[trigger] entries@[j].0 == n;
                }
            }
            assert(rev@ =~= mirrored(layer@));
        }
        out.push(rev);
        i = i + 1;
    }
    proof {
        assert(orders_view(out@) =~= orders_view(layers@).map_values(|m: Map<NodeID, usize>| mirrored(m)));
    }
    out
}

/// Conflicting pairs (upper node, lower node) of edges, keyed by the upper node.
pub type ConflictMap = HashMap<NodeID, HashSet<NodeID>>;

/// The pairs held by a conflict map.
pub open spec fn conflict_view(m: Map<NodeID, HashSet<NodeID>>) -> Set<(NodeID, NodeID)> {
    Set::new(|p: (NodeID, NodeID)| m.contains_key(p.0) && m[p.0]@.contains(p.1))
}

/// Records the pair (`upper`, `lower`).
fn add_conflict(conflicts: &mut ConflictMap, upper: NodeID, lower: NodeID)
    ensures
        conflict_view(final(conflicts)@) == conflict_view(old(conflicts)@).insert((upper, lower)),
{
    let mut set = match conflicts.remove(&upper) {
        Some(s) => s,
        None => HashSet::new(),
    };
    set.insert(lower);
    conflicts.insert(upper, set);
    proof {
        assert(conflict_view(final(conflicts)@) =~= conflict_view(old(conflicts)@).insert((upper, lower)));
    }
}

/// Whether the pair (`upper`, `lower`) is recorded.
fn has_conflict(conflicts: &ConflictMap, upper: NodeID, lower: NodeID) -> (out: bool)
    ensures
        out == conflict_view(conflicts@).contains((upper, lower)),
{
    match conflicts.get(&upper) {
        Some(set) => set.contains(&lower),
        None => false,
    }
}

/// The node's edge from the layer above is part of an inner segment (both ends are edge
/// dummies), of a group, or the only edge at both of its ends.
pub open spec fn segment_node(
    fwd: Map<NodeID, Seq<NodeID>>,
    rev: Map<NodeID, Seq<NodeID>>,
    des: NodeID,
    owners: Map<NodeID, NodeID>,
    node: NodeID,
) -> bool {
    ||| (edge_dummy(node, des) && rev.contains_key(node) && exists|j: int| 0 <= j < rev[node].len() && edge_dummy(#[trigger] rev[node][j], des))
    ||| (owners.contains_key(node) && rev.contains_key(node) && exists|j: int| 0 <= j < rev[node].len() && owner_of(owners, #[trigger] rev[node][j]) == Some(owners[node]))
    ||| (rev.contains_key(node) && rev[node].len() == 1 && fwd.contains_key(rev[node][0]) && fwd[rev[node][0]].len() == 1)
}

/// Position `x` of the lower layer `l` closes a stretch: it is the last position or holds a
/// segment node.
pub open spec fn marker(l: Seq<NodeID>, fwd: Map<NodeID, Seq<NodeID>>, rev: Map<NodeID, Seq<NodeID>>, des: NodeID, owners: Map<NodeID, NodeID>, x: int) -> bool {
    x == l.len() - 1 || segment_node(fwd, rev, des, owners, l[x])
}

/// The position in the upper layer `p` that the stretch closed at `x` ends at: that of the
/// segment's upper node, or the last position.
pub open spec fn closing_pos(p: Map<NodeID, usize>, l: Seq<NodeID>, fwd: Map<NodeID, Seq<NodeID>>, rev: Map<NodeID, Seq<NodeID>>, des: NodeID, owners: Map<NodeID, NodeID>, x: int) -> int {
    if segment_node(fwd, rev, des, owners, l[x]) { p[rev[l[x]].last()] as int } else { p.dom().len() - 1 }
}

/// The first position from `x` on that closes a stretch.
pub open spec fn next_marker(l: Seq<NodeID>, fwd: Map<NodeID, Seq<NodeID>>, rev: Map<NodeID, Seq<NodeID>>, des: NodeID, owners: Map<NodeID, NodeID>, x: int) -> int
    decreases l.len() - x,
{
    if x >= l.len() || x < 0 {
        l.len() as int
    } else if marker(l, fwd, rev, des, owners, x) {
        x
    } else {
        next_marker(l, fwd, rev, des, owners, x + 1)
    }
}

/// The upper position at which the last stretch closed before `x` ends (0 if none did).
pub open spec fn opening_pos(p: Map<NodeID, usize>, l: Seq<NodeID>, fwd: Map<NodeID, Seq<NodeID>>, rev: Map<NodeID, Seq<NodeID>>, des: NodeID, owners: Map<NodeID, NodeID>, x: int) -> int
    decreases x,
{
    if x <= 0 {
        0
    } else if marker(l, fwd, rev, des, owners, x - 1) {
        closing_pos(p, l, fwd, rev, des, owners, x - 1)
    } else {
        opening_pos(p, l, fwd, rev, des, owners, x - 1)
    }
}

/// The edges from the upper layer `p` into the node at position `x` of the lower layer `l`
/// that cross a segment: their upper end lies before the opening or after the closing
/// position of the node's stretch.
pub open spec fn node_conflicts(p: Map<NodeID, usize>, l: Seq<NodeID>, fwd: Map<NodeID, Seq<NodeID>>, rev: Map<NodeID, Seq<NodeID>>, des: NodeID, owners: Map<NodeID, NodeID>, x: int) -> Set<(NodeID, NodeID)> {
    let m = next_marker(l, fwd, rev, des, owners, x);
    Set::new(|e: (NodeID, NodeID)| {
        &&& e.1 == l[x]
        &&& rev.contains_key(l[x])
        &&& rev[l[x]].contains(e.0)
        &&& (p[e.0] < opening_pos(p, l, fwd, rev, des, owners, m) || closing_pos(p, l, fwd, rev, des, owners, m) < p[e.0])
    })
}

/// The conflicts of the nodes at positions `0..x` of the lower layer.
pub open spec fn conflicts_upto(p: Map<NodeID, usize>, l: Seq<NodeID>, fwd: Map<NodeID, Seq<NodeID>>, rev: Map<NodeID, Seq<NodeID>>, des: NodeID, owners: Map<NodeID, NodeID>, x: int) -> Set<(NodeID, NodeID)>
    decreases x,
{
    if x <= 0 {
        Set::empty()
    } else {
        conflicts_upto(p, l, fwd, rev, des, owners, x - 1).union(node_conflicts(p, l, fwd, rev, des, owners, x - 1))
    }
}

/// The conflicts between the layers `i` and `i + 1`.
pub open spec fn layer_conflicts(layers: Seq<Map<NodeID, usize>>, fwd: Map<NodeID, Seq<NodeID>>, rev: Map<NodeID, Seq<NodeID>>, des: NodeID, owners: Map<NodeID, NodeID>, i: int) -> Set<(NodeID, NodeID)> {
    let p = layers[i];
    let l = order_seq(layers[i + 1]);
    if p.dom().len() == 0 { Set::empty() } else { conflicts_upto(p, l, fwd, rev, des, owners, l.len() as int) }
}

/// The conflicts between the layer pairs `(i, i + 1)` for `1 <= i < c`.
pub open spec fn conflicts_before(layers: Seq<Map<NodeID, usize>>, fwd: Map<NodeID, Seq<NodeID>>, rev: Map<NodeID, Seq<NodeID>>, des: NodeID, owners: Map<NodeID, NodeID>, c: int) -> Set<(NodeID, NodeID)>
    decreases c,
{
    if c <= 1 {
        Set::empty()
    } else {
        conflicts_before(layers, fwd, rev, des, owners, c - 1).union(layer_conflicts(layers, fwd, rev, des, owners, c - 1))
    }
}

/// The inner layer pairs: `(i, i + 1)` for `1 <= i < max(len, 2) - 2`.
pub open spec fn inner_pairs_end(len: int) -> int {
    if len < 2 { 0 } else { len - 2 }
}

/// The type 1 conflicts: edges that cross a segment, between the inner layer pairs.
pub open spec fn type1_conflicts(layers: Seq<Map<NodeID, usize>>, fwd: Map<NodeID, Seq<NodeID>>, rev: Map<NodeID, Seq<NodeID>>, des: NodeID, owners: Map<NodeID, NodeID>) -> Set<(NodeID, NodeID)> {
    conflicts_before(layers, fwd, rev, des, owners, inner_pairs_end(layers.len() as int))
}

/// Every inner lower layer's upper neighbours lie in the layer above (where that is not
/// empty), and every segment node has exactly one upper neighbour.
pub open spec fn type1_safe(layers: Seq<Map<NodeID, usize>>, fwd: Map<NodeID, Seq<NodeID>>, rev: Map<NodeID, Seq<NodeID>>, des: NodeID, owners: Map<NodeID, NodeID>) -> bool {
    forall|i: int, n: NodeID| 1 <= i < inner_pairs_end(layers.len() as int) && layers[i].dom().len() > 0 && #[trigger] layers[i + 1].contains_key(n) ==> {
        &&& (rev.contains_key(n) ==> forall|j: int| 0 <= j < rev[n].len() ==> layers[i].contains_key(#[trigger] rev[n][j]))
        &&& (segment_node(fwd, rev, des, owners, n) ==> rev[n].len() == 1)
    }
}

/// Whether the node's edge from the layer above is a segment edge (see `segment_node`).
fn is_segment_node(
    forward_edges: &OrderedEdgeMap,
    reverse_edges: &OrderedEdgeMap,
    dummy_edge_start_id: NodeID,
    owners: &HashMap<NodeID, NodeID>,
    node: NodeID,
) -> (out: bool)
    ensures
        out == segment_node(ordered_view(forward_edges@), ordered_view(reverse_edges@), dummy_edge_start_id, owners@, node),
{
    let ghost fwd = ordered_view(forward_edges@);
    let ghost rev = ordered_view(reverse_edges@);
    let tos = match reverse_edges.get(&node) {
        Some(t) => t,
        None => {
            return false;
        },
    };
    assert(tos@ == rev[node]);
    let mut inner = false;
    if is_edge_dummy(node, dummy_edge_start_id) {
        let mut j: usize = 0;
        while j < tos.len()
            invariant_except_break
                !inner,
            invariant
                j <= tos.len(),
                forall|q: int| 0 <= q < j ==> !edge_dummy(#[trigger] tos@[q], dummy_edge_start_id),
            ensures
                inner ==> exists|q: int| 0 <= q < tos.len() && edge_dummy(#[trigger] tos@[q], dummy_edge_start_id),
                !inner ==> forall|q: int| 0 <= q < tos.len() ==> !edge_dummy(#[trigger] tos@[q], dummy_edge_start_id),
            decreases tos.len() - j,
        {
            if is_edge_dummy(tos[j], dummy_edge_start_id) {
                inner = true;
                assert(edge_dummy(tos@[j as int], dummy_edge_start_id));
                break;
            }
            j = j + 1;
        }
    }
    let own = get_owner(owners, node);
    let mut group = false;
    if own.is_some() {
        let mut j: usize = 0;
        while j < tos.len()
            invariant_except_break
                !group,
            invariant
                j <= tos.len(),
                own == owner_of(owners@, node),
                own is Some,
                forall|q: int| 0 <= q < j ==> owner_of(owners@, #[trigger] tos@[q]) != own,
            ensures
                group ==> exists|q: int| 0 <= q < tos.len() && owner_of(owners@, #[trigger] tos@[q]) == own,
                !group ==> forall|q: int| 0 <= q < tos.len() ==> owner_of(owners@, #[trigger] tos@[q]) != own,
            decreases tos.len() - j,
        {
            if get_owner(owners, tos[j]) == own {
                group = true;
                assert(owner_of(owners@, tos@[j as int]) == own);
                break;
            }
            j = j + 1;
        }
    }
    let straight = if tos.len() != 1 {
        false
    } else {
        match forward_edges.get(&tos[0]) {
            Some(from) => from.len() == 1,
            None => false,
        }
    };
    inner || group || straight
}

proof fn lemma_no_marker_between(
    p: Map<NodeID, usize>,
    l: Seq<NodeID>,
    fwd: Map<NodeID, Seq<NodeID>>,
    rev: Map<NodeID, Seq<NodeID>>,
    des: NodeID,
    owners: Map<NodeID, NodeID>,
    a: int,
    b: int,
)
    requires
        0 <= a <= b < l.len(),
        forall|x: int| a <= x < b ==> !marker(l, fwd, rev, des, owners, x),
        marker(l, fwd, rev, des, owners, b),
    ensures
        next_marker(l, fwd, rev, des, owners, a) == b,
        opening_pos(p, l, fwd, rev, des, owners, b) == opening_pos(p, l, fwd, rev, des, owners, a),
    decreases b - a,
{
    if a < b {
        lemma_no_marker_between(p, l, fwd, rev, des, owners, a + 1, b);
        assert(!marker(l, fwd, rev, des, owners, a));
        assert(opening_pos(p, l, fwd, rev, des, owners, a + 1) == opening_pos(p, l, fwd, rev, des, owners, a));
    }
}

proof fn lemma_opening_unchanged(
    p: Map<NodeID, usize>,
    l: Seq<NodeID>,
    fwd: Map<NodeID, Seq<NodeID>>,
    rev: Map<NodeID, Seq<NodeID>>,
    des: NodeID,
    owners: Map<NodeID, NodeID>,
    a: int,
    b: int,
)
    requires
        0 <= a <= b,
        forall|x: int| a <= x < b ==> !marker(l, fwd, rev, des, owners, x),
    ensures
        opening_pos(p, l, fwd, rev, des, owners, b) == opening_pos(p, l, fwd, rev, des, owners, a),
    decreases b - a,
{
    if a < b {
        lemma_opening_unchanged(p, l, fwd, rev, des, owners, a, b - 1);
        assert(!marker(l, fwd, rev, des, owners, b - 1));
    }
}

proof fn lemma_next_marker_found(
    l: Seq<NodeID>,
    fwd: Map<NodeID, Seq<NodeID>>,
    rev: Map<NodeID, Seq<NodeID>>,
    des: NodeID,
    owners: Map<NodeID, NodeID>,
    x: int,
)
    requires
        0 <= x < l.len(),
    ensures
        x <= next_marker(l, fwd, rev, des, owners, x) < l.len(),
        marker(l, fwd, rev, des, owners, next_marker(l, fwd, rev, des, owners, x)),
        forall|z: int| x <= z < next_marker(l, fwd, rev, des, owners, x) ==> !marker(l, fwd, rev, des, owners, z),
    decreases l.len() - x,
{
    if !marker(l, fwd, rev, des, owners, x) {
        assert(x != l.len() - 1);
        lemma_next_marker_found(l, fwd, rev, des, owners, x + 1);
    }
}

proof fn lemma_conflicts_upto_has(
    p: Map<NodeID, usize>,
    l: Seq<NodeID>,
    fwd: Map<NodeID, Seq<NodeID>>,
    rev: Map<NodeID, Seq<NodeID>>,
    des: NodeID,
    owners: Map<NodeID, NodeID>,
    x: int,
    n: int,
    e: (NodeID, NodeID),
)
    requires
        0 <= x < n,
        node_conflicts(p, l, fwd, rev, des, owners, x).contains(e),
    ensures
        conflicts_upto(p, l, fwd, rev, des, owners, n).contains(e),
    decreases n,
{
    if x < n - 1 {
        lemma_conflicts_upto_has(p, l, fwd, rev, des, owners, x, n - 1, e);
    }
}

proof fn lemma_conflicts_before_has(
    layers: Seq<Map<NodeID, usize>>,
    fwd: Map<NodeID, Seq<NodeID>>,
    rev: Map<NodeID, Seq<NodeID>>,
    des: NodeID,
    owners: Map<NodeID, NodeID>,
    i: int,
    c: int,
    e: (NodeID, NodeID),
)
    requires
        1 <= i < c,
        layer_conflicts(layers, fwd, rev, des, owners, i).contains(e),
    ensures
        conflicts_before(layers, fwd, rev, des, owners, c).contains(e),
    decreases c,
{
    if i < c - 1 {
        lemma_conflicts_before_has(layers, fwd, rev, des, owners, i, c - 1, e);
    }
}

/// An edge of the node at position `x` whose upper end lies outside the positions that its
/// stretch spans is recorded as a conflict, whichever side it leaves on.
proof fn lemma_node_conflict_recorded(
    layers: Seq<Map<NodeID, usize>>,
    fwd: Map<NodeID, Seq<NodeID>>,
    rev: Map<NodeID, Seq<NodeID>>,
    des: NodeID,
    owners: Map<NodeID, NodeID>,
    i: int,
    u: NodeID,
    w: NodeID,
)
    requires
        all_orders(layers),
        1 <= i < inner_pairs_end(layers.len() as int),
        layers[i].contains_key(u),
        layers[i + 1].contains_key(w),
        rev.contains_key(w),
        rev[w].contains(u),
        ({
            let p = layers[i];
            let l = order_seq(layers[i + 1]);
            let m = next_marker(l, fwd, rev, des, owners, layers[i + 1][w] as int);
            p[u] < opening_pos(p, l, fwd, rev, des, owners, m) || closing_pos(p, l, fwd, rev, des, owners, m) < p[u]
        }),
    ensures
        type1_conflicts(layers, fwd, rev, des, owners).contains((u, w)),
{
    let p = layers[i];
    let l = order_seq(layers[i + 1]);
    assert(is_order(layers[i + 1]) && is_order(p));
    lemma_order_seq(layers[i + 1]);
    let x = layers[i + 1][w] as int;
    assert(l[x] == w);
    assert(node_conflicts(p, l, fwd, rev, des, owners, x).contains((u, w)));
    lemma_conflicts_upto_has(p, l, fwd, rev, des, owners, x, l.len() as int, (u, w));
    assert(p.dom().contains(u));
    assert(p.dom().len() > 0);
    assert(layer_conflicts(layers, fwd, rev, des, owners, i).contains((u, w)));
    lemma_conflicts_before_has(layers, fwd, rev, des, owners, i, inner_pairs_end(layers.len() as int), (u, w));
}

/// An edge into an inner lower layer that crosses the nearest segment at or right of its lower
/// end, its upper end lying right of the segment's upper end, is a type 1 conflict.
pub proof fn law_crossing_from_the_right_is_conflict(
    layers: Seq<Map<NodeID, usize>>,
    fwd: Map<NodeID, Seq<NodeID>>,
    rev: Map<NodeID, Seq<NodeID>>,
    des: NodeID,
    owners: Map<NodeID, NodeID>,
    i: int,
    u: NodeID,
    w: NodeID,
    y: int,
)
    requires
        all_orders(layers),
        1 <= i < inner_pairs_end(layers.len() as int),
        layers[i].contains_key(u),
        layers[i + 1].contains_key(w),
        rev.contains_key(w),
        rev[w].contains(u),
        layers[i + 1][w] <= y < layers[i + 1].dom().len(),
        segment_node(fwd, rev, des, owners, order_seq(layers[i + 1])[y]),
        forall|z: int| layers[i + 1][w] <= z < y ==> !segment_node(fwd, rev, des, owners, #[trigger] order_seq(layers[i + 1])[z]),
        layers[i][rev[order_seq(layers[i + 1])[y]].last()] < layers[i][u],
    ensures
        type1_conflicts(layers, fwd, rev, des, owners).contains((u, w)),
{
    let l = order_seq(layers[i + 1]);
    assert(is_order(layers[i + 1]));
    lemma_order_seq(layers[i + 1]);
    let x = layers[i + 1][w] as int;
    assert forall|z: int| x <= z < y implies !marker(l, fwd, rev, des, owners, z) by {
        assert(!segment_node(fwd, rev, des, owners, l[z]));
    }
    lemma_no_marker_between(layers[i], l, fwd, rev, des, owners, x, y);
    lemma_node_conflict_recorded(layers, fwd, rev, des, owners, i, u, w);
}

/// An edge into an inner lower layer that crosses the nearest segment left of its lower end,
/// its upper end lying left of the segment's upper end, is a type 1 conflict.
pub proof fn law_crossing_from_the_left_is_conflict(
    layers: Seq<Map<NodeID, usize>>,
    fwd: Map<NodeID, Seq<NodeID>>,
    rev: Map<NodeID, Seq<NodeID>>,
    des: NodeID,
    owners: Map<NodeID, NodeID>,
    i: int,
    u: NodeID,
    w: NodeID,
    y: int,
)
    requires
        all_orders(layers),
        1 <= i < inner_pairs_end(layers.len() as int),
        layers[i].contains_key(u),
        layers[i + 1].contains_key(w),
        rev.contains_key(w),
        rev[w].contains(u),
        0 <= y < layers[i + 1][w],
        segment_node(fwd, rev, des, owners, order_seq(layers[i + 1])[y]),
        forall|z: int| y < z < layers[i + 1][w] ==> !segment_node(fwd, rev, des, owners, #[trigger] order_seq(layers[i + 1])[z]),
        layers[i][u] < layers[i][rev[order_seq(layers[i + 1])[y]].last()],
    ensures
        type1_conflicts(layers, fwd, rev, des, owners).contains((u, w)),
{
    let p = layers[i];
    let l = order_seq(layers[i + 1]);
    assert(is_order(layers[i + 1]));
    lemma_order_seq(layers[i + 1]);
    let x = layers[i + 1][w] as int;
    lemma_next_marker_found(l, fwd, rev, des, owners, x);
    let m = next_marker(l, fwd, rev, des, owners, x);
    lemma_opening_unchanged(p, l, fwd, rev, des, owners, x, m);
    assert forall|z: int| y + 1 <= z < x implies !marker(l, fwd, rev, des, owners, z) by {
        assert(!segment_node(fwd, rev, des, owners, l[z]));
    }
    lemma_opening_unchanged(p, l, fwd, rev, des, owners, y + 1, x);
    assert(marker(l, fwd, rev, des, owners, y));
    assert(opening_pos(p, l, fwd, rev, des, owners, y + 1) == closing_pos(p, l, fwd, rev, des, owners, y));
    lemma_node_conflict_recorded(layers, fwd, rev, des, owners, i, u, w);
}

/// Finds the type 1 conflicts: edges between the inner layer pairs that cross a segment,
/// an edge whose ends are both edge dummies, both nodes of one group, or both of degree one.
pub fn get_type1_conflicts(
    layers: &Vec<Order>,
    layer_seqs: &Vec<Vec<NodeID>>,
    forward_edges: &OrderedEdgeMap,
    reverse_edges: &OrderedEdgeMap,
    dummy_group_start_id: NodeID,
    dummy_edge_start_id: NodeID,
    owners: &HashMap<NodeID, NodeID>,
) -> (out: ConflictMap)
    requires
        all_orders(orders_view(layers@)),
        layer_seqs.len() == layers.len(),
        forall|i: int| 0 <= i < layers.len() ==> (#[trigger] layer_seqs@[i])@ == order_seq(layers@[i]@),
        type1_safe(orders_view(layers@), ordered_view(forward_edges@), ordered_view(reverse_edges@), dummy_edge_start_id, owners@),
    ensures
        conflict_view(out@) == type1_conflicts(orders_view(layers@), ordered_view(forward_edges@),
            ordered_view(reverse_edges@), dummy_edge_start_id, owners@),
{
    let ghost ls = orders_view(layers@);
    let ghost fwd = ordered_view(forward_edges@);
    let ghost rev = ordered_view(reverse_edges@);
    let ghost des = dummy_edge_start_id;
    let ghost ow = owners@;
    let mut conflicts: ConflictMap = HashMap::new();
    let end: usize = if layer_seqs.len() < 2 { 0 } else { layer_seqs.len() - 2 };
    proof {
        assert(conflict_view(conflicts@) =~= Set::<(NodeID, NodeID)>::empty());
    }
    let mut i: usize = 1;
    while i < end
        invariant
            ls == orders_view(layers@),
            fwd == ordered_view(forward_edges@),
            rev == ordered_view(reverse_edges@),
            des == dummy_edge_start_id,
            ow == owners@,
            all_orders(ls),
            layer_seqs.len() == layers.len(),
            forall|i: int| 0 <= i < layers.len() ==> (#[trigger] layer_seqs@[i])@ == order_seq(layers@[i]@),
            type1_safe(ls, fwd, rev, des, ow),
            end == inner_pairs_end(layers.len() as int),
            1 <= i,
            i <= end || i == 1,
            conflict_view(conflicts@) == conflicts_before(ls, fwd, rev, des, ow, i as int),
        decreases end - i,
    {
        let prev_layer_seq = &layer_seqs[i];
        let prev_layer = &layers[i];
        let layer_seq = &layer_seqs[i + 1];
        let layer_len = layer_seq.len();
        let ghost p = ls[i as int];
        let ghost l = layer_seq@;
        proof {
            assert(p == prev_layer@);
            assert(l == order_seq(ls[i + 1]));
            assert(is_order(ls[i + 1]));
            crate::layer_orderer::lemma_order_seq(ls[i + 1]);
            crate::layer_orderer::lemma_order_seq(p);
            assert(prev_layer_seq@.len() == p.dom().len());
        }
        let ghost before = conflict_view(conflicts@);
        if prev_layer_seq.len() > 0 {
            let mut k0: usize = 0;
            let mut lpos: usize = 0;
            let mut l1: usize = 0;
            while l1 < layer_len
                invariant
                    ls == orders_view(layers@),
                    fwd == ordered_view(forward_edges@),
                    rev == ordered_view(reverse_edges@),
                    des == dummy_edge_start_id,
                    ow == owners@,
                    type1_safe(ls, fwd, rev, des, ow),
                    1 <= i < end,
                    end == inner_pairs_end(layers.len() as int),
                    p == ls[i as int],
                    p == prev_layer@,
                    is_order(p),
                    p.dom().len() > 0,
                    prev_layer_seq@.len() == p.dom().len(),
                    l == layer_seq@,
                    l == order_seq(ls[i + 1]),
                    forall|x: int| 0 <= x < l.len() ==> ls[i + 1].contains_key(#[trigger] l[x]),
                    layer_len == l.len(),
                    lpos <= l1 <= layer_len,
                    forall|x: int| lpos <= x < l1 ==> !marker(l, fwd, rev, des, ow, x),
                    k0 == opening_pos(p, l, fwd, rev, des, ow, lpos as int),
                    l1 == layer_len ==> lpos == layer_len,
                    conflict_view(conflicts@) == before.union(conflicts_upto(p, l, fwd, rev, des, ow, lpos as int)),
                decreases layer_len - l1,
            {
                let node = layer_seq[l1];
                let seg = is_segment_node(forward_edges, reverse_edges, dummy_edge_start_id, owners, node);
                let last = l1 == layer_len - 1;
                if last || seg {
                    let mut k1: usize = prev_layer_seq.len() - 1;
                    proof {
                        assert(ls[i + 1].contains_key(l[l1 as int]));
                    }
                    if seg {
                        let upper_neighbors = reverse_edges.get(&node).unwrap();
                        assert(upper_neighbors@ == rev[node]);
                        assert(rev[node].len() == 1);
                        let up = upper_neighbors[upper_neighbors.len() - 1];
                        assert(p.contains_key(rev[node][0]));
                        k1 = *prev_layer.get(&up).unwrap();
                    }
                    assert(k1 == closing_pos(p, l, fwd, rev, des, ow, l1 as int));
                    proof {
                        lemma_no_marker_between(p, l, fwd, rev, des, ow, lpos as int, l1 as int);
                        assert forall|x: int| lpos <= x <= l1 implies next_marker(l, fwd, rev, des, ow, x) == l1 by {
                            lemma_no_marker_between(p, l, fwd, rev, des, ow, x, l1 as int);
                        }
                    }
                    let ghost start = lpos as int;
                    while lpos <= l1
                        invariant
                            ls == orders_view(layers@),
                            fwd == ordered_view(forward_edges@),
                            rev == ordered_view(reverse_edges@),
                            des == dummy_edge_start_id,
                            ow == owners@,
                            type1_safe(ls, fwd, rev, des, ow),
                            1 <= i < end,
                            end == inner_pairs_end(layers.len() as int),
                            p == ls[i as int],
                            p == prev_layer@,
                            is_order(p),
                            p.dom().len() > 0,
                            l == layer_seq@,
                            forall|x: int| 0 <= x < l.len() ==> ls[i + 1].contains_key(#[trigger] l[x]),
                            layer_len == l.len(),
                            l1 < layer_len,
                            start <= lpos <= l1 + 1,
                            forall|x: int| start <= x <= l1 ==> next_marker(l, fwd, rev, des, ow, x) == l1,
                            k0 == opening_pos(p, l, fwd, rev, des, ow, l1 as int),
                            k1 == closing_pos(p, l, fwd, rev, des, ow, l1 as int),
                            conflict_view(conflicts@) == before.union(conflicts_upto(p, l, fwd, rev, des, ow, lpos as int)),
                        decreases l1 + 1 - lpos,
                    {
                        let w = layer_seq[lpos];
                        let ghost nc = node_conflicts(p, l, fwd, rev, des, ow, lpos as int);
                        let ghost base = conflict_view(conflicts@);
                        match reverse_edges.get(&w) {
                            Some(node_upper_neighbors) => {
                                assert(node_upper_neighbors@ == rev[w]);
                                let mut t: usize = 0;
                                while t < node_upper_neighbors.len()
                                    invariant
                                        node_upper_neighbors@ == rev[w],
                                        rev.contains_key(w),
                                        w == l[lpos as int],
                                        p == prev_layer@,
                                        forall|j: int| 0 <= j < rev[w].len() ==> p.contains_key(#[trigger] rev[w][j]),
                                        nc == node_conflicts(p, l, fwd, rev, des, ow, lpos as int),
                                        next_marker(l, fwd, rev, des, ow, lpos as int) == l1,
                                        k0 == opening_pos(p, l, fwd, rev, des, ow, l1 as int),
                                        k1 == closing_pos(p, l, fwd, rev, des, ow, l1 as int),
                                        t <= node_upper_neighbors.len(),
                                        conflict_view(conflicts@) == base.union(nc.filter(|e: (NodeID, NodeID)| exists|j: int| 0 <= j < t && rev[w][j] == e.0)),
                                    decreases node_upper_neighbors.len() - t,
                                {
                                    let upper_neighbor = node_upper_neighbors[t];
                                    let k = *prev_layer.get(&upper_neighbor).unwrap();
                                    let ghost old_set = conflict_view(conflicts@);
                                    if k < k0 || k1 < k {
                                        add_conflict(&mut conflicts, upper_neighbor, w);
                                    }
                                    proof {
                                        let f1 = nc.filter(|e: (NodeID, NodeID)| exists|j: int| 0 <= j < t && rev[w][j] == e.0);
                                        let f2 = nc.filter(|e: (NodeID, NodeID)| exists|j: int| 0 <= j < t + 1 && rev[w][j] == e.0);
                                        assert forall|e: (NodeID, NodeID)| #[trigger] f2.contains(e) <==> f1.contains(e) || (nc.contains(e) && e.0 == upper_neighbor) by {
                                            if f2.contains(e) && !f1.contains(e) {
                                                let j = choose|j: int| 0 <= j < t + 1 && rev[w][j] == e.0;
                                                assert(j == t);
                                            }
                                            if nc.contains(e) && e.0 == upper_neighbor {
                                                assert(rev[w][t as int] == e.0);
                                            }
                                        }
                                        assert(nc.contains((upper_neighbor, w)) == (k < k0 || k1 < k)) by {
                                            assert(rev[w].contains(upper_neighbor)) by {
                                                assert(rev[w][t as int] == upper_neighbor);
                                            }
                                        }
                                        assert(conflict_view(conflicts@) =~= base.union(f2));
                                    }
                                    t = t + 1;
                                }
                                proof {
                                    let f = nc.filter(|e: (NodeID, NodeID)| exists|j: int| 0 <= j < node_upper_neighbors.len() && rev[w][j] == e.0);
                                    assert forall|e: (NodeID, NodeID)| #[trigger] nc.contains(e) implies f.contains(e) by {
                                        let j = choose|j: int| 0 <= j < rev[w].len() && rev[w][j] == e.0;
                                    }
                                    assert(f =~= nc);
                                }
                            },
                            None => {
                                assert(node_conflicts(p, l, fwd, rev, des, ow, lpos as int) =~= Set::<(NodeID, NodeID)>::empty());
                            },
                        }
                        proof {
                            assert(conflict_view(conflicts@) == base.union(nc));
                            assert(conflicts_upto(p, l, fwd, rev, des, ow, lpos + 1) == conflicts_upto(p, l, fwd, rev, des, ow, lpos as int).union(nc));
                            assert(conflict_view(conflicts@) =~= before.union(conflicts_upto(p, l, fwd, rev, des, ow, lpos + 1)));
                        }
                        lpos = lpos + 1;
                    }
                    proof {
                        assert(opening_pos(p, l, fwd, rev, des, ow, l1 + 1) == k1);
                    }
                    k0 = k1;
                }
                l1 = l1 + 1;
            }
            proof {
                assert(conflict_view(conflicts@) == before.union(layer_conflicts(ls, fwd, rev, des, ow, i as int)));
            }
        } else {
            proof {
                assert(conflict_view(conflicts@) =~= before.union(layer_conflicts(ls, fwd, rev, des, ow, i as int)));
            }
        }
        i = i + 1;
    }
    proof {
        if end == 0 {
            assert(conflicts_before(ls, fwd, rev, des, ow, 1) =~= Set::<(NodeID, NodeID)>::empty());
            assert(conflicts_before(ls, fwd, rev, des, ow, 0) =~= Set::<(NodeID, NodeID)>::empty());
            assert(conflict_view(conflicts@) == conflicts_before(ls, fwd, rev, des, ow, 1));
        } else {
            assert(i == end);
            assert(conflict_view(conflicts@) == conflicts_before(ls, fwd, rev, des, ow, i as int));
        }
        assert(conflict_view(conflicts@) == conflicts_before(ls, fwd, rev, des, ow, end as int));
        assert(type1_conflicts(ls, fwd, rev, des, ow) == conflicts_before(ls, fwd, rev, des, ow, end as int));
    }
    conflicts
}

/// The state of the vertical alignment: roots, alignment links, and the last upper position
/// used in the current layer.
pub type AlignState = (Map<NodeID, NodeID>, Map<NodeID, NodeID>, int);

/// Tries to align `node` with its upper neighbour `u`: if `node` is not aligned yet, the edge
/// is not in conflict, and `u` lies right of the last upper position used, `u` is linked to
/// `node` and `node` joins the block of `u`.
pub open spec fn try_align(st: AlignState, prev: Map<NodeID, usize>, conf: Set<(NodeID, NodeID)>, node: NodeID, u: NodeID) -> AlignState {
    let (root, align, r) = st;
    if align.contains_key(node) && align[node] == node && !conf.contains((u, node)) && r < prev[u] as int {
        let align1 = align.insert(u, node);
        let root1 = root.insert(node, root[u]);
        (root1, align1.insert(node, root1[node]), prev[u] as int)
    } else {
        st
    }
}

/// The tries of `node` with its upper neighbours `ups[lo..m]`.
pub open spec fn median_tries(st: AlignState, prev: Map<NodeID, usize>, conf: Set<(NodeID, NodeID)>, node: NodeID, ups: Seq<NodeID>, lo: int, m: int) -> AlignState
    decreases m - lo,
{
    if m <= lo {
        st
    } else {
        try_align(median_tries(st, prev, conf, node, ups, lo, m - 1), prev, conf, node, ups[m - 1])
    }
}

/// The tries of `node` with its median upper neighbours (one, or two for an even number).
pub open spec fn node_tries(st: AlignState, prev: Map<NodeID, usize>, conf: Set<(NodeID, NodeID)>, rev: Map<NodeID, Seq<NodeID>>, node: NodeID) -> AlignState {
    if rev.contains_key(node) && rev[node].len() > 0 {
        let len = rev[node].len() as int;
        median_tries(st, prev, conf, node, rev[node], (len - 1) / 2, len / 2 + 1)
    } else {
        st
    }
}

/// The tries of the nodes `seq[0..k]` of a layer.
pub open spec fn layer_tries(st: AlignState, prev: Map<NodeID, usize>, conf: Set<(NodeID, NodeID)>, rev: Map<NodeID, Seq<NodeID>>, seq: Seq<NodeID>, k: int) -> AlignState
    decreases k,
{
    if k <= 0 {
        st
    } else {
        node_tries(layer_tries(st, prev, conf, rev, seq, k - 1), prev, conf, rev, seq[k - 1])
    }
}

/// Every node of the layers as its own root.
pub open spec fn identity_roots(layers: Seq<Map<NodeID, usize>>) -> Map<NodeID, NodeID> {
    Map::new(|n: NodeID| exists|i: int| 0 <= i < layers.len() && #[trigger] layers[i].contains_key(n), |n: NodeID| n)
}

/// Roots and alignment after the layers `1..c` were aligned to the layer above them.
pub open spec fn align_rounds(layers: Seq<Map<NodeID, usize>>, conf: Set<(NodeID, NodeID)>, rev: Map<NodeID, Seq<NodeID>>, c: int) -> (Map<NodeID, NodeID>, Map<NodeID, NodeID>)
    decreases c,
{
    if c <= 1 {
        (identity_roots(layers), identity_roots(layers))
    } else {
        let (root, align) = align_rounds(layers, conf, rev, c - 1);
        let seq = order_seq(layers[c - 1]);
        let st = layer_tries((root, align, -1), layers[c - 2], conf, rev, seq, seq.len() as int);
        (st.0, st.1)
    }
}

/// The roots and alignment links of the vertical alignment.
pub open spec fn vertical_alignment(layers: Seq<Map<NodeID, usize>>, conf: Set<(NodeID, NodeID)>, rev: Map<NodeID, Seq<NodeID>>) -> (Map<NodeID, NodeID>, Map<NodeID, NodeID>) {
    align_rounds(layers, conf, rev, layers.len() as int)
}

/// The upper neighbours of every layer's nodes lie in the layer above, and the layers fit
/// the signed positions.
pub open spec fn alignment_safe(layers: Seq<Map<NodeID, usize>>, rev: Map<NodeID, Seq<NodeID>>) -> bool {
    &&& forall|i: int| 0 <= i < layers.len() ==> (#[trigger] layers[i]).dom().len() <= isize::MAX
    &&& forall|i: int, n: NodeID| 1 <= i < layers.len() && #[trigger] layers[i].contains_key(n) && rev.contains_key(n) ==>
        forall|j: int| 0 <= j < rev[n].len() ==> layers[i - 1].contains_key(#[trigger] rev[n][j])
}

/// No node lies in two layers.
#[verifier::opaque]
pub open spec fn disjoint_layers(ls: Seq<Map<NodeID, usize>>) -> bool {
    forall|i: int, j: int, n: NodeID| 0 <= i < j < ls.len() && #[trigger] ls[i].contains_key(n) ==> !(#[trigger] ls[j].contains_key(n))
}

proof fn lemma_disjoint(ls: Seq<Map<NodeID, usize>>, i: int, j: int, n: NodeID)
    requires
        disjoint_layers(ls),
        0 <= i < j < ls.len(),
        ls[i].contains_key(n),
    ensures
        !ls[j].contains_key(n),
{
    reveal(disjoint_layers);
}

/// `n` lies in one of the layers `0..c`.
pub open spec fn in_upto(ls: Seq<Map<NodeID, usize>>, n: NodeID, c: int) -> bool {
    exists|j: int| 0 <= j < c && #[trigger] ls[j].contains_key(n)
}

/// The alignment links from layer `i - 1` into layer `i` do not cross.
pub open spec fn links_uncrossed(ls: Seq<Map<NodeID, usize>>, align: Map<NodeID, NodeID>, i: int) -> bool {
    forall|u: NodeID, u2: NodeID|
        #[trigger] ls[i - 1].contains_key(u) && #[trigger] ls[i - 1].contains_key(u2) && ls[i].contains_key(align[u])
            && ls[i].contains_key(align[u2]) && ls[i][align[u]] < ls[i][align[u2]]
            ==> ls[i - 1][u] < ls[i - 1][u2]
}

/// After the rounds `1..c`: every node has a root and a link; the nodes of the layers `0..c`
/// have them within those layers; the nodes of the later layers are still alone.
spec fn rounds_inv(ls: Seq<Map<NodeID, usize>>, root: Map<NodeID, NodeID>, align: Map<NodeID, NodeID>, c: int) -> bool {
    &&& forall|n: NodeID| #[trigger] identity_roots(ls).contains_key(n) ==> root.contains_key(n) && align.contains_key(n)
    &&& forall|n: NodeID| in_upto(ls, n, c) ==> in_upto(ls, #[trigger] root[n], c)
    &&& forall|n: NodeID| in_upto(ls, n, c) ==> in_upto(ls, #[trigger] align[n], c)
    &&& forall|j: int, n: NodeID| c <= j < ls.len() && #[trigger] ls[j].contains_key(n) ==> root[n] == n && align[n] == n
}

/// While layer `c` is aligned to layer `c - 1`: the round invariant for `0..=c`, links out of
/// other layers as at the start `align0`, and the links made so far end before position `b`,
/// start at or before the last upper position used, and do not cross.
#[verifier::opaque]
spec fn tries_inv(ls: Seq<Map<NodeID, usize>>, c: int, align0: Map<NodeID, NodeID>, st: AlignState, b: int) -> bool {
    &&& forall|n: NodeID| #[trigger] identity_roots(ls).contains_key(n) ==> st.0.contains_key(n) && st.1.contains_key(n)
    &&& forall|n: NodeID| in_upto(ls, n, c + 1) ==> in_upto(ls, #[trigger] st.0[n], c + 1)
    &&& forall|n: NodeID| in_upto(ls, n, c + 1) ==> in_upto(ls, #[trigger] st.1[n], c + 1)
    &&& forall|j: int, n: NodeID| c + 1 <= j < ls.len() && #[trigger] ls[j].contains_key(n) ==> st.0[n] == n && st.1[n] == n
    &&& forall|n: NodeID| !ls[c - 1].contains_key(n) && !ls[c].contains_key(n) ==> #[trigger] st.1[n] == align0[n]
    &&& forall|u: NodeID| #[trigger] ls[c - 1].contains_key(u) && ls[c].contains_key(st.1[u]) ==>
        ls[c - 1][u] <= st.2 && ls[c][st.1[u]] < b
    &&& links_uncrossed(ls, st.1, c)
}

proof fn lemma_in_upto_grow(ls: Seq<Map<NodeID, usize>>, n: NodeID, c: int, d: int)
    requires
        in_upto(ls, n, c),
        c <= d,
    ensures
        in_upto(ls, n, d),
{
    let j = choose|j: int| 0 <= j < c && #[trigger] ls[j].contains_key(n);
    assert(ls[j].contains_key(n));
}

proof fn lemma_link_upto(
    ls: Seq<Map<NodeID, usize>>,
    c: int,
    root: Map<NodeID, NodeID>,
    align: Map<NodeID, NodeID>,
    node: NodeID,
    u: NodeID,
)
    requires
        forall|n: NodeID| in_upto(ls, n, c + 1) ==> in_upto(ls, #[trigger] root[n], c + 1),
        forall|n: NodeID| in_upto(ls, n, c + 1) ==> in_upto(ls, #[trigger] align[n], c + 1),
        in_upto(ls, u, c + 1),
        in_upto(ls, node, c + 1),
    ensures
        forall|n: NodeID| in_upto(ls, n, c + 1) ==> in_upto(ls, #[trigger] root.insert(node, root[u])[n], c + 1),
        forall|n: NodeID| in_upto(ls, n, c + 1) ==>
            in_upto(ls, #[trigger] align.insert(u, node).insert(node, root.insert(node, root[u])[node])[n], c + 1),
{
    let root1 = root.insert(node, root[u]);
    let a1 = align.insert(u, node).insert(node, root1[node]);
    let ru = root[u];
    assert(in_upto(ls, ru, c + 1));
    assert forall|n: NodeID| in_upto(ls, n, c + 1) implies in_upto(ls, #[trigger] root1[n], c + 1) by {
        if n != node {
            assert(root1[n] == root[n]);
        }
    }
    assert forall|n: NodeID| in_upto(ls, n, c + 1) implies in_upto(ls, #[trigger] a1[n], c + 1) by {
        if n == node {
            assert(a1[n] == ru);
        } else if n == u {
            assert(a1[n] == node);
        } else {
            assert(a1[n] == align[n]);
        }
    }
}

proof fn lemma_link_later(
    ls: Seq<Map<NodeID, usize>>,
    c: int,
    root: Map<NodeID, NodeID>,
    align: Map<NodeID, NodeID>,
    node: NodeID,
    u: NodeID,
)
    requires
        1 <= c < ls.len(),
        disjoint_layers(ls),
        ls[c].contains_key(node),
        ls[c - 1].contains_key(u),
        forall|j: int, n: NodeID| c + 1 <= j < ls.len() && #[trigger] ls[j].contains_key(n) ==> root[n] == n && align[n] == n,
    ensures
        forall|j: int, n: NodeID| c + 1 <= j < ls.len() && #[trigger] ls[j].contains_key(n) ==>
            root.insert(node, root[u])[n] == n && align.insert(u, node).insert(node, root.insert(node, root[u])[node])[n] == n,
{
    assert forall|j: int, n: NodeID| c + 1 <= j < ls.len() && #[trigger] ls[j].contains_key(n) implies
        root.insert(node, root[u])[n] == n && align.insert(u, node).insert(node, root.insert(node, root[u])[node])[n] == n by {
        lemma_disjoint(ls, c - 1, j, u);
        lemma_disjoint(ls, c, j, node);
    }
}

proof fn lemma_tries_weaken(ls: Seq<Map<NodeID, usize>>, c: int, align0: Map<NodeID, NodeID>, st: AlignState, b: int)
    requires
        tries_inv(ls, c, align0, st, b),
    ensures
        tries_inv(ls, c, align0, st, b + 1),
{
    reveal(tries_inv);
}

proof fn lemma_link_uncrossed(
    ls: Seq<Map<NodeID, usize>>,
    c: int,
    align: Map<NodeID, NodeID>,
    a1: Map<NodeID, NodeID>,
    r: int,
    node: NodeID,
    u: NodeID,
)
    requires
        1 <= c < ls.len(),
        ls[c].contains_key(node),
        ls[c - 1].contains_key(u),
        r < ls[c - 1][u],
        a1[u] == node,
        forall|x: NodeID| #[trigger] ls[c - 1].contains_key(x) && x != u ==> a1[x] == align[x],
        forall|x: NodeID| #[trigger] ls[c - 1].contains_key(x) && ls[c].contains_key(align[x]) ==>
            ls[c - 1][x] <= r && ls[c][align[x]] < ls[c][node] + 1,
        links_uncrossed(ls, align, c),
    ensures
        links_uncrossed(ls, a1, c),
{
    assert forall|x: NodeID, x2: NodeID|
        #[trigger] ls[c - 1].contains_key(x) && #[trigger] ls[c - 1].contains_key(x2) && ls[c].contains_key(a1[x])
            && ls[c].contains_key(a1[x2]) && ls[c][a1[x]] < ls[c][a1[x2]]
        implies ls[c - 1][x] < ls[c - 1][x2] by {
        if x == u && x2 != u {
            assert(a1[x2] == align[x2]);
        } else if x != u && x2 == u {
            assert(a1[x] == align[x]);
        } else if x != u && x2 != u {
            assert(a1[x] == align[x] && a1[x2] == align[x2]);
        }
    }
}

proof fn lemma_try_align_inv(
    ls: Seq<Map<NodeID, usize>>,
    rev: Map<NodeID, Seq<NodeID>>,
    c: int,
    align0: Map<NodeID, NodeID>,
    st: AlignState,
    conf: Set<(NodeID, NodeID)>,
    node: NodeID,
    u: NodeID,
)
    requires
        1 <= c < ls.len(),
        disjoint_layers(ls),
        ls[c].contains_key(node),
        ls[c - 1].contains_key(u),
        tries_inv(ls, c, align0, st, ls[c][node] + 1),
    ensures
        tries_inv(ls, c, align0, try_align(st, ls[c - 1], conf, node, u), ls[c][node] + 1),
{
    reveal(tries_inv);
    let p = ls[c - 1];
    let root = st.0;
    let align = st.1;
    let r = st.2;
    if align.contains_key(node) && align[node] == node && !conf.contains((u, node)) && r < p[u] as int {
        let nst = try_align(st, p, conf, node, u);
        let root1 = root.insert(node, root[u]);
        let a1 = align.insert(u, node).insert(node, root1[node]);
        assert(nst.0 == root1 && nst.1 == a1 && nst.2 == p[u] as int);
        if p.contains_key(node) {
            lemma_disjoint(ls, c - 1, c, node);
        }
        lemma_disjoint(ls, c - 1, c, u);
        assert(ls[c - 1].contains_key(u));
        assert(ls[c].contains_key(node));
        assert(in_upto(ls, u, c + 1));
        assert(in_upto(ls, node, c + 1));
        lemma_link_upto(ls, c, root, align, node, u);
        lemma_link_later(ls, c, root, align, node, u);
        assert forall|x: NodeID| #[trigger] ls[c - 1].contains_key(x) && x != u implies a1[x] == align[x] by {
            if x == node {
                lemma_disjoint(ls, c - 1, c, x);
            }
        }
        assert forall|x: NodeID| #[trigger] ls[c - 1].contains_key(x) && ls[c].contains_key(a1[x]) implies
            ls[c - 1][x] <= nst.2 && ls[c][a1[x]] < ls[c][node] + 1 by {
            if x != u {
                assert(a1[x] == align[x]);
            }
        }
        lemma_link_uncrossed(ls, c, align, a1, r, node, u);
        assert forall|n: NodeID| !ls[c - 1].contains_key(n) && !ls[c].contains_key(n) implies #[trigger] a1[n] == align0[n] by {
            assert(a1[n] == align[n]);
        }
        assert forall|n: NodeID| #[trigger] identity_roots(ls).contains_key(n) implies nst.0.contains_key(n) && nst.1.contains_key(n) by {}
    }
}

proof fn lemma_median_tries_inv(
    ls: Seq<Map<NodeID, usize>>,
    rev: Map<NodeID, Seq<NodeID>>,
    c: int,
    align0: Map<NodeID, NodeID>,
    st: AlignState,
    conf: Set<(NodeID, NodeID)>,
    node: NodeID,
    ups: Seq<NodeID>,
    lo: int,
    m: int,
)
    requires
        1 <= c < ls.len(),
        disjoint_layers(ls),
        ls[c].contains_key(node),
        0 <= lo,
        m <= ups.len(),
        forall|j: int| 0 <= j < ups.len() ==> ls[c - 1].contains_key(#[trigger] ups[j]),
        tries_inv(ls, c, align0, st, ls[c][node] + 1),
    ensures
        tries_inv(ls, c, align0, median_tries(st, ls[c - 1], conf, node, ups, lo, m), ls[c][node] + 1),
    decreases m - lo,
{
    if m > lo {
        lemma_median_tries_inv(ls, rev, c, align0, st, conf, node, ups, lo, m - 1);
        lemma_try_align_inv(ls, rev, c, align0, median_tries(st, ls[c - 1], conf, node, ups, lo, m - 1), conf, node, ups[m - 1]);
    }
}

proof fn lemma_layer_tries_inv(
    ls: Seq<Map<NodeID, usize>>,
    rev: Map<NodeID, Seq<NodeID>>,
    c: int,
    align0: Map<NodeID, NodeID>,
    st: AlignState,
    conf: Set<(NodeID, NodeID)>,
    k: int,
)
    requires
        1 <= c < ls.len(),
        all_orders(ls),
        disjoint_layers(ls),
        alignment_safe(ls, rev),
        0 <= k <= ls[c].dom().len(),
        tries_inv(ls, c, align0, st, 0),
    ensures
        tries_inv(ls, c, align0, layer_tries(st, ls[c - 1], conf, rev, order_seq(ls[c]), k), k),
    decreases k,
{
    if k > 0 {
        let seq = order_seq(ls[c]);
        lemma_layer_tries_inv(ls, rev, c, align0, st, conf, k - 1);
        let prev = layer_tries(st, ls[c - 1], conf, rev, seq, k - 1);
        assert(is_order(ls[c]));
        lemma_order_seq(ls[c]);
        let node = seq[k - 1];
        assert(ls[c].contains_key(node) && ls[c][node] == k - 1);
        lemma_tries_weaken(ls, c, align0, prev, k - 1);
        if rev.contains_key(node) && rev[node].len() > 0 {
            let len = rev[node].len() as int;
            assert forall|j: int| 0 <= j < rev[node].len() implies ls[c - 1].contains_key(#[trigger] rev[node][j]) by {
                assert(ls[c].contains_key(node));
            }
            lemma_median_tries_inv(ls, rev, c, align0, prev, conf, node, rev[node], (len - 1) / 2, len / 2 + 1);
        }
    }
}

proof fn lemma_round_start(ls: Seq<Map<NodeID, usize>>, root: Map<NodeID, NodeID>, align: Map<NodeID, NodeID>, d: int)
    requires
        1 <= d < ls.len(),
        disjoint_layers(ls),
        rounds_inv(ls, root, align, d),
    ensures
        tries_inv(ls, d, align, (root, align, -1), 0),
{
    reveal(tries_inv);
    let st0: AlignState = (root, align, -1);
    assert forall|n: NodeID| in_upto(ls, n, d + 1) implies in_upto(ls, #[trigger] root[n], d + 1) by {
        let j = choose|j: int| 0 <= j < d + 1 && #[trigger] ls[j].contains_key(n);
        if j < d {
            assert(in_upto(ls, n, d));
            lemma_in_upto_grow(ls, root[n], d, d + 1);
        } else {
            assert(ls[d].contains_key(n));
            assert(root[n] == n);
        }
    }
    assert forall|n: NodeID| in_upto(ls, n, d + 1) implies in_upto(ls, #[trigger] align[n], d + 1) by {
        let j = choose|j: int| 0 <= j < d + 1 && #[trigger] ls[j].contains_key(n);
        if j < d {
            assert(in_upto(ls, n, d));
            lemma_in_upto_grow(ls, align[n], d, d + 1);
        } else {
            assert(ls[d].contains_key(n));
            assert(align[n] == n);
        }
    }
    assert forall|u: NodeID| #[trigger] ls[d - 1].contains_key(u) implies !ls[d].contains_key(align[u]) by {
        assert(in_upto(ls, u, d));
        let j = choose|j: int| 0 <= j < d && #[trigger] ls[j].contains_key(align[u]);
        lemma_disjoint(ls, j, d, align[u]);
    }
}

proof fn lemma_round_frame(
    ls: Seq<Map<NodeID, usize>>,
    align: Map<NodeID, NodeID>,
    a1: Map<NodeID, NodeID>,
    d: int,
    i: int,
)
    requires
        1 <= i < d < ls.len(),
        disjoint_layers(ls),
        links_uncrossed(ls, align, i),
        forall|n: NodeID| !ls[d - 1].contains_key(n) && !ls[d].contains_key(n) ==> #[trigger] a1[n] == align[n],
    ensures
        links_uncrossed(ls, a1, i),
{
    assert forall|u: NodeID, u2: NodeID|
        #[trigger] ls[i - 1].contains_key(u) && #[trigger] ls[i - 1].contains_key(u2) && ls[i].contains_key(a1[u])
            && ls[i].contains_key(a1[u2]) && ls[i][a1[u]] < ls[i][a1[u2]]
        implies ls[i - 1][u] < ls[i - 1][u2] by {
        lemma_disjoint(ls, i - 1, d - 1, u);
        lemma_disjoint(ls, i - 1, d, u);
        lemma_disjoint(ls, i - 1, d - 1, u2);
        lemma_disjoint(ls, i - 1, d, u2);
        assert(a1[u] == align[u] && a1[u2] == align[u2]);
    }
}

proof fn lemma_round_end(ls: Seq<Map<NodeID, usize>>, align0: Map<NodeID, NodeID>, st: AlignState, d: int, k: int)
    requires
        1 <= d < ls.len(),
        tries_inv(ls, d, align0, st, k),
    ensures
        rounds_inv(ls, st.0, st.1, d + 1),
        links_uncrossed(ls, st.1, d),
        forall|n: NodeID| !ls[d - 1].contains_key(n) && !ls[d].contains_key(n) ==> #[trigger] st.1[n] == align0[n],
{
    reveal(tries_inv);
}

proof fn lemma_align_rounds_inv(ls: Seq<Map<NodeID, usize>>, conf: Set<(NodeID, NodeID)>, rev: Map<NodeID, Seq<NodeID>>, c: int)
    requires
        1 <= c <= ls.len(),
        all_orders(ls),
        disjoint_layers(ls),
        alignment_safe(ls, rev),
    ensures
        rounds_inv(ls, align_rounds(ls, conf, rev, c).0, align_rounds(ls, conf, rev, c).1, c),
        forall|i: int| 1 <= i < c ==> #[trigger] links_uncrossed(ls, align_rounds(ls, conf, rev, c).1, i),
    decreases c,
{
    if c == 1 {
        let id = identity_roots(ls);
        assert forall|n: NodeID| in_upto(ls, n, 1) implies in_upto(ls, #[trigger] id[n], 1) by {
            assert(ls[0].contains_key(n));
            assert(id.contains_key(n));
        }
        assert forall|j: int, n: NodeID| 1 <= j < ls.len() && #[trigger] ls[j].contains_key(n) implies id[n] == n && id[n] == n by {
            assert(id.contains_key(n));
        }
    } else {
        let d = c - 1;
        lemma_align_rounds_inv(ls, conf, rev, d);
        let (root, align) = align_rounds(ls, conf, rev, d);
        let st0: AlignState = (root, align, -1);
        lemma_round_start(ls, root, align, d);
        let seq = order_seq(ls[d]);
        assert(is_order(ls[d]));
        lemma_order_seq(ls[d]);
        lemma_layer_tries_inv(ls, rev, d, align, st0, conf, seq.len() as int);
        let st = layer_tries(st0, ls[d - 1], conf, rev, seq, seq.len() as int);
        lemma_round_end(ls, align, st, d, seq.len() as int);
        assert(align_rounds(ls, conf, rev, c) == (st.0, st.1));
        assert forall|i: int| 1 <= i < c implies #[trigger] links_uncrossed(ls, st.1, i) by {
            if i < d {
                assert(links_uncrossed(ls, align, i));
                lemma_round_frame(ls, align, st.1, d, i);
            }
        }
    }
}

/// Aligned blocks never cross: where nodes `u` and `u2` of layer `i - 1` are linked to `v` and
/// `v2` of layer `i`, and `v` lies left of `v2`, `u` lies left of `u2`.
pub proof fn law_aligned_blocks_do_not_cross(
    layers: Seq<Map<NodeID, usize>>,
    conf: Set<(NodeID, NodeID)>,
    rev: Map<NodeID, Seq<NodeID>>,
    i: int,
    u: NodeID,
    u2: NodeID,
    v: NodeID,
    v2: NodeID,
)
    requires
        all_orders(layers),
        disjoint_layers(layers),
        alignment_safe(layers, rev),
        1 <= i < layers.len(),
        layers[i - 1].contains_key(u),
        layers[i - 1].contains_key(u2),
        layers[i].contains_key(v),
        layers[i].contains_key(v2),
        vertical_alignment(layers, conf, rev).1[u] == v,
        vertical_alignment(layers, conf, rev).1[u2] == v2,
        layers[i][v] < layers[i][v2],
    ensures
        layers[i - 1][u] < layers[i - 1][u2],
{
    lemma_align_rounds_inv(layers, conf, rev, layers.len() as int);
    assert(links_uncrossed(layers, vertical_alignment(layers, conf, rev).1, i));
}

/// Blocks of vertically aligned nodes: every node's root, and the link from every node to
/// the next node of its block (the last links back to the root).
pub struct VerticalAlignment {
    pub root: HashMap<NodeID, NodeID>,
    pub align: HashMap<NodeID, NodeID>,
}

/// Every node, mapped to itself.
fn identity_map(layers: &Vec<Order>) -> (out: HashMap<NodeID, NodeID>)
    requires
        all_orders(orders_view(layers@)),
    ensures
        out@ == identity_roots(orders_view(layers@)),
{
    let ghost ls = orders_view(layers@);
    let mut out: HashMap<NodeID, NodeID> = HashMap::new();
    let mut i: usize = 0;
    while i < layers.len()
        invariant
            ls == orders_view(layers@),
            i <= layers.len(),
            forall|n: NodeID| #[trigger] out@.contains_key(n) ==> out@[n] == n,
            forall|n: NodeID| #[trigger] out@.contains_key(n) <==> exists|j: int| 0 <= j < i && #[trigger] ls[j].contains_key(n),
        decreases layers.len() - i,
    {
        let entries = map_entries(&layers[i]);
        let ghost before = out@;
        let mut k: usize = 0;
        while k < entries.len()
            invariant
                ls == orders_view(layers@),
                i < layers.len(),
                lists_map(entries@, ls[i as int]),
                k <= entries.len(),
                forall|n: NodeID| #[trigger] out@.contains_key(n) ==> out@[n] == n,
                forall|n: NodeID| #[trigger] out@.contains_key(n) <==> (before.contains_key(n) || exists|j: int| 0 <= j < k && entries@[j].0 == n),
            decreases entries.len() - k,
        {
            let node = entries[k].0;
            out.insert(node, node);
            proof {
                assert forall|n: NodeID| #[trigger] out@.contains_key(n) <==> (before.contains_key(n) || exists|j: int| 0 <= j < k + 1 && entries@[j].0 == n) by {
                    if n == node {
                        assert(entries@[k as int].0 == n);
                    }
                }
            }
            k = k + 1;
        }
        proof {
            assert forall|n: NodeID| #[trigger] out@.contains_key(n) <==> exists|j: int| 0 <= j < i + 1 && #[trigger] ls[j].contains_key(n) by {
                if out@.contains_key(n) && !before.contains_key(n) {
                    let j = choose|j: int| 0 <= j < k && entries@[j].0 == n;
                    assert(ls[i as int].contains_key(entries@[j].0));
                }
                if exists|j: int| 0 <= j < i + 1 && #[trigger] ls[j].contains_key(n) {
                    let j = choose|j: int| 0 <= j < i + 1 && #[trigger] ls[j].contains_key(n);
                    if j == i {
                        let q = choose|q: int| 0 <= q < entries.len() && #[trigger] entries@[q].0 == n;
                    }
                }
            }
        }
        i = i + 1;
    }
    proof {
        assert(out@ =~= identity_roots(ls));
    }
    out
}

/// Aligns every node with a median upper neighbour where no conflict and no earlier
/// alignment in its layer prevents it, building blocks of vertically aligned nodes.
pub fn align_vertical(
    layers: &Vec<Order>,
    layer_seqs: &Vec<Vec<NodeID>>,
    forward_edges: &OrderedEdgeMap,
    reverse_edges: &OrderedEdgeMap,
    dummy_group_start_id: NodeID,
    dummy_edge_start_id: NodeID,
    owners: &HashMap<NodeID, NodeID>,
) -> (out: VerticalAlignment)
    requires
        all_orders(orders_view(layers@)),
        layer_seqs.len() == layers.len(),
        forall|i: int| 0 <= i < layers.len() ==> (#[trigger] layer_seqs@[i])@ == order_seq(layers@[i]@),
        type1_safe(orders_view(layers@), ordered_view(forward_edges@), ordered_view(reverse_edges@), dummy_edge_start_id, owners@),
        alignment_safe(orders_view(layers@), ordered_view(reverse_edges@)),
    ensures
        (out.root@, out.align@) == vertical_alignment(orders_view(layers@),
            type1_conflicts(orders_view(layers@), ordered_view(forward_edges@), ordered_view(reverse_edges@), dummy_edge_start_id, owners@),
            ordered_view(reverse_edges@)),
        forall|n: NodeID| #[trigger] identity_roots(orders_view(layers@)).contains_key(n) ==>
            out.root@.contains_key(n) && out.align@.contains_key(n),
{
    let ghost ls = orders_view(layers@);
    let ghost rev = ordered_view(reverse_edges@);
    let conflicts = get_type1_conflicts(layers, layer_seqs, forward_edges, reverse_edges, dummy_group_start_id, dummy_edge_start_id, owners);
    let ghost conf = conflict_view(conflicts@);
    let mut root = identity_map(layers);
    let mut align = root.clone();
    if layers.len() == 0 {
        return VerticalAlignment { root, align };
    }
    let mut i: usize = 1;
    while i < layers.len()
        invariant
            ls == orders_view(layers@),
            rev == ordered_view(reverse_edges@),
            conf == conflict_view(conflicts@),
            all_orders(ls),
            alignment_safe(ls, rev),
            layer_seqs.len() == layers.len(),
            forall|i: int| 0 <= i < layers.len() ==> (#[trigger] layer_seqs@[i])@ == order_seq(layers@[i]@),
            1 <= i <= layers.len(),
            (root@, align@) == align_rounds(ls, conf, rev, i as int),
            forall|n: NodeID| #[trigger] identity_roots(ls).contains_key(n) ==> root@.contains_key(n) && align@.contains_key(n),
        decreases layers.len() - i,
    {
        let mut r: isize = -1;
        let layer_seq = &layer_seqs[i];
        let prev_layer = &layers[i - 1];
        let ghost seq = layer_seq@;
        let ghost prev = ls[i - 1];
        let ghost st0: AlignState = (root@, align@, -1int);
        proof {
            assert(prev == prev_layer@);
            assert(seq == order_seq(ls[i as int]));
            crate::layer_orderer::lemma_order_seq(ls[i as int]);
            assert(ls[i as int].dom().len() <= isize::MAX);
            assert(prev.dom().len() <= isize::MAX);
        }
        let mut k: usize = 0;
        while k < layer_seq.len()
            invariant
                ls == orders_view(layers@),
                rev == ordered_view(reverse_edges@),
                conf == conflict_view(conflicts@),
                alignment_safe(ls, rev),
                1 <= i < layers.len(),
                seq == layer_seq@,
                seq == order_seq(ls[i as int]),
                forall|x: int| 0 <= x < seq.len() ==> ls[i as int].contains_key(#[trigger] seq[x]),
                prev == prev_layer@,
                prev == ls[i - 1],
                is_order(prev),
                prev.dom().len() <= isize::MAX,
                k <= layer_seq.len(),
                (root@, align@, r as int) == layer_tries(st0, prev, conf, rev, seq, k as int),
                forall|n: NodeID| #[trigger] identity_roots(ls).contains_key(n) ==> root@.contains_key(n) && align@.contains_key(n),
            decreases layer_seq.len() - k,
        {
            let node = layer_seq[k];
            proof {
                assert(ls[i as int].contains_key(seq[k as int]));
                assert(identity_roots(ls).contains_key(node));
            }
            match reverse_edges.get(&node) {
                Some(upper_neighbors) => {
                    let len = upper_neighbors.len();
                    if len > 0 {
                        let lower_median = (len - 1) / 2;
                        let upper_median = len / 2;
                        let ghost ups = rev[node];
                        assert(upper_neighbors@ == ups);
                        let ghost st_node = (root@, align@, r as int);
                        let mut m: usize = lower_median;
                        while m <= upper_median
                            invariant
                                ls == orders_view(layers@),
                                rev == ordered_view(reverse_edges@),
                                conf == conflict_view(conflicts@),
                                alignment_safe(ls, rev),
                                1 <= i < layers.len(),
                                ls[i as int].contains_key(node),
                                rev.contains_key(node),
                                upper_neighbors@ == ups,
                                ups == rev[node],
                                len == ups.len(),
                                len > 0,
                                lower_median == (len - 1) / 2,
                                upper_median == len / 2,
                                upper_median < len,
                                lower_median <= m <= upper_median + 1,
                                prev == prev_layer@,
                                prev == ls[i - 1],
                                is_order(prev),
                                prev.dom().len() <= isize::MAX,
                                (root@, align@, r as int) == median_tries(st_node, prev, conf, node, ups, lower_median as int, m as int),
                                forall|n: NodeID| #[trigger] identity_roots(ls).contains_key(n) ==> root@.contains_key(n) && align@.contains_key(n),
                                identity_roots(ls).contains_key(node),
                            decreases upper_median + 1 - m,
                        {
                            let free = match align.get(&node) {
                                Some(a) => *a == node,
                                None => false,
                            };
                            if free {
                                let upper_node = upper_neighbors[m];
                                proof {
                                    assert(prev.contains_key(ups[m as int]));
                                    assert(prev[upper_node] < prev.dom().len());
                                    assert(identity_roots(ls).contains_key(upper_node)) by {
                                        assert(ls[i - 1].contains_key(upper_node));
                                    }
                                }
                                let pos = *prev_layer.get(&upper_node).unwrap() as isize;
                                if !has_conflict(&conflicts, upper_node, node) && r < pos {
                                    align.insert(upper_node, node);
                                    let upper_root = *root.get(&upper_node).unwrap();
                                    root.insert(node, upper_root);
                                    let node_root = *root.get(&node).unwrap();
                                    align.insert(node, node_root);
                                    r = pos;
                                }
                            }
                            m = m + 1;
                        }
                    }
                },
                None => {},
            }
            k = k + 1;
        }
        proof {
            assert(seq.len() == layer_seq.len());
        }
        i = i + 1;
    }
    VerticalAlignment { root, align }
}

} // verus!
