use vstd::prelude::*;
use crate::layer_orderer::{
    NodeID, Order, EdgeMap, is_order, order_seq, edge_view, edge_index_seq, weight_sum,
    get_sequence, edge_index_seq_for, order_from_sequence, seq_order, lemma_order_seq, lemma_seq_order,
    lemma_orders_equal, crossings, count_crossings, swap_edges, swapped, LayerOrderer, groups_view,
    groups_well_formed, groups_in_layer_order,
};

verus! {

broadcast use vstd::std_specs::hash::group_hash_axioms;

/// A barycenter `sum / total`: the weighted average position of the neighbours of a node.
#[derive(Clone, Copy, Debug)]
pub struct Barycenter {
    pub sum: usize,
    pub total: usize,
}

impl Barycenter {
    /// The barycenter as a fraction (numerator, denominator).
    pub open spec fn frac(self) -> (nat, nat) {
        (self.sum as nat, self.total as nat)
    }
}

/// `a < b` for fractions with positive denominators.
pub open spec fn frac_lt(a: (nat, nat), b: (nat, nat)) -> bool {
    a.0 * b.1 < b.0 * a.1
}

/// `a == b` for fractions with positive denominators.
pub open spec fn frac_eq(a: (nat, nat), b: (nat, nat)) -> bool {
    a.0 * b.1 == b.0 * a.1
}

/// The sum of position times weight over (position, weight) pairs.
pub open spec fn pos_weight_sum(b: Seq<(usize, usize)>) -> nat
    decreases b.len(),
{
    if b.len() == 0 {
        0
    } else {
        pos_weight_sum(b.drop_last()) + (b.last().0 as nat) * (b.last().1 as nat)
    }
}

/// The barycenter of `node` with respect to the layer listed by `next`: the weighted
/// positions of its neighbours there over their total weight; `0 / 1` for a node without edges.
pub open spec fn bary_of(ev: Map<NodeID, Map<NodeID, usize>>, node: NodeID, next: Seq<NodeID>) -> (nat, nat) {
    if ev.contains_key(node) {
        let ps = edge_index_seq(ev[node], next);
        (pos_weight_sum(ps), weight_sum(ps))
    } else {
        (0, 1)
    }
}

/// The barycenter of `node` is a fraction with a positive denominator whose parts fit in a `usize`.
pub open spec fn bary_defined(ev: Map<NodeID, Map<NodeID, usize>>, node: NodeID, next: Seq<NodeID>) -> bool {
    ev.contains_key(node) ==> {
        let ps = edge_index_seq(ev[node], next);
        &&& 0 < weight_sum(ps) <= usize::MAX
        &&& pos_weight_sum(ps) <= usize::MAX
    }
}

/// The barycenters of all nodes of `layer` (a set of nodes) are defined.
pub open spec fn layer_bary_defined(layer: Map<NodeID, usize>, ev: Map<NodeID, Map<NodeID, usize>>, next: Seq<NodeID>) -> bool {
    forall|n: NodeID| #[trigger] layer.contains_key(n) ==> bary_defined(ev, n, next)
}

pub(crate) proof fn lemma_frac_props(a: (nat, nat), b: (nat, nat), c: (nat, nat))
    requires
        a.1 > 0,
        b.1 > 0,
        c.1 > 0,
    ensures
        frac_lt(a, b) ==> !frac_lt(b, a) && !frac_eq(a, b),
        !frac_lt(a, b) && !frac_lt(b, a) ==> frac_eq(a, b),
        frac_eq(a, b) ==> frac_eq(b, a),
        frac_lt(a, b) && frac_lt(b, c) ==> frac_lt(a, c),
        frac_lt(a, b) && frac_eq(b, c) ==> frac_lt(a, c),
        frac_eq(a, b) && frac_lt(b, c) ==> frac_lt(a, c),
        frac_eq(a, b) && frac_eq(b, c) ==> frac_eq(a, c),
{
    let (x, p) = a;
    let (y, q) = b;
    let (z, r) = c;
    assert(x * q < y * p && y * r < z * q ==> x * r < z * p) by (nonlinear_arith)
        requires p > 0, q > 0, r > 0;
    assert(x * q < y * p && y * r == z * q ==> x * r < z * p) by (nonlinear_arith)
        requires p > 0, q > 0, r > 0;
    assert(x * q == y * p && y * r < z * q ==> x * r < z * p) by (nonlinear_arith)
        requires p > 0, q > 0, r > 0;
    assert(x * q == y * p && y * r == z * q ==> x * r == z * p) by (nonlinear_arith)
        requires p > 0, q > 0, r > 0;
}

/// `a < b` for barycenters.
pub fn barycenter_less(a: &Barycenter, b: &Barycenter) -> (out: bool)
    ensures
        out == frac_lt(a.frac(), b.frac()),
{
    proof {
        let m = usize::MAX as int;
        assert(m <= 0xffff_ffff_ffff_ffff);
        assert(a.sum * b.total <= 0xffff_ffff_ffff_ffff * 0xffff_ffff_ffff_ffffint) by (nonlinear_arith)
            requires a.sum <= 0xffff_ffff_ffff_ffffint, b.total <= 0xffff_ffff_ffff_ffffint;
        assert(b.sum * a.total <= 0xffff_ffff_ffff_ffff * 0xffff_ffff_ffff_ffffint) by (nonlinear_arith)
            requires b.sum <= 0xffff_ffff_ffff_ffffint, a.total <= 0xffff_ffff_ffff_ffffint;
    }
    (a.sum as u128) * (b.total as u128) < (b.sum as u128) * (a.total as u128)
}

/// `a == b` for barycenters, as fractions.
pub fn barycenter_equal(a: &Barycenter, b: &Barycenter) -> (out: bool)
    ensures
        out == frac_eq(a.frac(), b.frac()),
{
    proof {
        assert(a.sum * b.total <= 0xffff_ffff_ffff_ffff * 0xffff_ffff_ffff_ffffint) by (nonlinear_arith)
            requires a.sum <= 0xffff_ffff_ffff_ffffint, b.total <= 0xffff_ffff_ffff_ffffint;
        assert(b.sum * a.total <= 0xffff_ffff_ffff_ffff * 0xffff_ffff_ffff_ffffint) by (nonlinear_arith)
            requires b.sum <= 0xffff_ffff_ffff_ffffint, a.total <= 0xffff_ffff_ffff_ffffint;
    }
    (a.sum as u128) * (b.total as u128) == (b.sum as u128) * (a.total as u128)
}

proof fn lemma_pos_weight_sum_take(b: Seq<(usize, usize)>, j: int)
    requires
        0 <= j < b.len(),
    ensures
        pos_weight_sum(b.take(j + 1)) == pos_weight_sum(b.take(j)) + (b[j].0 as nat) * (b[j].1 as nat),
        weight_sum(b.take(j + 1)) == weight_sum(b.take(j)) + b[j].1,
{
    assert(b.take(j + 1).drop_last() =~= b.take(j));
}

proof fn lemma_sums_mono(b: Seq<(usize, usize)>, i: int, j: int)
    requires
        0 <= i <= j <= b.len(),
    ensures
        pos_weight_sum(b.take(i)) <= pos_weight_sum(b.take(j)),
        weight_sum(b.take(i)) <= weight_sum(b.take(j)),
    decreases j - i,
{
    if i < j {
        lemma_sums_mono(b, i, j - 1);
        lemma_pos_weight_sum_take(b, j - 1);
    }
}

/// The barycenter of a node over the layer listed (by position) in `next`.
fn barycenter_over(node: NodeID, next: &Vec<NodeID>, edges: &EdgeMap) -> (out: Barycenter)
    requires
        bary_defined(edge_view(edges@), node, next@),
    ensures
        out.frac() == bary_of(edge_view(edges@), node, next@),
        out.total > 0,
{
    let ghost ev = edge_view(edges@);
    let Some(weights) = edges.get(&node) else {
        return Barycenter { sum: 0, total: 1 };
    };
    let pairs = edge_index_seq_for(weights, next);
    let ghost ps = pairs@;
    assert(ps == edge_index_seq(ev[node], next@));
    let mut sum: usize = 0;
    let mut total_weights: usize = 0;
    let mut k: usize = 0;
    assert(ps.take(0) =~= Seq::<(usize, usize)>::empty());
    assert(ps.take(ps.len() as int) =~= ps);
    while k < pairs.len()
        invariant
            ps == pairs@,
            pos_weight_sum(ps) <= usize::MAX,
            weight_sum(ps) <= usize::MAX,
            ps.take(ps.len() as int) == ps,
            k <= ps.len(),
            sum == pos_weight_sum(ps.take(k as int)),
            total_weights == weight_sum(ps.take(k as int)),
        decreases ps.len() - k,
    {
        let (pos, weight) = pairs[k];
        proof {
            lemma_pos_weight_sum_take(ps, k as int);
            lemma_sums_mono(ps, k + 1, ps.len() as int);
        }
        sum = sum + pos * weight;
        total_weights = total_weights + weight;
        k = k + 1;
    }
    Barycenter { sum, total: total_weights }
}

/// The barycenter of a node with respect to the nodes of another layer.
pub fn get_barycenter(node: NodeID, other_layer: &Order, edges: &EdgeMap) -> (out: Barycenter)
    requires
        is_order(other_layer@),
        bary_defined(edge_view(edges@), node, order_seq(other_layer@)),
    ensures
        out.frac() == bary_of(edge_view(edges@), node, order_seq(other_layer@)),
        out.total > 0,
{
    let next = get_sequence(other_layer);
    barycenter_over(node, &next, edges)
}

/// The barycenters of the nodes of `layer` (listed by position) over the layer `next`.
fn layer_barycenters(layer: &Vec<NodeID>, next: &Vec<NodeID>, edges: &EdgeMap) -> (out: Vec<Barycenter>)
    requires
        forall|i: int| 0 <= i < layer.len() ==> bary_defined(edge_view(edges@), #[trigger] layer@[i], next@),
    ensures
        out.len() == layer.len(),
        forall|i: int| 0 <= i < layer.len() ==> (#[trigger] out@[i]).frac() == bary_of(edge_view(edges@), layer@[i], next@) && out@[i].total > 0,
{
    let mut out: Vec<Barycenter> = Vec::new();
    let mut i: usize = 0;
    while i < layer.len()
        invariant
            forall|i: int| 0 <= i < layer.len() ==> bary_defined(edge_view(edges@), #[trigger] layer@[i], next@),
            i <= layer.len(),
            out.len() == i,
            forall|j: int| 0 <= j < i ==> (#[trigger] out@[j]).frac() == bary_of(edge_view(edges@), layer@[j], next@) && out@[j].total > 0,
        decreases layer.len() - i,
    {
        let b = barycenter_over(layer[i], next, edges);
        out.push(b);
        i = i + 1;
    }
    out
}


/// `u` comes before `v` when sorting `layer` by barycenter over `next`, ties kept in layer order.
pub open spec fn bary_key_lt(
    layer: Map<NodeID, usize>,
    next: Seq<NodeID>,
    ev: Map<NodeID, Map<NodeID, usize>>,
    u: NodeID,
    v: NodeID,
) -> bool {
    let bu = bary_of(ev, u, next);
    let bv = bary_of(ev, v, next);
    frac_lt(bu, bv) || (frac_eq(bu, bv) && layer[u] < layer[v])
}

/// `out` orders the nodes of `layer` by increasing barycenter over `next`, keeping the
/// layer's order between nodes with equal barycenters.
pub open spec fn sorted_by_barycenter(
    out: Map<NodeID, usize>,
    layer: Map<NodeID, usize>,
    next: Seq<NodeID>,
    ev: Map<NodeID, Map<NodeID, usize>>,
) -> bool {
    &&& is_order(out)
    &&& out.dom() == layer.dom()
    &&& forall|u: NodeID, v: NodeID| layer.contains_key(u) && layer.contains_key(v) ==>
        (#[trigger] out[u] < #[trigger] out[v] <==> bary_key_lt(layer, next, ev, u, v))
}

/// The order of `layer` sorted by barycenter over the layer `other` (stable).
pub open spec fn barycenter_order(
    layer: Map<NodeID, usize>,
    other: Map<NodeID, usize>,
    ev: Map<NodeID, Map<NodeID, usize>>,
) -> Map<NodeID, usize> {
    choose|m: Map<NodeID, usize>| sorted_by_barycenter(m, layer, order_seq(other), ev)
}

/// The barycenter ordering is determined by its defining property.
pub proof fn lemma_barycenter_order_unique(
    m: Map<NodeID, usize>,
    layer: Map<NodeID, usize>,
    other: Map<NodeID, usize>,
    ev: Map<NodeID, Map<NodeID, usize>>,
)
    requires
        sorted_by_barycenter(m, layer, order_seq(other), ev),
    ensures
        barycenter_order(layer, other, ev) == m,
{
    let c = barycenter_order(layer, other, ev);
    assert(sorted_by_barycenter(c, layer, order_seq(other), ev));
    assert forall|u: NodeID, v: NodeID| m.contains_key(u) && m.contains_key(v) implies
        (#[trigger] m[u] < #[trigger] m[v] <==> c[u] < c[v]) by {
        assert(m[u] < m[v] <==> bary_key_lt(layer, order_seq(other), ev, u, v));
        assert(c[u] < c[v] <==> bary_key_lt(layer, order_seq(other), ev, u, v));
    }
    lemma_orders_equal(m, c);
}

/// Item `x` sorts before item `y` (items are positions in the layer with barycenters `bs`).
spec fn item_lt(bs: Seq<Barycenter>, x: usize, y: usize) -> bool {
    frac_lt(bs[x as int].frac(), bs[y as int].frac()) || (frac_eq(bs[x as int].frac(), bs[y as int].frac()) && x < y)
}

/// Sorts the positions `0..bs.len()` by barycenter, ties by position.
fn sort_by_barycenter(bs: &Vec<Barycenter>) -> (out: Vec<usize>)
    requires
        forall|i: int| 0 <= i < bs.len() ==> (#[trigger] bs@[i]).total > 0,
    ensures
        out.len() == bs.len(),
        out@.no_duplicates(),
        forall|a: int| 0 <= a < out.len() ==> (#[trigger] out@[a]) < bs.len(),
        forall|x: usize| x < bs.len() ==> out@.contains(x),
        forall|a: int, b: int| 0 <= a < b < out.len() ==> item_lt(bs@, #[trigger] out@[a], #[trigger] out@[b]),
{
    let mut sorted: Vec<usize> = Vec::new();
    let mut i: usize = 0;
    while i < bs.len()
        invariant
            forall|i: int| 0 <= i < bs.len() ==> (#[trigger] bs@[i]).total > 0,
            i <= bs.len(),
            sorted.len() == i,
            sorted@.no_duplicates(),
            forall|a: int| 0 <= a < sorted.len() ==> (#[trigger] sorted@[a]) < i,
            forall|x: usize| x < i ==> sorted@.contains(x),
            forall|a: int, b: int| 0 <= a < b < sorted.len() ==> item_lt(bs@, #[trigger] sorted@[a], #[trigger] sorted@[b]),
        decreases bs.len() - i,
    {
        let mut pos: usize = 0;
        while pos < sorted.len() && !barycenter_less(&bs[i], &bs[sorted[pos]])
            invariant
                forall|i: int| 0 <= i < bs.len() ==> (#[trigger] bs@[i]).total > 0,
                i < bs.len(),
                sorted.len() == i,
                forall|a: int| 0 <= a < sorted.len() ==> (#[trigger] sorted@[a]) < i,
                pos <= sorted.len(),
                forall|a: int| 0 <= a < pos ==> !frac_lt(bs@[i as int].frac(), bs@[#[trigger] sorted@[a] as int].frac()),
            decreases sorted.len() - pos,
        {
            pos = pos + 1;
        }
        proof {
            // everything from `pos` on has a larger barycenter than item `i`
            if pos < sorted.len() {
                assert(frac_lt(bs@[i as int].frac(), bs@[sorted@[pos as int] as int].frac()));
                assert forall|b: int| pos <= b < sorted.len() implies frac_lt(bs@[i as int].frac(), bs@[#[trigger] sorted@[b] as int].frac()) by {
                    if b > pos {
                        let x = sorted@[pos as int];
                        let y = sorted@[b];
                        assert(item_lt(bs@, x, y));
                        lemma_frac_props(bs@[i as int].frac(), bs@[x as int].frac(), bs@[y as int].frac());
                    }
                }
            }
        }
        let ghost old_sorted = sorted@;
        sorted.insert(pos, i);
        proof {
            let ns = sorted@;
            assert(ns == old_sorted.insert(pos as int, i));
            assert forall|a: int| 0 <= a < ns.len() implies (#[trigger] ns[a]) < i + 1 by {
                if a < pos { assert(ns[a] == old_sorted[a]); } else if a > pos { assert(ns[a] == old_sorted[a - 1]); }
            }
            assert forall|a: int, b: int| 0 <= a < b < ns.len() implies item_lt(bs@, #[trigger] ns[a], #[trigger] ns[b]) by {
                if a < pos && b < pos {
                    assert(ns[a] == old_sorted[a] && ns[b] == old_sorted[b]);
                } else if a < pos && b == pos {
                    assert(ns[a] == old_sorted[a]);
                    assert(!frac_lt(bs@[i as int].frac(), bs@[old_sorted[a] as int].frac()));
                    lemma_frac_props(bs@[i as int].frac(), bs@[old_sorted[a] as int].frac(), bs@[i as int].frac());
                } else if a < pos && b > pos {
                    assert(ns[a] == old_sorted[a] && ns[b] == old_sorted[b - 1]);
                } else if a == pos {
                    assert(ns[b] == old_sorted[b - 1]);
                } else {
                    assert(ns[a] == old_sorted[a - 1] && ns[b] == old_sorted[b - 1]);
                }
            }
            assert forall|a: int, b: int| 0 <= a < ns.len() && 0 <= b < ns.len() && a != b implies ns[a] != ns[b] by {
                if a != pos && b != pos {
                    let oa = if a < pos { a } else { a - 1 };
                    let ob = if b < pos { b } else { b - 1 };
                    assert(ns[a] == old_sorted[oa] && ns[b] == old_sorted[ob]);
                } else if a == pos {
                    let ob = if b < pos { b } else { b - 1 };
                    assert(ns[b] == old_sorted[ob]);
                } else {
                    let oa = if a < pos { a } else { a - 1 };
                    assert(ns[a] == old_sorted[oa]);
                }
            }
            assert forall|x: usize| x < i + 1 implies ns.contains(x) by {
                if x == i {
                    assert(ns[pos as int] == i);
                } else {
                    assert(old_sorted.contains(x));
                    let a = choose|a: int| 0 <= a < old_sorted.len() && old_sorted[a] == x;
                    if a < pos { assert(ns[a] == x); } else { assert(ns[a + 1] == x); }
                }
            }
        }
        i = i + 1;
    }
    sorted
}

/// Orders `layer` by the barycenters of its nodes over `next_layer`, keeping the current
/// order between nodes with equal barycenters.
pub fn apply_single_barycenter_order(layer: &Order, next_layer: &Order, edges: &EdgeMap) -> (out: Order)
    requires
        is_order(layer@),
        is_order(next_layer@),
        layer_bary_defined(layer@, edge_view(edges@), order_seq(next_layer@)),
    ensures
        sorted_by_barycenter(out@, layer@, order_seq(next_layer@), edge_view(edges@)),
        out@ == barycenter_order(layer@, next_layer@, edge_view(edges@)),
{
    let ghost ev = edge_view(edges@);
    let seq = get_sequence(layer);
    let next = get_sequence(next_layer);
    proof {
        lemma_order_seq(layer@);
        assert forall|i: int| 0 <= i < seq.len() implies bary_defined(ev, #[trigger] seq@[i], next@) by {
            assert(layer@.contains_key(seq@[i]));
        }
    }
    let bs = layer_barycenters(&seq, &next, edges);
    let sorted = sort_by_barycenter(&bs);
    let mut nodes: Vec<NodeID> = Vec::new();
    let mut k: usize = 0;
    while k < sorted.len()
        invariant
            sorted.len() == seq.len(),
            forall|a: int| 0 <= a < sorted.len() ==> (#[trigger] sorted@[a]) < seq.len(),
            k <= sorted.len(),
            nodes.len() == k,
            forall|a: int| 0 <= a < k ==> #[trigger] nodes@[a] == seq@[sorted@[a] as int],
        decreases sorted.len() - k,
    {
        nodes.push(seq[sorted[k]]);
        k = k + 1;
    }
    proof {
        assert forall|a: int, b: int| 0 <= a < nodes.len() && 0 <= b < nodes.len() && a != b implies nodes@[a] != nodes@[b] by {
            assert(sorted@[a] != sorted@[b]);
            assert(seq@[sorted@[a] as int] != seq@[sorted@[b] as int]);
        }
    }
    let out = order_from_sequence(&nodes);
    proof {
        let l = layer@;
        let nx = order_seq(next_layer@);
        assert forall|n: NodeID| out@.contains_key(n) <==> l.contains_key(n) by {
            if l.contains_key(n) {
                let x = l[n] as usize;
                assert(seq@[x as int] == n);
                assert(x < bs.len());
                assert(sorted@.contains(x));
                let a = choose|a: int| 0 <= a < sorted.len() && sorted@[a] == x;
                assert(nodes@[a] == n);
                assert(nodes@.to_set().contains(n));
            }
            if out@.contains_key(n) {
                assert(nodes@.to_set().contains(n));
                let a = choose|a: int| 0 <= a < nodes.len() && nodes@[a] == n;
                assert(l.contains_key(seq@[sorted@[a] as int]));
            }
        }
        assert(out@.dom() =~= l.dom());
        assert forall|u: NodeID, v: NodeID| l.contains_key(u) && l.contains_key(v) implies
            (#[trigger] out@[u] < #[trigger] out@[v] <==> bary_key_lt(l, nx, ev, u, v)) by {
            let x = l[u] as usize;
            let y = l[v] as usize;
            assert(seq@[x as int] == u && seq@[y as int] == v);
            assert(sorted@.contains(x));
            assert(sorted@.contains(y));
            let a = choose|a: int| 0 <= a < sorted.len() && sorted@[a] == x;
            let b = choose|b: int| 0 <= b < sorted.len() && sorted@[b] == y;
            assert(nodes@[a] == u && nodes@[b] == v);
            assert(out@[u] == a && out@[v] == b);
            assert(bs@[x as int].frac() == bary_of(ev, u, nx));
            assert(bs@[y as int].frac() == bary_of(ev, v, nx));
            lemma_frac_props(bs@[x as int].frac(), bs@[y as int].frac(), bs@[x as int].frac());
            if a < b {
                assert(item_lt(bs@, sorted@[a], sorted@[b]));
            } else if b < a {
                assert(item_lt(bs@, sorted@[b], sorted@[a]));
            }
        }
        lemma_barycenter_order_unique(out@, l, next_layer@, ev);
    }
    out
}


/// The barycenters over `next` of the nodes listed in `layer`.
pub open spec fn bary_seq(layer: Seq<NodeID>, next: Seq<NodeID>, ev: Map<NodeID, Map<NodeID, usize>>) -> Seq<(nat, nat)> {
    layer.map_values(|n: NodeID| bary_of(ev, n, next))
}

/// No barycenter in the sequence is smaller than the one before it.
pub open spec fn frac_nondecreasing(bs: Seq<(nat, nat)>) -> bool {
    forall|i: int| 0 < i < bs.len() ==> !frac_lt(#[trigger] bs[i], bs[i - 1])
}

/// Every barycenter in the sequence is larger than the one before it.
pub open spec fn frac_increasing(bs: Seq<(nat, nat)>) -> bool {
    forall|i: int| 0 < i < bs.len() ==> frac_lt(bs[i - 1], #[trigger] bs[i])
}

/// Checks whether the nodes of `layer` are ordered by non-decreasing barycenter over `other_layer`.
pub fn is_barycenter_sorted(layer: &Order, other_layer: &Order, edges: &EdgeMap) -> (out: bool)
    requires
        is_order(layer@),
        is_order(other_layer@),
        layer_bary_defined(layer@, edge_view(edges@), order_seq(other_layer@)),
    ensures
        out == frac_nondecreasing(bary_seq(order_seq(layer@), order_seq(other_layer@), edge_view(edges@))),
{
    let ghost ev = edge_view(edges@);
    let seq = get_sequence(layer);
    let next = get_sequence(other_layer);
    proof {
        lemma_order_seq(layer@);
        assert forall|i: int| 0 <= i < seq.len() implies bary_defined(ev, #[trigger] seq@[i], next@) by {
            assert(layer@.contains_key(seq@[i]));
        }
    }
    let ghost bsv = bary_seq(seq@, next@, ev);
    assert(bsv == bary_seq(order_seq(layer@), order_seq(other_layer@), ev));
    let bs = layer_barycenters(&seq, &next, edges);
    if bs.len() == 0 {
        return true;
    }
    let mut i: usize = 1;
    while i < bs.len()
        invariant
            bsv == bary_seq(seq@, next@, ev),
            bsv == bary_seq(order_seq(layer@), order_seq(other_layer@), edge_view(edges@)),
            bs.len() == seq.len(),
            forall|j: int| 0 <= j < seq.len() ==> (#[trigger] bs@[j]).frac() == bary_of(ev, seq@[j], next@),
            1 <= i <= bs.len(),
            forall|j: int| 0 < j < i ==> !frac_lt(#[trigger] bsv[j], bsv[j - 1]),
        decreases bs.len() - i,
    {
        assert(bsv[i as int] == bs@[i as int].frac() && bsv[i - 1] == bs@[i - 1].frac());
        if barycenter_less(&bs[i], &bs[i - 1]) {
            assert(frac_lt(bsv[i as int], bsv[i - 1]));
            assert(!frac_nondecreasing(bsv));
            return false;
        }
        i = i + 1;
    }
    true
}

/// Checks whether the barycenters over `other_layer` strictly increase along `layer`, which
/// must hold at least one node.
pub fn are_barycenters_increasing(layer: &Order, other_layer: &Order, edges: &EdgeMap) -> (out: bool)
    requires
        is_order(layer@),
        is_order(other_layer@),
        layer@.len() > 0,
        layer_bary_defined(layer@, edge_view(edges@), order_seq(other_layer@)),
    ensures
        out == frac_increasing(bary_seq(order_seq(layer@), order_seq(other_layer@), edge_view(edges@))),
{
    let ghost ev = edge_view(edges@);
    let seq = get_sequence(layer);
    let next = get_sequence(other_layer);
    proof {
        lemma_order_seq(layer@);
        assert forall|i: int| 0 <= i < seq.len() implies bary_defined(ev, #[trigger] seq@[i], next@) by {
            assert(layer@.contains_key(seq@[i]));
        }
    }
    let ghost bsv = bary_seq(seq@, next@, ev);
    assert(bsv == bary_seq(order_seq(layer@), order_seq(other_layer@), ev));
    let bs = layer_barycenters(&seq, &next, edges);
    let mut i: usize = 1;
    while i < bs.len()
        invariant
            bsv == bary_seq(seq@, next@, ev),
            bsv == bary_seq(order_seq(layer@), order_seq(other_layer@), edge_view(edges@)),
            bs.len() == seq.len(),
            forall|j: int| 0 <= j < seq.len() ==> (#[trigger] bs@[j]).frac() == bary_of(ev, seq@[j], next@),
            1 <= i <= bs.len(),
            forall|j: int| 0 < j < i ==> frac_lt(bsv[j - 1], #[trigger] bsv[j]),
        decreases bs.len() - i,
    {
        assert(bsv[i as int] == bs@[i as int].frac() && bsv[i - 1] == bs@[i - 1].frac());
        if !barycenter_less(&bs[i - 1], &bs[i]) {
            assert(!frac_lt(bsv[i - 1], bsv[i as int]));
            assert(!frac_increasing(bsv));
            return false;
        }
        i = i + 1;
    }
    true
}

/// A layer sorted by barycenter has non-decreasing barycenters, so
/// `is_barycenter_sorted` holds of the result of `apply_single_barycenter_order`.
pub proof fn law_barycenter_order_is_sorted(
    m: Map<NodeID, usize>,
    layer: Map<NodeID, usize>,
    other: Map<NodeID, usize>,
    ev: Map<NodeID, Map<NodeID, usize>>,
)
    requires
        sorted_by_barycenter(m, layer, order_seq(other), ev),
        layer_bary_defined(layer, ev, order_seq(other)),
    ensures
        frac_nondecreasing(bary_seq(order_seq(m), order_seq(other), ev)),
{
    let nx = order_seq(other);
    let sq = order_seq(m);
    lemma_order_seq(m);
    let bsv = bary_seq(sq, nx, ev);
    assert forall|i: int| 0 < i < bsv.len() implies !frac_lt(#[trigger] bsv[i], bsv[i - 1]) by {
        assert(0 <= i - 1 < m.dom().len());
        assert(bsv.len() == m.dom().len());
        assert(m.contains_key(order_seq(m)[i - 1]));
        assert(m[order_seq(m)[i - 1]] == i - 1);
        assert(m.contains_key(order_seq(m)[i]));
        assert(m[order_seq(m)[i]] == i);
        let u = sq[i - 1];
        let v = sq[i];
        assert(layer.contains_key(u) && layer.contains_key(v));
        assert(bary_key_lt(layer, nx, ev, u, v));
        assert(bary_defined(ev, u, nx) && bary_defined(ev, v, nx));
        lemma_frac_props(bary_of(ev, u, nx), bary_of(ev, v, nx), bary_of(ev, u, nx));
    }
}

/// The nodes of `layer` whose barycenter over `next` equals that of `n`, in layer order.
pub open spec fn bary_class(layer: Map<NodeID, usize>, next: Seq<NodeID>, ev: Map<NodeID, Map<NodeID, usize>>, n: NodeID) -> Seq<NodeID> {
    order_seq(layer).filter(same_bary(ev, next, n))
}

/// Whether a node has the barycenter over `next` that `n` has.
pub open spec fn same_bary(ev: Map<NodeID, Map<NodeID, usize>>, next: Seq<NodeID>, n: NodeID) -> spec_fn(NodeID) -> bool {
    |v: NodeID| frac_eq(bary_of(ev, v, next), bary_of(ev, n, next))
}

/// `n` shares its barycenter over `next` with another node of `layer`, and comes first in the
/// layer among the nodes with that barycenter.
pub open spec fn leads_equal_group(layer: Map<NodeID, usize>, next: Seq<NodeID>, ev: Map<NodeID, Map<NodeID, usize>>, n: NodeID) -> bool {
    &&& forall|v: NodeID| #[trigger] layer.contains_key(v) && frac_eq(bary_of(ev, v, next), bary_of(ev, n, next)) ==> layer[n] <= layer[v]
    &&& exists|v: NodeID| #[trigger] layer.contains_key(v) && v != n && frac_eq(bary_of(ev, v, next), bary_of(ev, n, next))
}

/// Every set of two or more nodes of `layer` with equal barycenters over `other`, as a group
/// listed in layer order; the groups come in the layer order of their first nodes.
pub open spec fn equal_barycenter_groups(layer: Map<NodeID, usize>, other: Map<NodeID, usize>, ev: Map<NodeID, Map<NodeID, usize>>) -> Seq<Seq<NodeID>> {
    order_seq(layer).filter(|n: NodeID| leads_equal_group(layer, order_seq(other), ev, n))
        .map_values(|n: NodeID| bary_class(layer, order_seq(other), ev, n))
}

/// No other barycenter of the sequence equals the one at `j`.
spec fn unique_at(bs: Seq<Barycenter>, j: int) -> bool {
    forall|k: int| 0 <= k < bs.len() && k != j ==> !frac_eq(#[trigger] bs[k].frac(), bs[j].frac())
}

/// No barycenter before position `j` equals the one at `j`.
spec fn first_at(bs: Seq<Barycenter>, j: int) -> bool {
    forall|k: int| 0 <= k < j ==> !frac_eq(#[trigger] bs[k].frac(), bs[j].frac())
}

/// Whether no other barycenter of the sequence equals the one at `i`.
fn is_unique(bs: &Vec<Barycenter>, i: usize) -> (out: bool)
    requires
        i < bs.len(),
    ensures
        out == unique_at(bs@, i as int),
{
    let mut k: usize = 0;
    while k < bs.len()
        invariant
            i < bs.len(),
            k <= bs.len(),
            forall|x: int| 0 <= x < k && x != i ==> !frac_eq(#[trigger] bs@[x].frac(), bs@[i as int].frac()),
        decreases bs.len() - k,
    {
        if k != i && barycenter_equal(&bs[k], &bs[i]) {
            return false;
        }
        k = k + 1;
    }
    true
}

/// Whether no barycenter before position `i` equals the one at `i`.
fn is_first(bs: &Vec<Barycenter>, i: usize) -> (out: bool)
    requires
        i < bs.len(),
    ensures
        out == first_at(bs@, i as int),
{
    let mut k: usize = 0;
    while k < i
        invariant
            i < bs.len(),
            k <= i,
            forall|x: int| 0 <= x < k ==> !frac_eq(#[trigger] bs@[x].frac(), bs@[i as int].frac()),
        decreases i - k,
    {
        if barycenter_equal(&bs[k], &bs[i]) {
            return false;
        }
        k = k + 1;
    }
    true
}

/// A filtered sequence keeps the increasing positions (in `layer`) of its elements.
proof fn lemma_filter_positions(s: Seq<NodeID>, p: spec_fn(NodeID) -> bool, layer: Map<NodeID, usize>)
    requires
        forall|a: int, b: int| 0 <= a < b < s.len() ==> layer[#[trigger] s[a]] < layer[#[trigger] s[b]],
    ensures
        forall|a: int, b: int| 0 <= a < b < s.filter(p).len() ==> layer[#[trigger] s.filter(p)[a]] < layer[#[trigger] s.filter(p)[b]],
    decreases s.len(),
{
    reveal(Seq::filter);
    if s.len() > 0 {
        let d = s.drop_last();
        lemma_filter_positions(d, p, layer);
        let sub = d.filter(p);
        if p(s.last()) {
            let f = sub.push(s.last());
            assert(s.filter(p) == f);
            assert forall|a: int, b: int| 0 <= a < b < f.len() implies layer[#[trigger] f[a]] < layer[#[trigger] f[b]] by {
                if b == f.len() - 1 {
                    assert(f[a] == sub[a]);
                    d.lemma_filter_contains_rev(p, sub[a]);
                    let k = choose|k: int| 0 <= k < d.len() && d[k] == sub[a];
                    assert(d[k] == s[k]);
                } else {
                    assert(f[a] == sub[a] && f[b] == sub[b]);
                }
            }
        }
    }
}

/// The groups of nodes with equal barycenters are disjoint, list distinct nodes of the layer in
/// layer order, and all nodes of a group share one barycenter.
proof fn lemma_equal_barycenter_groups(layer: Map<NodeID, usize>, other: Map<NodeID, usize>, ev: Map<NodeID, Map<NodeID, usize>>)
    requires
        is_order(layer),
        layer_bary_defined(layer, ev, order_seq(other)),
    ensures
        groups_well_formed(equal_barycenter_groups(layer, other, ev), layer),
        groups_in_layer_order(equal_barycenter_groups(layer, other, ev), layer),
        forall|g: int, i: int| 0 <= g < equal_barycenter_groups(layer, other, ev).len() && 0 <= i < equal_barycenter_groups(layer, other, ev)[g].len() ==>
            frac_eq(bary_of(ev, #[trigger] equal_barycenter_groups(layer, other, ev)[g][i], order_seq(other)),
                bary_of(ev, equal_barycenter_groups(layer, other, ev)[g][0], order_seq(other))),
        forall|g: int| 0 <= g < equal_barycenter_groups(layer, other, ev).len() ==> #[trigger] equal_barycenter_groups(layer, other, ev)[g].len() >= 2,
{
    let nx = order_seq(other);
    let s = order_seq(layer);
    lemma_order_seq(layer);
    let pl = |n: NodeID| leads_equal_group(layer, nx, ev, n);
    let leads = s.filter(pl);
    let gs = equal_barycenter_groups(layer, other, ev);
    assert forall|a: int, b: int| 0 <= a < b < s.len() implies layer[#[trigger] s[a]] < layer[#[trigger] s[b]] by {
        assert(layer.contains_key(s[a]) && layer.contains_key(s[b]));
    }
    lemma_filter_positions(s, pl, layer);
    assert(gs.len() == leads.len());
    assert forall|g: int| 0 <= g < gs.len() implies #[trigger] gs[g] == bary_class(layer, nx, ev, leads[g]) by {}
    // Facts about every group.
    assert forall|g: int| 0 <= g < gs.len() implies {
        &&& (#[trigger] gs[g]).len() >= 2
        &&& gs[g][0] == leads[g]
        &&& layer.contains_key(leads[g])
        &&& forall|i: int| 0 <= i < gs[g].len() ==> layer.contains_key(#[trigger] gs[g][i]) &&
                frac_eq(bary_of(ev, gs[g][i], nx), bary_of(ev, leads[g], nx))
        &&& forall|i: int, j: int| 0 <= i < j < gs[g].len() ==> layer[#[trigger] gs[g][i]] < layer[#[trigger] gs[g][j]]
    } by {
        let n = leads[g];
        let pc = same_bary(ev, nx, n);
        let c = s.filter(pc);
        s.lemma_filter_pred(pl, g);
        assert(pl(n));
        s.lemma_filter_contains_rev(pl, n);
        let kn = choose|k: int| 0 <= k < s.len() && s[k] == n;
        assert(layer.contains_key(n));
        lemma_filter_positions(s, pc, layer);
        assert forall|i: int| 0 <= i < c.len() implies layer.contains_key(#[trigger] c[i]) && pc(c[i]) by {
            s.lemma_filter_contains_rev(pc, c[i]);
            s.lemma_filter_pred(pc, i);
        }
        // n itself and another node of its class are in the group.
        assert(pc(s[kn]));
        s.lemma_filter_contains(pc, kn);
        assert(c.contains(n));
        let v = choose|v: NodeID| #[trigger] layer.contains_key(v) && v != n && frac_eq(bary_of(ev, v, nx), bary_of(ev, n, nx));
        assert(s[layer[v] as int] == v);
        assert(pc(s[layer[v] as int]));
        s.lemma_filter_contains(pc, layer[v] as int);
        assert(c.contains(v));
        let iv = choose|i: int| 0 <= i < c.len() && c[i] == v;
        let inn = choose|i: int| 0 <= i < c.len() && c[i] == n;
        assert(iv != inn);
        assert(c.len() >= 2);
        // n comes first.
        if inn != 0 {
            assert(layer[c[0]] < layer[c[inn]]);
            assert(pc(c[0]));
            assert(layer[n] <= layer[c[0]]);
        }
    }
    assert forall|g: int| 0 <= g < gs.len() implies (#[trigger] gs[g]).no_duplicates() by {
        assert forall|i: int, j: int| 0 <= i < gs[g].len() && 0 <= j < gs[g].len() && i != j implies gs[g][i] != gs[g][j] by {
            if i < j { assert(layer[gs[g][i]] < layer[gs[g][j]]); } else { assert(layer[gs[g][j]] < layer[gs[g][i]]); }
        }
    }
    assert forall|g: int, h: int, i: int, j: int|
        0 <= g < gs.len() && 0 <= h < gs.len() && g != h && 0 <= i < gs[g].len() && 0 <= j < gs[h].len() implies
            #[trigger] gs[g][i] != #[trigger] gs[h][j] by {
        if gs[g][i] == gs[h][j] {
            let x = gs[g][i];
            let a = leads[g];
            let b = leads[h];
            assert(gs[g][0] == a && gs[h][0] == b);
            assert(frac_eq(bary_of(ev, x, nx), bary_of(ev, a, nx)));
            assert(frac_eq(bary_of(ev, x, nx), bary_of(ev, b, nx)));
            assert(layer.contains_key(x) && layer.contains_key(a) && layer.contains_key(b));
            assert(bary_defined(ev, x, nx) && bary_defined(ev, a, nx) && bary_defined(ev, b, nx));
            lemma_frac_props(bary_of(ev, x, nx), bary_of(ev, a, nx), bary_of(ev, b, nx));
            lemma_frac_props(bary_of(ev, a, nx), bary_of(ev, x, nx), bary_of(ev, b, nx));
            lemma_frac_props(bary_of(ev, b, nx), bary_of(ev, x, nx), bary_of(ev, a, nx));
            assert(frac_eq(bary_of(ev, a, nx), bary_of(ev, b, nx)));
            assert(frac_eq(bary_of(ev, b, nx), bary_of(ev, a, nx)));
            assert(pl(a) && pl(b));
            assert(layer[a] <= layer[b]);
            assert(layer[b] <= layer[a]);
            if g < h { assert(layer[leads[g]] < layer[leads[h]]); } else { assert(layer[leads[h]] < layer[leads[g]]); }
        }
    }
}

/// Every set of two or more nodes of the layer whose barycenters over the next layer are equal,
/// as a group in layer order; the groups come in the layer order of their first nodes.
pub fn get_equal_barycenter_groups(layer: &Order, next_layer: &Order, edges: &EdgeMap) -> (out: Vec<Vec<NodeID>>)
    requires
        is_order(layer@),
        is_order(next_layer@),
        layer_bary_defined(layer@, edge_view(edges@), order_seq(next_layer@)),
    ensures
        groups_view(out@) == equal_barycenter_groups(layer@, next_layer@, edge_view(edges@)),
        groups_well_formed(groups_view(out@), layer@),
        groups_in_layer_order(groups_view(out@), layer@),
        forall|g: int| 0 <= g < out.len() ==> (#[trigger] out@[g])@.len() >= 2,
        forall|g: int, i: int| 0 <= g < out.len() && 0 <= i < out@[g]@.len() ==>
            frac_eq(bary_of(edge_view(edges@), #[trigger] out@[g]@[i], order_seq(next_layer@)),
                bary_of(edge_view(edges@), out@[g]@[0], order_seq(next_layer@))),
{
    let ghost ev = edge_view(edges@);
    let seq = get_sequence(layer);
    let next = get_sequence(next_layer);
    let ghost nx = next@;
    proof {
        lemma_order_seq(layer@);
        assert forall|i: int| 0 <= i < seq.len() implies bary_defined(ev, #[trigger] seq@[i], next@) by {
            assert(layer@.contains_key(seq@[i]));
        }
    }
    let bs = layer_barycenters(&seq, &next, edges);
    let mut out: Vec<Vec<NodeID>> = Vec::new();
    let ghost pl = |n: NodeID| leads_equal_group(layer@, nx, ev, n);
    let ghost fc = |n: NodeID| bary_class(layer@, nx, ev, n);
    proof {
        assert(seq@ == order_seq(layer@));
        assert forall|j: int| 0 <= j < seq.len() implies (first_at(bs@, j) && !unique_at(bs@, j)) == #[trigger] pl(seq@[j]) by {
            let n = seq@[j];
            assert(0 <= j < layer@.dom().len());
            assert(layer@.contains_key(order_seq(layer@)[j]));
            assert(layer@[order_seq(layer@)[j]] == j);
            if first_at(bs@, j) {
                assert forall|v: NodeID| #[trigger] layer@.contains_key(v) && frac_eq(bary_of(ev, v, nx), bary_of(ev, n, nx)) implies layer@[n] <= layer@[v] by {
                    let k = layer@[v] as int;
                    assert(seq@[k] == v);
                    if k < j {
                        assert(!frac_eq(bs@[k].frac(), bs@[j].frac()));
                    }
                }
            } else {
                let k = choose|k: int| 0 <= k < j && frac_eq(#[trigger] bs@[k].frac(), bs@[j].frac());
                assert(layer@.contains_key(seq@[k]));
                assert(layer@[seq@[k]] == k);
            }
            if !unique_at(bs@, j) {
                let k = choose|k: int| 0 <= k < bs.len() && k != j && frac_eq(#[trigger] bs@[k].frac(), bs@[j].frac());
                assert(layer@.contains_key(seq@[k]));
                assert(seq@[k] != seq@[j]);
            } else {
                assert forall|v: NodeID| #[trigger] layer@.contains_key(v) && v != n implies !frac_eq(bary_of(ev, v, nx), bary_of(ev, n, nx)) by {
                    let k = layer@[v] as int;
                    assert(seq@[k] == v);
                    assert(!frac_eq(bs@[k].frac(), bs@[j].frac()));
                }
            }
        }
        assert(seq@.take(0) =~= Seq::<NodeID>::empty());
        reveal(Seq::filter);
        assert(groups_view(out@) =~= seq@.take(0).filter(pl).map_values(fc));
    }
    let mut i: usize = 0;
    while i < seq.len()
        invariant
            forall|j: int| 0 <= j < seq.len() ==> (first_at(bs@, j) && !unique_at(bs@, j)) == #[trigger] pl(seq@[j]),
            forall|j: int| 0 <= j < seq.len() ==> (#[trigger] bs@[j]).frac() == bary_of(ev, seq@[j], nx),
            groups_view(out@) == seq@.take(i as int).filter(pl).map_values(fc),
            seq@ == order_seq(layer@),
            bs.len() == seq.len(),
            i <= seq.len(),
            pl == (|n: NodeID| leads_equal_group(layer@, nx, ev, n)),
            fc == (|n: NodeID| bary_class(layer@, nx, ev, n)),
        decreases seq.len() - i,
    {
        let leads = is_first(&bs, i) && !is_unique(&bs, i);
        let ghost old_out = out@;
        if leads {
            let ghost pc = same_bary(ev, nx, seq@[i as int]);
            let mut group: Vec<NodeID> = Vec::new();
            let mut j: usize = 0;
            proof {
                assert(seq@.take(0) =~= Seq::<NodeID>::empty());
                assert(group@ =~= seq@.take(0).filter(pc));
            }
            while j < seq.len()
                invariant
                    forall|j: int| 0 <= j < seq.len() ==> (#[trigger] bs@[j]).frac() == bary_of(ev, seq@[j], nx),
                    bs.len() == seq.len(),
                    i < seq.len(),
                    j <= seq.len(),
                    group@ == seq@.take(j as int).filter(pc),
                    pc == same_bary(ev, nx, seq@[i as int]),
                decreases seq.len() - j,
            {
                let equal = barycenter_equal(&bs[j], &bs[i]);
                proof {
                    seq@.lemma_take_succ_push(j as int);
                    seq@.take(j as int).lemma_filter_push(seq@[j as int], pc);
                    assert(bs@[j as int].frac() == bary_of(ev, seq@[j as int], nx));
                    assert(bs@[i as int].frac() == bary_of(ev, seq@[i as int], nx));
                    assert(equal == pc(seq@[j as int]));
                }
                if equal {
                    group.push(seq[j]);
                }
                j = j + 1;
            }
            proof {
                assert(seq@.take(seq.len() as int) =~= seq@);
                assert(group@ == fc(seq@[i as int]));
            }
            out.push(group);
        }
        proof {
            seq@.lemma_take_succ_push(i as int);
            seq@.take(i as int).lemma_filter_push(seq@[i as int], pl);
            assert(leads == pl(seq@[i as int]));
            let ghost prev = seq@.take(i as int).filter(pl);
            if leads {
                prev.lemma_push_map_commute(fc, seq@[i as int]);
                assert(groups_view(out@) =~= groups_view(old_out).push(fc(seq@[i as int])));
            } else {
                assert(out@ == old_out);
            }
        }
        i = i + 1;
    }
    proof {
        assert(seq@.take(seq.len() as int) =~= seq@);
        assert(nx == order_seq(next_layer@));
        assert(groups_view(out@) =~= equal_barycenter_groups(layer@, next_layer@, ev));
        lemma_equal_barycenter_groups(layer@, next_layer@, ev);
        let gv = groups_view(out@);
        assert forall|g: int| 0 <= g < out.len() implies (#[trigger] out@[g])@.len() >= 2 by {
            assert(gv[g] == out@[g]@);
        }
        assert forall|g: int, i: int| 0 <= g < out.len() && 0 <= i < out@[g]@.len() implies
            frac_eq(bary_of(ev, #[trigger] out@[g]@[i], nx), bary_of(ev, out@[g]@[0], nx)) by {
            assert(gv[g] == out@[g]@);
            assert(gv[g][i] == out@[g]@[i]);
        }
    }
    out
}


/// The first position of the run of equal barycenters that contains position `i`.
pub open spec fn run_start(bs: Seq<(nat, nat)>, i: int) -> int
    decreases i,
{
    if i <= 0 || !frac_eq(bs[i - 1], bs[i]) {
        i
    } else {
        run_start(bs, i - 1)
    }
}

/// One past the last position of the run of equal barycenters that contains position `i`.
pub open spec fn run_end(bs: Seq<(nat, nat)>, i: int) -> int
    decreases bs.len() - i,
{
    if i + 1 >= bs.len() || !frac_eq(bs[i], bs[i + 1]) {
        i + 1
    } else {
        run_end(bs, i + 1)
    }
}

/// The position that `i` takes when every run of equal barycenters is reversed.
pub open spec fn reversed_in_run(bs: Seq<(nat, nat)>, i: int) -> int {
    run_start(bs, i) + run_end(bs, i) - 1 - i
}

/// All fractions have positive denominators.
pub open spec fn positive_fracs(bs: Seq<(nat, nat)>) -> bool {
    forall|i: int| 0 <= i < bs.len() ==> (#[trigger] bs[i]).1 > 0
}

proof fn lemma_run_start(bs: Seq<(nat, nat)>, s: int, j: int)
    requires
        positive_fracs(bs),
        0 <= s <= j < bs.len(),
        s == 0 || !frac_eq(bs[s - 1], bs[s]),
        forall|k: int| s <= k <= j ==> frac_eq(#[trigger] bs[k], bs[s]),
    ensures
        run_start(bs, j) == s,
    decreases j - s,
{
    if j > s {
        lemma_frac_props(bs[j - 1], bs[s], bs[j]);
        lemma_frac_props(bs[j], bs[s], bs[j - 1]);
        assert(frac_eq(bs[j - 1], bs[j]));
        lemma_run_start(bs, s, j - 1);
    }
}

proof fn lemma_run_end(bs: Seq<(nat, nat)>, s: int, e: int, j: int)
    requires
        positive_fracs(bs),
        0 <= s <= j < e <= bs.len(),
        e == bs.len() || !frac_eq(bs[e - 1], bs[e]),
        forall|k: int| s <= k < e ==> frac_eq(#[trigger] bs[k], bs[s]),
    ensures
        run_end(bs, j) == e,
    decreases e - j,
{
    if j < e - 1 {
        lemma_frac_props(bs[j], bs[s], bs[j + 1]);
        lemma_frac_props(bs[j + 1], bs[s], bs[j]);
        assert(frac_eq(bs[j], bs[j + 1]));
        lemma_run_end(bs, s, e, j + 1);
    }
}

/// Reverses the positions of the nodes at `start .. end` of the sequence `seq`.
fn reverse_run(out: &mut Order, seq: &Vec<NodeID>, start: usize, end: usize)
    requires
        start < end <= seq.len(),
        seq@.no_duplicates(),
        forall|x: int| 0 <= x < seq.len() ==> #[trigger] old(out)@.contains_key(seq@[x]),
    ensures
        final(out)@.dom() == old(out)@.dom(),
        forall|x: int| 0 <= x < seq.len() && !(start <= x < end) ==> #[trigger] final(out)@[seq@[x]] == old(out)@[seq@[x]],
        forall|x: int| start <= x < end ==> #[trigger] final(out)@[seq@[x]] == end - (x - start) - 1,
{
    let mut j: usize = start;
    while j < end
        invariant
            start <= j <= end <= seq.len(),
            seq@.no_duplicates(),
            forall|x: int| 0 <= x < seq.len() ==> #[trigger] old(out)@.contains_key(seq@[x]),
            out@.dom() == old(out)@.dom(),
            forall|x: int| 0 <= x < seq.len() && !(start <= x < j) ==> #[trigger] out@[seq@[x]] == old(out)@[seq@[x]],
            forall|x: int| start <= x < j ==> #[trigger] out@[seq@[x]] == end - (x - start) - 1,
        decreases end - j,
    {
        let new_pos = end - (j - start) - 1;
        let ghost before = out@;
        out.insert(seq[j], new_pos);
        proof {
            assert forall|x: int| 0 <= x < seq.len() && x != j implies #[trigger] out@[seq@[x]] == before[seq@[x]] by {
                assert(seq@[x] != seq@[j as int]);
            }
            assert(old(out)@.contains_key(seq@[j as int]));
            assert(out@.dom() =~= old(out)@.dom());
        }
        j = j + 1;
    }
}

/// Reverses, within `layer`, every run of consecutive nodes with equal barycenters over `other_layer`.
pub fn reverse_equal_barycenters(layer: &Order, other_layer: &Order, edges: &EdgeMap) -> (out: Order)
    requires
        is_order(layer@),
        is_order(other_layer@),
        layer_bary_defined(layer@, edge_view(edges@), order_seq(other_layer@)),
    ensures
        is_order(out@),
        out@.dom() == layer@.dom(),
        forall|n: NodeID| #[trigger] layer@.contains_key(n) ==> out@[n] == reversed_in_run(
            bary_seq(order_seq(layer@), order_seq(other_layer@), edge_view(edges@)), layer@[n] as int),
{
    let ghost ev = edge_view(edges@);
    let seq = get_sequence(layer);
    let next = get_sequence(other_layer);
    proof {
        lemma_order_seq(layer@);
        assert forall|i: int| 0 <= i < seq.len() implies bary_defined(ev, #[trigger] seq@[i], next@) by {
            assert(layer@.contains_key(seq@[i]));
        }
    }
    let ghost bsv = bary_seq(seq@, next@, ev);
    let bs = layer_barycenters(&seq, &next, edges);
    let len = seq.len();
    let mut out = layer.clone();
    if len == 0 {
        return out;
    }
    proof {
        assert forall|i: int| 0 <= i < bsv.len() implies (#[trigger] bsv[i]).1 > 0 by {
            assert(bsv[i] == bs@[i].frac());
        }
        lemma_frac_props(bsv[0], bsv[0], bsv[0]);
        assert(out@ == layer@);
        assert forall|j: int| 0 <= j < len implies #[trigger] out@[seq@[j]] == j by {
            assert(layer@.contains_key(seq@[j]) && layer@[seq@[j]] == j);
        }
    }
    let mut group_start: usize = 0;
    let mut i: usize = 1;
    while i < len
        invariant
            len == seq.len(),
            len == layer@.dom().len(),
            bs.len() == len,
            seq@ == order_seq(layer@),
            seq@.no_duplicates(),
            bsv == bary_seq(seq@, next@, ev),
            forall|j: int| 0 <= j < len ==> (#[trigger] bs@[j]).frac() == bsv[j],
            positive_fracs(bsv),
            forall|j: int| 0 <= j < len ==> #[trigger] layer@.contains_key(seq@[j]) && layer@[seq@[j]] == j,
            0 <= group_start < i <= len,
            group_start == 0 || !frac_eq(bsv[group_start - 1], bsv[group_start as int]),
            forall|k: int| group_start <= k < i ==> frac_eq(#[trigger] bsv[k], bsv[group_start as int]),
            out@.dom() == layer@.dom(),
            forall|j: int| 0 <= j < group_start ==> #[trigger] out@[seq@[j]] == reversed_in_run(bsv, j),
            forall|j: int| group_start <= j < len ==> #[trigger] out@[seq@[j]] == j,
            forall|j: int| 0 <= j < group_start ==> 0 <= #[trigger] reversed_in_run(bsv, j) < group_start,
            forall|a: int, b: int| 0 <= a < group_start && 0 <= b < group_start && a != b ==>
                #[trigger] reversed_in_run(bsv, a) != #[trigger] reversed_in_run(bsv, b),
        decreases len - i,
    {
        if !barycenter_equal(&bs[i], &bs[group_start]) {
            proof {
                lemma_frac_props(bsv[i - 1], bsv[group_start as int], bsv[i as int]);
                lemma_frac_props(bsv[i as int], bsv[group_start as int], bsv[i - 1]);
                assert(!frac_eq(bsv[i - 1], bsv[i as int]));
                lemma_group_reversed(bsv, group_start as int, i as int);
            }
            reverse_run(&mut out, &seq, group_start, i);
            proof {
                assert forall|j: int| 0 <= j < i implies #[trigger] out@[seq@[j]] == reversed_in_run(bsv, j) by {
                    if j >= group_start {
                        assert(run_start(bsv, j) == group_start && run_end(bsv, j) == i);
                    }
                }
                lemma_frac_props(bsv[i as int], bsv[i as int], bsv[i as int]);
            }
            group_start = i;
        }
        i = i + 1;
    }
    proof {
        lemma_group_reversed(bsv, group_start as int, len as int);
    }
    reverse_run(&mut out, &seq, group_start, len);
    proof {
        assert forall|j: int| 0 <= j < len implies #[trigger] out@[seq@[j]] == reversed_in_run(bsv, j) by {
            if j >= group_start {
                assert(run_start(bsv, j) == group_start && run_end(bsv, j) == len);
            }
        }
        assert(bsv == bary_seq(order_seq(layer@), order_seq(other_layer@), ev));
        assert forall|n: NodeID| #[trigger] layer@.contains_key(n) implies out@[n] == reversed_in_run(bsv, layer@[n] as int) by {
            let j = layer@[n] as int;
            assert(seq@[j] == n);
        }
        assert forall|k: NodeID| #[trigger] out@.contains_key(k) implies out@[k] < out@.dom().len() by {
            let j = layer@[k] as int;
            assert(seq@[j] == k);
        }
        assert forall|k1: NodeID, k2: NodeID| out@.contains_key(k1) && out@.contains_key(k2) && #[trigger] out@[k1] == #[trigger] out@[k2] implies k1 == k2 by {
            let j1 = layer@[k1] as int;
            let j2 = layer@[k2] as int;
            assert(seq@[j1] == k1 && seq@[j2] == k2);
            if j1 != j2 {
                assert(reversed_in_run(bsv, j1) != reversed_in_run(bsv, j2));
            }
        }
    }
    out
}

/// A maximal run `s .. e` of equal barycenters: every position in it has that run, and the
/// reversed positions of the run fill it exactly once.
proof fn lemma_group_reversed(bsv: Seq<(nat, nat)>, s: int, e: int)
    requires
        positive_fracs(bsv),
        0 <= s < e <= bsv.len(),
        s == 0 || !frac_eq(bsv[s - 1], bsv[s]),
        e == bsv.len() || !frac_eq(bsv[e - 1], bsv[e]),
        forall|k: int| s <= k < e ==> frac_eq(#[trigger] bsv[k], bsv[s]),
        forall|j: int| 0 <= j < s ==> 0 <= #[trigger] reversed_in_run(bsv, j) < s,
        forall|a: int, b: int| 0 <= a < s && 0 <= b < s && a != b ==>
            #[trigger] reversed_in_run(bsv, a) != #[trigger] reversed_in_run(bsv, b),
    ensures
        forall|j: int| s <= j < e ==> run_start(bsv, j) == s && run_end(bsv, j) == e,
        forall|j: int| 0 <= j < e ==> 0 <= #[trigger] reversed_in_run(bsv, j) < e,
        forall|a: int, b: int| 0 <= a < e && 0 <= b < e && a != b ==>
            #[trigger] reversed_in_run(bsv, a) != #[trigger] reversed_in_run(bsv, b),
{
    assert forall|j: int| s <= j < e implies run_start(bsv, j) == s && run_end(bsv, j) == e by {
        lemma_run_start(bsv, s, j);
        lemma_run_end(bsv, s, e, j);
    }
    assert forall|j: int| 0 <= j < e implies 0 <= #[trigger] reversed_in_run(bsv, j) < e by {
        if j >= s {
            assert(run_start(bsv, j) == s && run_end(bsv, j) == e);
        }
    }
    assert forall|a: int, b: int| 0 <= a < e && 0 <= b < e && a != b implies
        #[trigger] reversed_in_run(bsv, a) != #[trigger] reversed_in_run(bsv, b) by {
        if a >= s {
            assert(run_start(bsv, a) == s && run_end(bsv, a) == e);
        }
        if b >= s {
            assert(run_start(bsv, b) == s && run_end(bsv, b) == e);
        }
    }
}


/// `a` is a valid order of the nodes `dom`.
pub open spec fn arrangement(a: Map<NodeID, usize>, dom: Set<NodeID>) -> bool {
    is_order(a) && a.dom() == dom
}

/// For every arrangement of two consecutive layers with the nodes `d0` and `d1`, the number
/// of weighted crossings of the edges `ev` between them fits in a `usize`.
pub open spec fn pair_safe(d0: Set<NodeID>, d1: Set<NodeID>, ev: Map<NodeID, Map<NodeID, usize>>) -> bool {
    forall|a: Map<NodeID, usize>, b: Map<NodeID, usize>|
        arrangement(a, d0) && arrangement(b, d1) ==> #[trigger] crossings(a, b, ev) <= usize::MAX
}

/// For every arrangement of the layer with the nodes `d1`, the barycenters over it of the
/// nodes `d0` are defined (positive total weight, sums fit in a `usize`).
pub open spec fn bary_safe(d0: Set<NodeID>, d1: Set<NodeID>, ev: Map<NodeID, Map<NodeID, usize>>) -> bool {
    forall|a: Map<NodeID, usize>, b: Map<NodeID, usize>|
        arrangement(a, d0) && arrangement(b, d1) ==> #[trigger] layer_bary_defined(a, ev, order_seq(b))
}

/// One round of the two-layer barycenter heuristic: reorder the bottom layer, then the top
/// layer, each time keeping the new order only when it has fewer crossings.
pub open spec fn two_layer_round(
    o: (Map<NodeID, usize>, Map<NodeID, usize>),
    c: nat,
    ev: Map<NodeID, Map<NodeID, usize>>,
    rv: Map<NodeID, Map<NodeID, usize>>,
) -> ((Map<NodeID, usize>, Map<NodeID, usize>), nat) {
    let nb = barycenter_order(o.1, o.0, rv);
    let c1 = crossings(o.0, nb, rv);
    let o2 = if c1 < c { (o.0, nb) } else { o };
    let c2 = if c1 < c { c1 } else { c };
    let nt = barycenter_order(o2.0, o2.1, ev);
    let c3 = crossings(nt, o2.1, ev);
    if c3 < c2 { ((nt, o2.1), c3) } else { (o2, c2) }
}

/// Up to `k` rounds of the two-layer heuristic, stopping after a round without improvement.
pub open spec fn two_layer_rounds(
    o: (Map<NodeID, usize>, Map<NodeID, usize>),
    c: nat,
    ev: Map<NodeID, Map<NodeID, usize>>,
    rv: Map<NodeID, Map<NodeID, usize>>,
    k: nat,
) -> (Map<NodeID, usize>, Map<NodeID, usize>)
    decreases k,
{
    if k == 0 {
        o
    } else {
        let r = two_layer_round(o, c, ev, rv);
        if r.1 == c { r.0 } else { two_layer_rounds(r.0, r.1, ev, rv, (k - 1) as nat) }
    }
}

/// The result of the two-layer barycenter heuristic with at most `k` rounds.
pub open spec fn barycenter_pair_order(
    o: (Map<NodeID, usize>, Map<NodeID, usize>),
    ev: Map<NodeID, Map<NodeID, usize>>,
    rv: Map<NodeID, Map<NodeID, usize>>,
    k: nat,
) -> (Map<NodeID, usize>, Map<NodeID, usize>) {
    two_layer_rounds(o, crossings(o.0, o.1, ev), ev, rv, k)
}

/// Alternately reorders the two layers by barycenter, keeping a new order only when it reduces
/// the number of crossings, for at most `max_iterations` rounds.
pub fn apply_barycenter_order(
    order: (Order, Order),
    edges: &EdgeMap,
    reversed_edges: &EdgeMap,
    max_iterations: usize,
) -> (out: (Order, Order))
    requires
        is_order(order.0@),
        is_order(order.1@),
        pair_safe(order.0@.dom(), order.1@.dom(), edge_view(edges@)),
        max_iterations > 0 ==> pair_safe(order.0@.dom(), order.1@.dom(), edge_view(reversed_edges@)),
        max_iterations > 0 ==> bary_safe(order.1@.dom(), order.0@.dom(), edge_view(reversed_edges@)),
        max_iterations > 0 ==> bary_safe(order.0@.dom(), order.1@.dom(), edge_view(edges@)),
    ensures
        (out.0@, out.1@) == barycenter_pair_order((order.0@, order.1@), edge_view(edges@), edge_view(reversed_edges@), max_iterations as nat),
        arrangement(out.0@, order.0@.dom()),
        arrangement(out.1@, order.1@.dom()),
{
    let ghost ev = edge_view(edges@);
    let ghost rv = edge_view(reversed_edges@);
    let ghost d0 = order.0@.dom();
    let ghost d1 = order.1@.dom();
    let ghost target = barycenter_pair_order((order.0@, order.1@), ev, rv, max_iterations as nat);
    let mut order = order;
    assert(arrangement(order.0@, d0) && arrangement(order.1@, d1));
    let mut crossings_now = count_crossings((&order.0, &order.1), edges);
    let mut t: usize = 0;
    while t < max_iterations
        invariant_except_break
            two_layer_rounds((order.0@, order.1@), crossings_now as nat, ev, rv, (max_iterations - t) as nat) == target,
        invariant
            ev == edge_view(edges@),
            rv == edge_view(reversed_edges@),
            max_iterations > 0 ==> pair_safe(d0, d1, rv),
            max_iterations > 0 ==> bary_safe(d1, d0, rv),
            max_iterations > 0 ==> bary_safe(d0, d1, ev),
            pair_safe(d0, d1, ev),
            t <= max_iterations,
            arrangement(order.0@, d0),
            arrangement(order.1@, d1),
        ensures
            (order.0@, order.1@) == target,
        decreases max_iterations - t,
    {
        let old_crossings = crossings_now;
        let ghost o_before = (order.0@, order.1@);
        let ghost c_before = crossings_now as nat;
        let ghost r = two_layer_round(o_before, crossings_now as nat, ev, rv);
        assert(layer_bary_defined(order.1@, rv, order_seq(order.0@)));
        let new_bottom_order = apply_single_barycenter_order(&order.1, &order.0, reversed_edges);
        assert(arrangement(new_bottom_order@, d1));
        let new_crossings = count_crossings((&order.0, &new_bottom_order), reversed_edges);
        if new_crossings < crossings_now {
            crossings_now = new_crossings;
            order = (order.0, new_bottom_order);
        }
        assert(layer_bary_defined(order.0@, ev, order_seq(order.1@)));
        let new_top_order = apply_single_barycenter_order(&order.0, &order.1, edges);
        assert(arrangement(new_top_order@, d0));
        let new_crossings = count_crossings((&new_top_order, &order.1), edges);
        if new_crossings < crossings_now {
            crossings_now = new_crossings;
            order = (new_top_order, order.1);
        }
        assert(r == ((order.0@, order.1@), crossings_now as nat));
        assert(two_layer_rounds(o_before, c_before, ev, rv, (max_iterations - t) as nat) ==
            (if r.1 == c_before { r.0 } else { two_layer_rounds(r.0, r.1, ev, rv, (max_iterations - t - 1) as nat) }));
        if old_crossings == crossings_now {
            break;
        }
        t = t + 1;
    }
    order
}


/// `layer` with every run of nodes with equal barycenters over `other` reversed.
pub open spec fn reversed_runs(layer: Map<NodeID, usize>, other: Map<NodeID, usize>, ev: Map<NodeID, Map<NodeID, usize>>) -> Map<NodeID, usize> {
    Map::new(
        |n: NodeID| layer.contains_key(n),
        |n: NodeID| reversed_in_run(bary_seq(order_seq(layer), order_seq(other), ev), layer[n] as int) as usize,
    )
}

/// The final reversal step of the two-layer heuristic.
pub open spec fn two_layer_reversal(
    o: (Map<NodeID, usize>, Map<NodeID, usize>),
    ev: Map<NodeID, Map<NodeID, usize>>,
    rv: Map<NodeID, Map<NodeID, usize>>,
) -> (Map<NodeID, usize>, Map<NodeID, usize>) {
    let first_rev = reversed_runs(o.0, o.1, ev);
    if frac_increasing(bary_seq(order_seq(o.1), order_seq(first_rev), rv)) {
        (first_rev, reversed_runs(o.1, first_rev, rv))
    } else {
        (first_rev, o.1)
    }
}

/// The result of the two-layer barycenter ordering.
pub open spec fn two_layer_order(
    o: (Map<NodeID, usize>, Map<NodeID, usize>),
    ev: Map<NodeID, Map<NodeID, usize>>,
    phase1: nat,
    phase2: nat,
) -> (Map<NodeID, usize>, Map<NodeID, usize>) {
    if phase2 == 0 {
        o
    } else {
        two_layer_reversal(barycenter_pair_order(o, ev, swapped(ev), phase1), ev, swapped(ev))
    }
}

/// The result of `reverse_equal_barycenters` as a map.
proof fn lemma_reversed_runs(out: Map<NodeID, usize>, layer: Map<NodeID, usize>, other: Map<NodeID, usize>, ev: Map<NodeID, Map<NodeID, usize>>)
    requires
        out.dom() == layer.dom(),
        forall|n: NodeID| #[trigger] layer.contains_key(n) ==> out[n] == reversed_in_run(
            bary_seq(order_seq(layer), order_seq(other), ev), layer[n] as int),
    ensures
        out == reversed_runs(layer, other, ev),
{
    assert(out =~= reversed_runs(layer, other, ev));
}

/// Over an empty layer, the barycenters of nodes with defined barycenters are all `0 / 1`.
proof fn lemma_bary_over_empty(layer: Map<NodeID, usize>, other: Map<NodeID, usize>, ev: Map<NodeID, Map<NodeID, usize>>)
    requires
        is_order(layer),
        other.dom().len() == 0,
        layer_bary_defined(layer, ev, order_seq(other)),
        layer.dom().len() >= 2,
    ensures
        !frac_increasing(bary_seq(order_seq(layer), order_seq(other), ev)),
{
    let nx = order_seq(other);
    assert(nx.len() == 0);
    lemma_order_seq(layer);
    let bs = bary_seq(order_seq(layer), nx, ev);
    assert(layer.contains_key(order_seq(layer)[0]));
    assert(layer.contains_key(order_seq(layer)[1]));
    assert forall|n: NodeID| #[trigger] layer.contains_key(n) implies bary_of(ev, n, nx) == (0nat, 1nat) by {
        if ev.contains_key(n) {
            assert(edge_index_seq(ev[n], nx) =~= Seq::<(usize, usize)>::empty());
            assert(weight_sum(edge_index_seq(ev[n], nx)) == 0);
            assert(bary_defined(ev, n, nx));
        }
    }
    assert(bs[0] == (0nat, 1nat) && bs[1] == (0nat, 1nat));
    assert(!frac_lt(bs[0], bs[1]));
}

/// The two-layer barycenter ordering: at most `max_phase1_iterations` rounds of alternating
/// barycenter sorts, then runs of equal barycenters are reversed.
pub fn two_layer_barycenter_order(
    init_order: (&Order, &Order),
    edges: &EdgeMap,
    max_phase1_iterations: usize,
    max_phase2_iterations: usize,
) -> (out: (Order, Order))
    requires
        is_order(init_order.0@),
        is_order(init_order.1@),
        pair_safe(init_order.0@.dom(), init_order.1@.dom(), edge_view(edges@)),
        max_phase2_iterations > 0 ==> pair_safe(init_order.0@.dom(), init_order.1@.dom(), swapped(edge_view(edges@))),
        max_phase2_iterations > 0 ==> bary_safe(init_order.1@.dom(), init_order.0@.dom(), swapped(edge_view(edges@))),
        max_phase2_iterations > 0 ==> bary_safe(init_order.0@.dom(), init_order.1@.dom(), edge_view(edges@)),
        max_phase2_iterations > 0 ==> init_order.1@.dom().len() > 0,
        max_phase2_iterations > 0 && init_order.0@.dom().len() == 0 ==> init_order.1@.dom().len() >= 2,
    ensures
        (out.0@, out.1@) == two_layer_order((init_order.0@, init_order.1@), edge_view(edges@),
            max_phase1_iterations as nat, max_phase2_iterations as nat),
        arrangement(out.0@, init_order.0@.dom()),
        arrangement(out.1@, init_order.1@.dom()),
{
    let ghost ev = edge_view(edges@);
    let ghost d0 = init_order.0@.dom();
    let ghost d1 = init_order.1@.dom();
    let reversed_edges = swap_edges(edges);
    let ghost rv = edge_view(reversed_edges@);
    let mut order = (init_order.0.clone(), init_order.1.clone());
    let mut t: usize = 0;
    while t < max_phase2_iterations
        invariant_except_break
            t == 0 ==> (order.0@, order.1@) == (init_order.0@, init_order.1@),
            t > 0 ==> (order.0@, order.1@) == two_layer_order((init_order.0@, init_order.1@), ev,
                max_phase1_iterations as nat, max_phase2_iterations as nat),
        invariant
            ev == edge_view(edges@),
            rv == swapped(ev),
            rv == edge_view(reversed_edges@),
            is_order(init_order.0@),
            is_order(init_order.1@),
            pair_safe(d0, d1, ev),
            max_phase2_iterations > 0 ==> pair_safe(d0, d1, rv),
            max_phase2_iterations > 0 ==> bary_safe(d1, d0, rv),
            max_phase2_iterations > 0 ==> bary_safe(d0, d1, ev),
            max_phase2_iterations > 0 ==> d1.len() > 0,
            max_phase2_iterations > 0 && d0.len() == 0 ==> d1.len() >= 2,
            d0 == init_order.0@.dom(),
            d1 == init_order.1@.dom(),
            t <= max_phase2_iterations,
            arrangement(order.0@, d0),
            arrangement(order.1@, d1),
        ensures
            (order.0@, order.1@) == two_layer_order((init_order.0@, init_order.1@), ev,
                max_phase1_iterations as nat, max_phase2_iterations as nat),
        decreases max_phase2_iterations - t,
    {
        let a0: Order = init_order.0.clone();
        let a1: Order = init_order.1.clone();
        assert(a0@ == init_order.0@ && a1@ == init_order.1@);
        let pair = apply_barycenter_order(
            (a0, a1),
            edges,
            &reversed_edges,
            max_phase1_iterations,
        );
        let ghost p = (pair.0@, pair.1@);
        assert(p == barycenter_pair_order((init_order.0@, init_order.1@), ev, rv, max_phase1_iterations as nat));
        assert(layer_bary_defined(pair.0@, ev, order_seq(pair.1@)));
        let first_layer_rev = reverse_equal_barycenters(&pair.0, &pair.1, edges);
        proof {
            lemma_reversed_runs(first_layer_rev@, pair.0@, pair.1@, ev);
        }
        assert(arrangement(first_layer_rev@, d0));
        assert(layer_bary_defined(pair.1@, rv, order_seq(first_layer_rev@)));
        let increasing = are_barycenters_increasing(&pair.1, &first_layer_rev, &reversed_edges);
        if increasing {
            proof {
                if d0.len() == 0 {
                    lemma_bary_over_empty(pair.1@, first_layer_rev@, rv);
                }
            }
            let second_layer_rev = reverse_equal_barycenters(&pair.1, &first_layer_rev, &reversed_edges);
            proof {
                lemma_reversed_runs(second_layer_rev@, pair.1@, first_layer_rev@, rv);
            }
            assert(arrangement(second_layer_rev@, d1));
            assert(layer_bary_defined(first_layer_rev@, ev, order_seq(second_layer_rev@)));
            let done = are_barycenters_increasing(&first_layer_rev, &second_layer_rev, edges);
            if done {
                order = (first_layer_rev, second_layer_rev);
                break;
            } else {
                order = (first_layer_rev, second_layer_rev);
            }
        } else {
            order = (first_layer_rev, pair.1);
        }
        t = t + 1;
    }
    order
}


/// Orders a layer by the barycenters of its nodes over the neighbouring layer.
pub struct BarycenterOrdering;

impl LayerOrderer for BarycenterOrdering {
    open spec fn accepts(&self, layer: Map<NodeID, usize>, next: Map<NodeID, usize>, ev: Map<NodeID, Map<NodeID, usize>>) -> bool {
        layer_bary_defined(layer, ev, order_seq(next))
    }

    open spec fn order_spec(&self, layer: Map<NodeID, usize>, next: Map<NodeID, usize>, ev: Map<NodeID, Map<NodeID, usize>>) -> Map<NodeID, usize> {
        barycenter_order(layer, next, ev)
    }

    open spec fn equal_groups_spec(&self, layer: Map<NodeID, usize>, next: Map<NodeID, usize>, ev: Map<NodeID, Map<NodeID, usize>>) -> Seq<Seq<NodeID>> {
        equal_barycenter_groups(layer, next, ev)
    }

    open spec fn sorted_spec(&self, layer: Map<NodeID, usize>, next: Map<NodeID, usize>, ev: Map<NodeID, Map<NodeID, usize>>) -> bool {
        frac_nondecreasing(bary_seq(order_seq(layer), order_seq(next), ev))
    }

    fn order(&self, layer: &Order, next_layer: &Order, edges: &EdgeMap) -> (out: Order) {
        apply_single_barycenter_order(layer, next_layer, edges)
    }

    fn get_equal_groups(&self, layer: &Order, next_layer: &Order, edges: &EdgeMap) -> (out: Vec<Vec<NodeID>>) {
        get_equal_barycenter_groups(layer, next_layer, edges)
    }

    fn is_sorted(&self, layer: &Order, next_layer: &Order, edges: &EdgeMap) -> (out: bool) {
        is_barycenter_sorted(layer, next_layer, edges)
    }
}

} // verus!
