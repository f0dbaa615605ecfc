use std::collections::HashMap;
use vstd::prelude::*;
use vstd::std_specs::hash::spec_hash_map_iter;
use vstd::std_specs::iter::IteratorSpec;
use vstd::set_lib::{set_int_range, lemma_int_range, lemma_subset_equality, lemma_map_size};

verus! {

broadcast use vstd::std_specs::hash::group_hash_axioms;

/// A node identifier.
pub type NodeID = usize;

/// A mapping from node id to index in the order of a layer; a valid order is a
/// bijection from its nodes onto the positions `0..len`.
pub type Order = HashMap<NodeID, usize>;

/// A mapping from node to node, with a given weight.
pub type EdgeMap = HashMap<NodeID, HashMap<NodeID, usize>>;

/// For every node, its successors sorted by their position in the next layer.
pub type OrderedEdgeMap = HashMap<NodeID, Vec<NodeID>>;

/// An order is a bijection from its (finitely many) nodes onto `0..len`.
pub open spec fn is_order(m: Map<NodeID, usize>) -> bool {
    &&& m.dom().finite()
    &&& forall|k: NodeID| #[trigger] m.contains_key(k) ==> m[k] < m.dom().len()
    &&& forall|k1: NodeID, k2: NodeID|
        m.contains_key(k1) && m.contains_key(k2) && #[trigger] m[k1] == #[trigger] m[k2] ==> k1 == k2
}

/// The node that an order places at position `i`.
pub open spec fn node_at(m: Map<NodeID, usize>, i: int) -> NodeID {
    choose|k: NodeID| m.contains_key(k) && m[k] == i
}

/// The nodes of an order listed by position.
pub open spec fn order_seq(m: Map<NodeID, usize>) -> Seq<NodeID> {
    Seq::new(m.dom().len(), |i: int| node_at(m, i))
}

/// The order that places each node of a sequence (without repetitions) at its position.
pub open spec fn seq_order(s: Seq<NodeID>) -> Map<NodeID, usize> {
    Map::new(|k: NodeID| s.contains(k), |k: NodeID| s.index_of(k) as usize)
}

/// Every position of a valid order holds exactly one node.
pub proof fn lemma_order_seq(m: Map<NodeID, usize>)
    requires
        is_order(m),
    ensures
        order_seq(m).len() == m.dom().len(),
        order_seq(m).no_duplicates(),
        forall|i: int| 0 <= i < m.dom().len() ==> #[trigger] m.contains_key(order_seq(m)[i]) && m[order_seq(m)[i]] == i,
        forall|k: NodeID| #[trigger] m.contains_key(k) ==> order_seq(m)[m[k] as int] == k,
        order_seq(m).to_set() == m.dom(),
{
    let n = m.dom().len();
    let f = |k: NodeID| m[k] as int;
    let img = m.dom().map(f);
    assert(vstd::relations::injective_on(f, m.dom()));
    lemma_map_size(m.dom(), img, f);
    lemma_int_range(0, n as int);
    assert(img.subset_of(set_int_range(0, n as int)));
    lemma_subset_equality(img, set_int_range(0, n as int));
    assert forall|i: int| 0 <= i < n implies #[trigger] m.contains_key(order_seq(m)[i]) && m[order_seq(m)[i]] == i by {
        assert(set_int_range(0, n as int).contains(i));
        assert(img.contains(i));
        let k = choose|k: NodeID| m.dom().contains(k) && f(k) == i;
        assert(m.contains_key(k) && m[k] == i);
    }
    assert forall|k: NodeID| #[trigger] m.contains_key(k) implies order_seq(m)[m[k] as int] == k by {
        let j = m[k] as int;
        assert(m.contains_key(order_seq(m)[j]) && m[order_seq(m)[j]] == j);
    }
    assert forall|i: int, j: int| 0 <= i < order_seq(m).len() && 0 <= j < order_seq(m).len() && i != j
        implies order_seq(m)[i] != order_seq(m)[j] by {
        assert(m.contains_key(order_seq(m)[i]) && m[order_seq(m)[i]] == i);
        assert(m.contains_key(order_seq(m)[j]) && m[order_seq(m)[j]] == j);
    }
    assert(order_seq(m).to_set() =~= m.dom()) by {
        assert forall|k: NodeID| m.contains_key(k) implies order_seq(m).to_set().contains(k) by {
            assert(order_seq(m)[m[k] as int] == k);
        }
        assert forall|k: NodeID| order_seq(m).to_set().contains(k) implies m.contains_key(k) by {
            let i = choose|i: int| 0 <= i < order_seq(m).len() && order_seq(m)[i] == k;
            assert(m.contains_key(order_seq(m)[i]));
        }
    }
}

/// A sequence without repetitions gives a valid order that lists back to it.
pub proof fn lemma_seq_order(s: Seq<NodeID>)
    requires
        s.no_duplicates(),
        s.len() <= usize::MAX,
    ensures
        is_order(seq_order(s)),
        seq_order(s).dom() == s.to_set(),
        seq_order(s).dom().len() == s.len(),
        forall|i: int| 0 <= i < s.len() ==> #[trigger] seq_order(s)[s[i]] == i,
        order_seq(seq_order(s)) == s,
{
    let m = seq_order(s);
    assert(m.dom() =~= s.to_set());
    s.unique_seq_to_set();
    assert forall|i: int| 0 <= i < s.len() implies #[trigger] m[s[i]] == i by {
        assert(s.contains(s[i]));
        let j = s.index_of(s[i]);
        assert(0 <= j < s.len() && s[j] == s[i]);
    }
    assert forall|k: NodeID| #[trigger] m.contains_key(k) implies m[k] < m.dom().len() by {
        let j = s.index_of(k);
        assert(0 <= j < s.len() && s[j] == k);
    }
    assert forall|k1: NodeID, k2: NodeID|
        m.contains_key(k1) && m.contains_key(k2) && #[trigger] m[k1] == #[trigger] m[k2] implies k1 == k2 by {
        let j1 = s.index_of(k1);
        let j2 = s.index_of(k2);
        assert(0 <= j1 < s.len() && s[j1] == k1);
        assert(0 <= j2 < s.len() && s[j2] == k2);
    }
    lemma_order_seq(m);
    assert forall|i: int| 0 <= i < s.len() implies order_seq(m)[i] == s[i] by {
        assert(m.contains_key(s[i]));
        assert(order_seq(m)[m[s[i]] as int] == s[i]);
    }
    assert(order_seq(m) =~= s);
}

/// The entries of a map listed as a sequence without repetitions.
pub open spec fn lists_map(s: Seq<(usize, usize)>, m: Map<usize, usize>) -> bool {
    &&& s.len() == m.dom().len()
    &&& forall|i: int| 0 <= i < s.len() ==> m.contains_key(#[trigger] s[i].0) && m[s[i].0] == s[i].1
    &&& forall|i: int, j: int| 0 <= i < j < s.len() ==> s[i].0 != s[j].0
    &&& forall|k: usize| m.contains_key(k) ==> exists|i: int| 0 <= i < s.len() && #[trigger] s[i].0 == k
}

/// Lists the (key, value) entries of a map, in the map's iteration order.
pub fn map_entries(map: &HashMap<usize, usize>) -> (out: Vec<(usize, usize)>)
    ensures
        lists_map(out@, map@),
{
    let mut out: Vec<(usize, usize)> = Vec::new();
    let ghost v = spec_hash_map_iter(map).remaining();
    for kv in it: map.iter()
        invariant
            it.seq() == v,
            out.len() == it.index(),
            forall|i: int| 0 <= i < out.len() ==> (#[trigger] out@[i]) == (*v[i].0, *v[i].1),
    {
        let (k, w) = kv;
        out.push((*k, *w));
    }
    proof {
        assert forall|i: int, j: int| 0 <= i < j < out.len() implies out@[i].0 != out@[j].0 by {
            if out@[i].0 == out@[j].0 {
                assert(*v[i].1 == map@[*v[i].0]);
                assert(*v[j].1 == map@[*v[j].0]);
                assert(v[i] == v[j]);
            }
        }
        assert forall|k: usize| map@.contains_key(k) implies exists|i: int| 0 <= i < out.len() && #[trigger] out@[i].0 == k by {
            assert(v.contains((&k, &map@[k])));
            let i = choose|i: int| 0 <= i < v.len() && v[i] == (&k, &map@[k]);
            assert(out@[i].0 == k);
        }
    }
    out
}

/// Lists the nodes of a layer by their position in the order.
pub fn get_sequence(order: &Order) -> (out: Vec<NodeID>)
    requires
        forall|k: NodeID| #[trigger] order@.contains_key(k) ==> order@[k] < order@.len(),
    ensures
        out.len() == order@.len(),
        forall|i: int| 0 <= i < out.len() ==> {
            if exists|k: NodeID| #[trigger] order@.contains_key(k) && order@[k] == i {
                order@.contains_key(out@[i]) && order@[out@[i]] == i
            } else {
                out@[i] == 0
            }
        },
        is_order(order@) ==> out@ == order_seq(order@),
{
    let entries = map_entries(order);
    let n = order.len();
    let mut out: Vec<NodeID> = Vec::new();
    let mut i: usize = 0;
    while i < n
        invariant
            i <= n,
            n == order@.len(),
            out.len() == i,
            forall|j: int| 0 <= j < i ==> out@[j] == 0,
        decreases n - i,
    {
        out.push(0);
        i = i + 1;
    }
    let mut e: usize = 0;
    while e < entries.len()
        invariant
            lists_map(entries@, order@),
            forall|k: NodeID| #[trigger] order@.contains_key(k) ==> order@[k] < order@.len(),
            n == order@.len(),
            out.len() == n,
            e <= entries.len(),
            forall|j: int| 0 <= j < n ==> {
                if exists|x: int| 0 <= x < e && #[trigger] entries@[x].1 == j {
                    order@.contains_key(out@[j]) && order@[out@[j]] == j
                } else {
                    out@[j] == 0
                }
            },
        decreases entries.len() - e,
    {
        let (k, idx) = entries[e];
        assert(order@.contains_key(entries@[e as int].0));
        out.set(idx, k);
        proof {
            assert forall|j: int| 0 <= j < n implies {
                if exists|x: int| 0 <= x < e + 1 && #[trigger] entries@[x].1 == j {
                    order@.contains_key(out@[j]) && order@[out@[j]] == j
                } else {
                    out@[j] == 0
                }
            } by {
                if j != idx as int {
                    if exists|x: int| 0 <= x < e + 1 && #[trigger] entries@[x].1 == j {
                        let x = choose|x: int| 0 <= x < e + 1 && #[trigger] entries@[x].1 == j;
                        assert(x != e);
                    }
                } else {
                    assert(entries@[e as int].1 == j);
                }
            }
        }
        e = e + 1;
    }
    proof {
        assert forall|i: int| 0 <= i < out.len() implies {
            if exists|k: NodeID| #[trigger] order@.contains_key(k) && order@[k] == i {
                order@.contains_key(out@[i]) && order@[out@[i]] == i
            } else {
                out@[i] == 0
            }
        } by {
            if exists|k: NodeID| #[trigger] order@.contains_key(k) && order@[k] == i {
                let k = choose|k: NodeID| #[trigger] order@.contains_key(k) && order@[k] == i;
                let x = choose|x: int| 0 <= x < entries.len() && #[trigger] entries@[x].0 == k;
                assert(entries@[x].1 == i);
            } else {
                if exists|x: int| 0 <= x < entries.len() && #[trigger] entries@[x].1 == i {
                    let x = choose|x: int| 0 <= x < entries.len() && #[trigger] entries@[x].1 == i;
                    assert(order@.contains_key(entries@[x].0));
                }
            }
        }
        if is_order(order@) {
            lemma_order_seq(order@);
            assert forall|i: int| 0 <= i < out.len() implies out@[i] == order_seq(order@)[i] by {
                assert(0 <= i < order@.dom().len());
                let m = order@;
                assert(m.contains_key(order_seq(m)[i]));
                assert(order@.contains_key(order_seq(order@)[i]) && order@[order_seq(order@)[i]] == i);
                assert(out@[i] == order_seq(order@)[i]);
            }
            assert(out@ =~= order_seq(order@));
        }
    }
    out
}


/// The weights of an edge map as a map of maps.
pub open spec fn edge_view(e: Map<NodeID, HashMap<NodeID, usize>>) -> Map<NodeID, Map<NodeID, usize>> {
    Map::new(|from: NodeID| e.contains_key(from), |from: NodeID| e[from]@)
}

/// There is an edge from `from` to `to`.
pub open spec fn has_edge(e: Map<NodeID, Map<NodeID, usize>>, from: NodeID, to: NodeID) -> bool {
    e.contains_key(from) && e[from].contains_key(to)
}

/// The edges listed as (from, to, weight) triples, each pair once.
pub open spec fn lists_edges(s: Seq<(usize, usize, usize)>, e: Map<NodeID, Map<NodeID, usize>>) -> bool {
    &&& forall|i: int| 0 <= i < s.len() ==> has_edge(e, #[trigger] s[i].0, s[i].1) && e[s[i].0][s[i].1] == s[i].2
    &&& forall|i: int, j: int| 0 <= i < j < s.len() ==> (s[i].0, s[i].1) != (s[j].0, s[j].1)
    &&& forall|from: NodeID, to: NodeID| #[trigger] has_edge(e, from, to) ==>
        exists|i: int| 0 <= i < s.len() && #[trigger] s[i].0 == from && s[i].1 == to
}

/// The edges with their direction reversed; nodes without incoming edges get no entry.
pub open spec fn swapped(e: Map<NodeID, Map<NodeID, usize>>) -> Map<NodeID, Map<NodeID, usize>> {
    Map::new(
        |to: NodeID| exists|from: NodeID| #[trigger] has_edge(e, from, to),
        |to: NodeID| Map::new(|from: NodeID| has_edge(e, from, to), |from: NodeID| e[from][to]),
    )
}

/// Reversing the edges twice gives them back, where every node with a row has an edge.
pub proof fn law_swapped_twice(e: Map<NodeID, Map<NodeID, usize>>)
    requires
        forall|from: NodeID| #[trigger] e.contains_key(from) ==> exists|to: NodeID| e[from].contains_key(to),
    ensures
        swapped(swapped(e)) == e,
{
    let s = swapped(e);
    let t = swapped(s);
    assert forall|n: NodeID| #[trigger] t.contains_key(n) <==> e.contains_key(n) by {
        if e.contains_key(n) {
            let to = choose|to: NodeID| e[n].contains_key(to);
            assert(has_edge(e, n, to));
            assert(has_edge(s, to, n));
        }
        if t.contains_key(n) {
            let to = choose|to: NodeID| #[trigger] has_edge(s, to, n);
            assert(has_edge(e, n, to));
        }
    }
    assert forall|n: NodeID| #[trigger] t.contains_key(n) implies t[n] =~= e[n] by {
        assert forall|to: NodeID| t[n].contains_key(to) <==> e[n].contains_key(to) by {
            if e[n].contains_key(to) {
                assert(has_edge(e, n, to));
                assert(has_edge(s, to, n));
            }
        }
    }
    assert(t =~= e);
}

/// Lists the rows (node, weights of its outgoing edges) of an edge map, in iteration order.
pub(crate) fn edge_rows(edges: &EdgeMap) -> (out: Vec<(NodeID, HashMap<NodeID, usize>)>)
    ensures
        out.len() == edges@.dom().len(),
        forall|i: int| 0 <= i < out.len() ==> edges@.contains_key(#[trigger] out@[i].0) && edges@[out@[i].0]@ == out@[i].1@,
        forall|i: int, j: int| 0 <= i < j < out.len() ==> out@[i].0 != out@[j].0,
        forall|k: NodeID| edges@.contains_key(k) ==> exists|i: int| 0 <= i < out.len() && #[trigger] out@[i].0 == k,
{
    let mut out: Vec<(NodeID, HashMap<NodeID, usize>)> = Vec::new();
    let ghost v = spec_hash_map_iter(edges).remaining();
    for kv in it: edges.iter()
        invariant
            it.seq() == v,
            out.len() == it.index(),
            forall|i: int| 0 <= i < out.len() ==> (#[trigger] out@[i]).0 == *v[i].0 && out@[i].1@ == v[i].1@,
    {
        let (k, m) = kv;
        out.push((*k, m.clone()));
    }
    proof {
        let em = edges@;
        assert forall|i: int| 0 <= i < out.len() implies em.contains_key(#[trigger] out@[i].0) && em[out@[i].0]@ == out@[i].1@ by {
            assert(em.contains_key(*v[i].0) && em[*v[i].0] == *v[i].1);
        }
        assert forall|i: int, j: int| 0 <= i < j < out.len() implies out@[i].0 != out@[j].0 by {
            if out@[i].0 == out@[j].0 {
                assert(em.contains_key(*v[i].0) && em[*v[i].0] == *v[i].1);
                assert(em.contains_key(*v[j].0) && em[*v[j].0] == *v[j].1);
                assert(v[i] == v[j]);
            }
        }
        assert forall|k: NodeID| em.contains_key(k) implies exists|i: int| 0 <= i < out.len() && #[trigger] out@[i].0 == k by {
            assert(v.contains((&k, &em[k])));
            let i = choose|i: int| 0 <= i < v.len() && v[i] == (&k, &em[k]);
            assert(out@[i].0 == k);
        }
    }
    out
}

/// Lists all edges of an edge map as (from, to, weight) triples.
pub fn edge_entries(edges: &EdgeMap) -> (out: Vec<(usize, usize, usize)>)
    ensures
        lists_edges(out@, edge_view(edges@)),
{
    let ghost ev = edge_view(edges@);
    let rows = edge_rows(edges);
    let mut out: Vec<(usize, usize, usize)> = Vec::new();
    let mut r: usize = 0;
    while r < rows.len()
        invariant
            ev == edge_view(edges@),
            r <= rows.len(),
            rows.len() == edges@.dom().len(),
            forall|i: int| 0 <= i < rows.len() ==> edges@.contains_key(#[trigger] rows@[i].0) && edges@[rows@[i].0]@ == rows@[i].1@,
            forall|i: int, j: int| 0 <= i < j < rows.len() ==> rows@[i].0 != rows@[j].0,
            forall|k: NodeID| edges@.contains_key(k) ==> exists|i: int| 0 <= i < rows.len() && #[trigger] rows@[i].0 == k,
            forall|i: int| 0 <= i < out.len() ==> has_edge(ev, #[trigger] out@[i].0, out@[i].1) && ev[out@[i].0][out@[i].1] == out@[i].2,
            forall|i: int| #![trigger out@[i]] 0 <= i < out.len() ==> exists|x: int| 0 <= x < r && #[trigger] rows@[x].0 == out@[i].0,
            forall|i: int, j: int| 0 <= i < j < out.len() ==> (out@[i].0, out@[i].1) != (out@[j].0, out@[j].1),
            forall|x: int, to: NodeID| #![trigger has_edge(ev, rows@[x].0, to)] 0 <= x < r && has_edge(ev, rows@[x].0, to) ==>
                exists|i: int| 0 <= i < out.len() && #[trigger] out@[i].0 == rows@[x].0 && out@[i].1 == to,
        decreases rows.len() - r,
    {
        let from = rows[r].0;
        let entries = map_entries(&rows[r].1);
        let ghost before = out@;
        let mut j: usize = 0;
        while j < entries.len()
            invariant
                lists_map(entries@, rows@[r as int].1@),
                from == rows@[r as int].0,
                j <= entries.len(),
                out.len() == before.len() + j,
                forall|i: int| 0 <= i < before.len() ==> out@[i] == before[i],
                forall|i: int| 0 <= i < j ==> (#[trigger] out@[before.len() + i]) == (from, entries@[i].0, entries@[i].1),
            decreases entries.len() - j,
        {
            let (to, w) = entries[j];
            out.push((from, to, w));
            j = j + 1;
        }
        proof {
            let inner = rows@[r as int].1@;
            assert(edges@.contains_key(from) && ev[from] == inner);
            assert forall|i: int| 0 <= i < out.len() implies has_edge(ev, #[trigger] out@[i].0, out@[i].1) && ev[out@[i].0][out@[i].1] == out@[i].2 by {
                if i >= before.len() {
                    let t = i - before.len();
                    assert(out@[before.len() + t] == (from, entries@[t].0, entries@[t].1));
                    assert(inner.contains_key(entries@[t].0));
                } else {
                    assert(out@[i] == before[i]);
                }
            }
            assert forall|i: int| #![trigger out@[i]] 0 <= i < out.len() implies exists|x: int| 0 <= x < r + 1 && #[trigger] rows@[x].0 == out@[i].0 by {
                if i >= before.len() {
                    let t = i - before.len();
                    assert(out@[before.len() + t] == (from, entries@[t].0, entries@[t].1));
                    assert(rows@[r as int].0 == out@[i].0);
                } else {
                    assert(out@[i] == before[i]);
                    let x = choose|x: int| 0 <= x < r && #[trigger] rows@[x].0 == before[i].0;
                }
            }
            assert forall|i: int, j2: int| 0 <= i < j2 < out.len() implies (out@[i].0, out@[i].1) != (out@[j2].0, out@[j2].1) by {
                if j2 >= before.len() {
                    let t2 = j2 - before.len();
                    assert(out@[before.len() + t2] == (from, entries@[t2].0, entries@[t2].1));
                    if i >= before.len() {
                        let t1 = i - before.len();
                        assert(out@[before.len() + t1] == (from, entries@[t1].0, entries@[t1].1));
                    } else {
                        assert(out@[i] == before[i]);
                        let x = choose|x: int| 0 <= x < r && #[trigger] rows@[x].0 == before[i].0;
                        assert(rows@[x].0 != rows@[r as int].0);
                    }
                } else {
                    assert(out@[i] == before[i]);
                    assert(out@[j2] == before[j2]);
                }
            }
            assert forall|x: int, to: NodeID| #![trigger has_edge(ev, rows@[x].0, to)] 0 <= x < r + 1 && has_edge(ev, rows@[x].0, to) implies
                exists|i: int| 0 <= i < out.len() && #[trigger] out@[i].0 == rows@[x].0 && out@[i].1 == to by {
                if x == r {
                    assert(inner.contains_key(to));
                    let t = choose|t: int| 0 <= t < entries.len() && #[trigger] entries@[t].0 == to;
                    assert(out@[before.len() + t] == (from, entries@[t].0, entries@[t].1));
                } else {
                    let i = choose|i: int| 0 <= i < before.len() && #[trigger] before[i].0 == rows@[x].0 && before[i].1 == to;
                    assert(out@[i] == before[i]);
                }
            }
        }
        r = r + 1;
    }
    proof {
        assert forall|from: NodeID, to: NodeID| #[trigger] has_edge(ev, from, to) implies
            exists|i: int| 0 <= i < out.len() && #[trigger] out@[i].0 == from && out@[i].1 == to by {
            assert(edges@.contains_key(from));
            let x = choose|x: int| 0 <= x < rows.len() && #[trigger] rows@[x].0 == from;
        }
    }
    out
}

/// Reverses the direction of every edge, keeping the weights.
pub fn swap_edges(edges: &EdgeMap) -> (out: EdgeMap)
    ensures
        edge_view(out@) == swapped(edge_view(edges@)),
{
    let ghost ev = edge_view(edges@);
    let triples = edge_entries(edges);
    let mut out: EdgeMap = HashMap::new();
    let mut k: usize = 0;
    while k < triples.len()
        invariant
            lists_edges(triples@, ev),
            k <= triples.len(),
            forall|to: NodeID, from: NodeID| #[trigger] has_edge(edge_view(out@), to, from) <==>
                exists|i: int| 0 <= i < k && #[trigger] triples@[i].0 == from && triples@[i].1 == to,
            forall|i: int| 0 <= i < k ==> #[trigger] edge_view(out@)[triples@[i].1][triples@[i].0] == triples@[i].2,
            forall|to: NodeID| #[trigger] out@.contains_key(to) ==> exists|from: NodeID| has_edge(edge_view(out@), to, from),
        decreases triples.len() - k,
    {
        let (from, to, w) = triples[k];
        let ghost old_out = edge_view(out@);
        let mut inner = match out.remove(&to) {
            Some(m) => m,
            None => HashMap::new(),
        };
        let ghost base = if old_out.contains_key(to) { old_out[to] } else { Map::<NodeID, usize>::empty() };
        assert(inner@ == base);
        inner.insert(from, w);
        out.insert(to, inner);
        proof {
            let nv = edge_view(out@);
            assert(nv[to] == base.insert(from, w));
            assert forall|t: NodeID| t != to implies #[trigger] nv.contains_key(t) == old_out.contains_key(t) && (nv.contains_key(t) ==> nv[t] == old_out[t]) by {}
            assert forall|t: NodeID, f: NodeID| #[trigger] has_edge(nv, t, f) <==>
                exists|i: int| 0 <= i < k + 1 && #[trigger] triples@[i].0 == f && triples@[i].1 == t by {
                if t != to {
                    assert(has_edge(nv, t, f) == has_edge(old_out, t, f));
                } else {
                    if f == from {
                        assert(triples@[k as int].0 == f && triples@[k as int].1 == t);
                    } else {
                        assert(has_edge(nv, t, f) == has_edge(old_out, t, f));
                        if exists|i: int| 0 <= i < k + 1 && #[trigger] triples@[i].0 == f && triples@[i].1 == t {
                            let i = choose|i: int| 0 <= i < k + 1 && #[trigger] triples@[i].0 == f && triples@[i].1 == t;
                            assert(i != k);
                        }
                    }
                }
            }
            assert forall|i: int| 0 <= i < k + 1 implies #[trigger] nv[triples@[i].1][triples@[i].0] == triples@[i].2 by {
                if i < k {
                    assert(old_out[triples@[i].1][triples@[i].0] == triples@[i].2);
                    if triples@[i].1 == to {
                        assert(triples@[i].0 != from);
                        assert(has_edge(old_out, to, triples@[i].0));
                        assert(base == old_out[to]);
                        assert(nv[to][triples@[i].0] == base[triples@[i].0]);
                    } else {
                        assert(has_edge(old_out, triples@[i].1, triples@[i].0));
                        assert(nv.contains_key(triples@[i].1) == old_out.contains_key(triples@[i].1));
                        assert(nv[triples@[i].1] == old_out[triples@[i].1]);
                    }
                }
            }
            assert forall|t: NodeID| #[trigger] out@.contains_key(t) implies exists|f: NodeID| has_edge(nv, t, f) by {
                if t == to {
                    assert(has_edge(nv, t, from));
                } else {
                    assert(old_out.contains_key(t));
                    let f = choose|f: NodeID| has_edge(old_out, t, f);
                    assert(has_edge(nv, t, f));
                }
            }
        }
        k = k + 1;
    }
    proof {
        let nv = edge_view(out@);
        let sw = swapped(ev);
        assert forall|t: NodeID| #[trigger] nv.contains_key(t) == sw.contains_key(t) by {
            if nv.contains_key(t) {
                let f = choose|f: NodeID| has_edge(nv, t, f);
                let i = choose|i: int| 0 <= i < triples.len() && #[trigger] triples@[i].0 == f && triples@[i].1 == t;
                assert(has_edge(ev, f, t));
            }
            if sw.contains_key(t) {
                let f = choose|f: NodeID| #[trigger] has_edge(ev, f, t);
                let i = choose|i: int| 0 <= i < triples.len() && #[trigger] triples@[i].0 == f && triples@[i].1 == t;
                assert(has_edge(nv, t, f));
            }
        }
        assert forall|t: NodeID| #[trigger] nv.contains_key(t) implies nv[t] =~= sw[t] by {
            assert forall|f: NodeID| #[trigger] nv[t].contains_key(f) == sw[t].contains_key(f) by {
                if nv[t].contains_key(f) {
                    assert(has_edge(nv, t, f));
                    let i = choose|i: int| 0 <= i < triples.len() && #[trigger] triples@[i].0 == f && triples@[i].1 == t;
                }
                if sw[t].contains_key(f) {
                    assert(has_edge(ev, f, t));
                    let i = choose|i: int| 0 <= i < triples.len() && #[trigger] triples@[i].0 == f && triples@[i].1 == t;
                    assert(has_edge(nv, t, f));
                }
            }
            assert forall|f: NodeID| #[trigger] nv[t].contains_key(f) implies nv[t][f] == sw[t][f] by {
                assert(has_edge(nv, t, f));
                let i = choose|i: int| 0 <= i < triples.len() && #[trigger] triples@[i].0 == f && triples@[i].1 == t;
                assert(nv[triples@[i].1][triples@[i].0] == triples@[i].2);
            }
        }
        assert(nv =~= sw);
    }
    out
}


/// The edges with the given weights into the layer whose nodes are listed (by position) in
/// `next`, as (position, weight) pairs in increasing position.
pub open spec fn edge_index_seq(weights: Map<NodeID, usize>, next: Seq<NodeID>) -> Seq<(usize, usize)>
    decreases next.len(),
{
    if next.len() == 0 {
        Seq::empty()
    } else {
        let rest = edge_index_seq(weights, next.drop_last());
        if weights.contains_key(next.last()) {
            rest.push(((next.len() - 1) as usize, weights[next.last()]))
        } else {
            rest
        }
    }
}

/// The (position, weight) pairs are strictly increasing in position, and are exactly the
/// pairs of the nodes of `next` that carry a weight.
pub proof fn lemma_edge_index_seq(weights: Map<NodeID, usize>, next: Seq<NodeID>)
    requires
        next.len() <= usize::MAX + 1,
    ensures
        forall|i: int, j: int| 0 <= i < j < edge_index_seq(weights, next).len() ==>
            edge_index_seq(weights, next)[i].0 < edge_index_seq(weights, next)[j].0,
        forall|i: int| 0 <= i < edge_index_seq(weights, next).len() ==> {
            let p = (#[trigger] edge_index_seq(weights, next)[i]).0 as int;
            &&& 0 <= p < next.len()
            &&& weights.contains_key(next[p])
            &&& edge_index_seq(weights, next)[i].1 == weights[next[p]]
        },
        forall|p: int| 0 <= p < next.len() && weights.contains_key(#[trigger] next[p]) ==>
            exists|i: int| 0 <= i < edge_index_seq(weights, next).len() && #[trigger] edge_index_seq(weights, next)[i].0 == p,
    decreases next.len(),
{
    if next.len() > 0 {
        lemma_edge_index_seq(weights, next.drop_last());
        let rest = edge_index_seq(weights, next.drop_last());
        let es = edge_index_seq(weights, next);
        assert forall|i: int| 0 <= i < es.len() implies {
            let p = (#[trigger] es[i]).0 as int;
            &&& 0 <= p < next.len()
            &&& weights.contains_key(next[p])
            &&& es[i].1 == weights[next[p]]
        } by {
            if i < rest.len() {
                assert(es[i] == rest[i]);
                assert(next.drop_last()[rest[i].0 as int] == next[rest[i].0 as int]);
            }
        }
        assert forall|p: int| 0 <= p < next.len() && weights.contains_key(#[trigger] next[p]) implies
            exists|i: int| 0 <= i < es.len() && #[trigger] es[i].0 == p by {
            if p < next.len() - 1 {
                assert(next.drop_last()[p] == next[p]);
                let i = choose|i: int| 0 <= i < rest.len() && #[trigger] rest[i].0 == p;
                assert(es[i] == rest[i]);
            } else {
                assert(es[es.len() - 1].0 == p);
            }
        }
    }
}

/// The pairs of `weights` whose node is in the order, as (position, weight) sorted by position.
pub(crate) fn edge_index_seq_for(weights: &HashMap<NodeID, usize>, next: &Vec<NodeID>) -> (out: Vec<(usize, usize)>)
    ensures
        out@ == edge_index_seq(weights@, next@),
{
    let mut out: Vec<(usize, usize)> = Vec::new();
    let mut p: usize = 0;
    while p < next.len()
        invariant
            p <= next.len(),
            out@ == edge_index_seq(weights@, next@.take(p as int)),
        decreases next.len() - p,
    {
        assert(next@.take(p + 1).drop_last() =~= next@.take(p as int));
        match weights.get(&next[p]) {
            Some(w) => {
                out.push((p, *w));
            },
            None => {},
        }
        p = p + 1;
    }
    assert(next@.take(next.len() as int) =~= next@);
    out
}

/// Lists the edges with the given weights into the nodes of an order, as
/// (position, weight) pairs sorted by position.
pub fn get_edge_index_sequence(weights: &HashMap<NodeID, usize>, order: &Order) -> (out: Vec<(usize, usize)>)
    requires
        is_order(order@),
    ensures
        out@ == edge_index_seq(weights@, order_seq(order@)),
{
    let next = get_sequence(order);
    edge_index_seq_for(weights, &next)
}

/// The number of leading pairs of `b` whose position is before `e`.
pub open spec fn count_before(e: usize, b: Seq<(usize, usize)>) -> nat
    decreases b.len(),
{
    if b.len() == 0 {
        0
    } else if b[0].0 >= e {
        0
    } else {
        1 + count_before(e, b.drop_first())
    }
}

/// The sum of the weights of the pairs.
pub open spec fn weight_sum(b: Seq<(usize, usize)>) -> nat
    decreases b.len(),
{
    if b.len() == 0 {
        0
    } else {
        weight_sum(b.drop_last()) + (b.last().1 as nat)
    }
}

/// The weighted crossings of an edge `x` with the edges of `b` that start before it.
pub open spec fn prefix_crossings(x: (usize, usize), b: Seq<(usize, usize)>) -> nat {
    (x.1 as nat) * weight_sum(b.take(count_before(x.0, b) as int))
}

/// The weighted crossings between the edges `a` of a node and the edges `b` of a node right of it.
pub open spec fn pair_crossings(a: Seq<(usize, usize)>, b: Seq<(usize, usize)>) -> nat
    decreases a.len(),
{
    if a.len() == 0 {
        0
    } else {
        pair_crossings(a.drop_last(), b) + prefix_crossings(a.last(), b)
    }
}

proof fn lemma_count_before(e: usize, b: Seq<(usize, usize)>)
    ensures
        count_before(e, b) <= b.len(),
        forall|j: int| 0 <= j < count_before(e, b) ==> (#[trigger] b[j]).0 < e,
        count_before(e, b) < b.len() ==> b[count_before(e, b) as int].0 >= e,
    decreases b.len(),
{
    if b.len() > 0 && b[0].0 < e {
        lemma_count_before(e, b.drop_first());
        assert forall|j: int| 0 <= j < count_before(e, b) implies (#[trigger] b[j]).0 < e by {
            if j > 0 {
                assert(b[j] == b.drop_first()[j - 1]);
            }
        }
    }
}

proof fn lemma_weight_sum_take(b: Seq<(usize, usize)>, j: int)
    requires
        0 <= j < b.len(),
    ensures
        weight_sum(b.take(j + 1)) == weight_sum(b.take(j)) + b[j].1,
{
    assert(b.take(j + 1).drop_last() =~= b.take(j));
}

proof fn lemma_weight_sum_mono(b: Seq<(usize, usize)>, i: int, j: int)
    requires
        0 <= i <= j <= b.len(),
    ensures
        weight_sum(b.take(i)) <= weight_sum(b.take(j)),
    decreases j - i,
{
    if i < j {
        lemma_weight_sum_mono(b, i, j - 1);
        lemma_weight_sum_take(b, j - 1);
    }
}

proof fn lemma_pair_crossings_take(a: Seq<(usize, usize)>, b: Seq<(usize, usize)>, i: int)
    requires
        0 <= i < a.len(),
    ensures
        pair_crossings(a.take(i + 1), b) == pair_crossings(a.take(i), b) + prefix_crossings(a[i], b),
{
    assert(a.take(i + 1).drop_last() =~= a.take(i));
}

proof fn lemma_pair_crossings_mono(a: Seq<(usize, usize)>, b: Seq<(usize, usize)>, i: int, j: int)
    requires
        0 <= i <= j <= a.len(),
    ensures
        pair_crossings(a.take(i), b) <= pair_crossings(a.take(j), b),
    decreases j - i,
{
    if i < j {
        lemma_pair_crossings_mono(a, b, i, j - 1);
        lemma_pair_crossings_take(a, b, j - 1);
    }
}

/// Counts the weighted crossings between the edges of a node (left) and of a node to its right,
/// each given as (position, weight) pairs sorted by position.
pub fn count_pair_crossings(pair: (&Vec<(usize, usize)>, &Vec<(usize, usize)>)) -> (out: usize)
    requires
        pair_crossings(pair.0@, pair.1@) <= usize::MAX,
    ensures
        out == pair_crossings(pair.0@, pair.1@),
{
    let (node_edges, next_node_edges) = pair;
    let ghost a = node_edges@;
    let ghost b = next_node_edges@;
    let mut cross_count: usize = 0;
    let mut i: usize = 0;
    while i < node_edges.len()
        invariant
            a == node_edges@,
            b == next_node_edges@,
            pair_crossings(a, b) <= usize::MAX,
            i <= a.len(),
            cross_count == pair_crossings(a.take(i as int), b),
        decreases a.len() - i,
    {
        let (edge, weight) = node_edges[i];
        proof {
            lemma_count_before(edge, b);
            lemma_pair_crossings_take(a, b, i as int);
            lemma_pair_crossings_mono(a, b, i + 1, a.len() as int);
            assert(a.take(a.len() as int) =~= a);
        }
        let ghost base = cross_count;
        let ghost bound = count_before(edge, b);
        assert(b.take(0) =~= Seq::<(usize, usize)>::empty());
        assert(weight_sum(b.take(0)) == 0);
        assert(weight * weight_sum(b.take(0)) == 0);
        let mut j: usize = 0;
        while j < next_node_edges.len()
            invariant
                a == node_edges@,
                b == next_node_edges@,
                (edge, weight) == a[i as int],
                bound == count_before(edge, b),
                bound <= b.len(),
                forall|x: int| 0 <= x < bound ==> (#[trigger] b[x]).0 < edge,
                bound < b.len() ==> b[bound as int].0 >= edge,
                j <= bound,
                base + weight * weight_sum(b.take(bound as int)) <= usize::MAX,
                cross_count == base + weight * weight_sum(b.take(j as int)),
            ensures
                j == bound,
                cross_count == base + weight * weight_sum(b.take(bound as int)),
            decreases b.len() - j,
        {
            let (next_edge, next_weight) = next_node_edges[j];
            if next_edge >= edge {
                break;
            }
            proof {
                lemma_weight_sum_take(b, j as int);
                lemma_weight_sum_mono(b, j + 1, bound as int);
                assert(weight * weight_sum(b.take(j + 1)) <= weight * weight_sum(b.take(bound as int))) by (nonlinear_arith)
                    requires weight_sum(b.take(j + 1)) <= weight_sum(b.take(bound as int));
                assert(weight * weight_sum(b.take(j + 1)) == weight * weight_sum(b.take(j as int)) + weight * next_weight) by (nonlinear_arith)
                    requires weight_sum(b.take(j + 1)) == weight_sum(b.take(j as int)) + next_weight;
            }
            cross_count += weight * next_weight;
            j = j + 1;
        }
        i = i + 1;
    }
    assert(a.take(a.len() as int) =~= a);
    cross_count
}


/// The edges of `node` into the layer listed by `next`, as sorted (position, weight) pairs.
pub open spec fn node_edge_list(ev: Map<NodeID, Map<NodeID, usize>>, node: NodeID, next: Seq<NodeID>) -> Seq<(usize, usize)> {
    if ev.contains_key(node) {
        edge_index_seq(ev[node], next)
    } else {
        Seq::empty()
    }
}

/// The crossings of the edges of the node at position `i` with those of the nodes at
/// positions `i + 1 .. j`.
pub open spec fn row_crossings(ls: Seq<Seq<(usize, usize)>>, i: int, j: int) -> nat
    decreases j - i,
{
    if j <= i + 1 {
        0
    } else {
        row_crossings(ls, i, j - 1) + pair_crossings(ls[i], ls[j - 1])
    }
}

/// The crossings between the edges of the nodes at positions `0 .. r` and the nodes right of them.
pub open spec fn rows_crossings(ls: Seq<Seq<(usize, usize)>>, r: int) -> nat
    decreases r,
{
    if r <= 0 {
        0
    } else {
        rows_crossings(ls, r - 1) + row_crossings(ls, r - 1, ls.len() as int)
    }
}

/// The edge lists of the nodes of a layer (listed by position) into the next layer.
pub open spec fn layer_edge_lists(layer: Seq<NodeID>, ev: Map<NodeID, Map<NodeID, usize>>, next: Seq<NodeID>) -> Seq<Seq<(usize, usize)>> {
    layer.map_values(|n: NodeID| node_edge_list(ev, n, next))
}

/// The number of weighted edge crossings between two consecutive layers: every pair of
/// edges (u, x) and (v, y) with u left of v and y left of x counts with the product of
/// their weights.
pub open spec fn crossings(o0: Map<NodeID, usize>, o1: Map<NodeID, usize>, ev: Map<NodeID, Map<NodeID, usize>>) -> nat {
    let ls = layer_edge_lists(order_seq(o0), ev, order_seq(o1));
    rows_crossings(ls, ls.len() as int)
}

proof fn lemma_row_crossings_mono(ls: Seq<Seq<(usize, usize)>>, i: int, j: int, k: int)
    requires
        j <= k,
    ensures
        row_crossings(ls, i, j) <= row_crossings(ls, i, k),
    decreases k - j,
{
    if j < k {
        lemma_row_crossings_mono(ls, i, j, k - 1);
    }
}

proof fn lemma_rows_crossings_mono(ls: Seq<Seq<(usize, usize)>>, r: int, s: int)
    requires
        r <= s,
    ensures
        rows_crossings(ls, r) <= rows_crossings(ls, s),
    decreases s - r,
{
    if r < s {
        lemma_rows_crossings_mono(ls, r, s - 1);
    }
}

/// Counts the number of weighted edge crossings between two consecutive layers.
pub fn count_crossings(order: (&Order, &Order), edges: &EdgeMap) -> (out: usize)
    requires
        is_order(order.0@),
        is_order(order.1@),
        crossings(order.0@, order.1@, edge_view(edges@)) <= usize::MAX,
    ensures
        out == crossings(order.0@, order.1@, edge_view(edges@)),
{
    let ghost ev = edge_view(edges@);
    let ordered_nodes = get_sequence(order.0);
    let next_nodes = get_sequence(order.1);
    let ghost ls = layer_edge_lists(ordered_nodes@, ev, next_nodes@);
    let len = ordered_nodes.len();
    let mut lists: Vec<Vec<(usize, usize)>> = Vec::new();
    let mut p: usize = 0;
    while p < len
        invariant
            len == ordered_nodes.len(),
            ev == edge_view(edges@),
            ls == layer_edge_lists(ordered_nodes@, ev, next_nodes@),
            p <= len,
            lists.len() == p,
            forall|q: int| 0 <= q < p ==> (#[trigger] lists@[q])@ == ls[q],
        decreases len - p,
    {
        let l = match edges.get(&ordered_nodes[p]) {
            Some(weights) => edge_index_seq_for(weights, &next_nodes),
            None => Vec::new(),
        };
        lists.push(l);
        p = p + 1;
    }
    if len == 0 {
        return 0;
    }
    let mut total: usize = 0;
    let mut i: usize = 0;
    while i < len - 1
        invariant
            len == ordered_nodes.len(),
            len > 0,
            ls.len() == len,
            lists.len() == len,
            forall|q: int| 0 <= q < len ==> (#[trigger] lists@[q])@ == ls[q],
            rows_crossings(ls, len as int) <= usize::MAX,
            i <= len - 1,
            total == rows_crossings(ls, i as int),
        decreases len - 1 - i,
    {
        let ghost base = total;
        proof {
            lemma_rows_crossings_mono(ls, i + 1, len as int);
        }
        let mut j: usize = i + 1;
        while j < len
            invariant
                len == ordered_nodes.len(),
                ls.len() == len,
                lists.len() == len,
                forall|q: int| 0 <= q < len ==> (#[trigger] lists@[q])@ == ls[q],
                i < j <= len,
                base + row_crossings(ls, i as int, len as int) <= usize::MAX,
                total == base + row_crossings(ls, i as int, j as int),
            decreases len - j,
        {
            proof {
                lemma_row_crossings_mono(ls, i as int, j + 1, len as int);
            }
            let c = count_pair_crossings((&lists[i], &lists[j]));
            total += c;
            j = j + 1;
        }
        i = i + 1;
    }
    proof {
        assert(rows_crossings(ls, len as int) == rows_crossings(ls, len - 1) + row_crossings(ls, len - 1, len as int));
    }
    total
}


/// The nodes of `next` that carry a weight, in position order.
pub open spec fn successor_seq(weights: Map<NodeID, usize>, next: Seq<NodeID>) -> Seq<NodeID> {
    edge_index_seq(weights, next).map_values(|pw: (usize, usize)| next[pw.0 as int])
}

/// The successor lists of an ordered edge map as a map of sequences.
pub open spec fn ordered_view(m: Map<NodeID, Vec<NodeID>>) -> Map<NodeID, Seq<NodeID>> {
    Map::new(|k: NodeID| m.contains_key(k), |k: NodeID| m[k]@)
}

/// The ordered successor lists of the nodes of the layers `0 .. i` into their next layer; a
/// node that occurs in several layers gets the list of the last one.
pub open spec fn ordered_edges_upto(
    orders: Seq<Map<NodeID, usize>>,
    ev: Map<NodeID, Map<NodeID, usize>>,
    i: int,
) -> Map<NodeID, Seq<NodeID>>
    decreases i,
{
    if i <= 0 {
        Map::empty()
    } else {
        let prev = ordered_edges_upto(orders, ev, i - 1);
        let layer = orders[i - 1];
        let next = order_seq(orders[i]);
        Map::new(
            |n: NodeID| prev.contains_key(n) || (layer.contains_key(n) && ev.contains_key(n)),
            |n: NodeID| if layer.contains_key(n) && ev.contains_key(n) { successor_seq(ev[n], next) } else { prev[n] },
        )
    }
}

/// For every node of a layer with edges, its successors in the next layer, by position.
pub open spec fn ordered_edge_map(orders: Seq<Map<NodeID, usize>>, ev: Map<NodeID, Map<NodeID, usize>>) -> Map<NodeID, Seq<NodeID>> {
    if orders.len() == 0 {
        Map::empty()
    } else {
        ordered_edges_upto(orders, ev, orders.len() - 1)
    }
}

/// The views of a sequence of orders.
pub open spec fn orders_view(orders: Seq<Order>) -> Seq<Map<NodeID, usize>> {
    orders.map_values(|o: Order| o@)
}

/// Every layer is a valid order.
pub open spec fn all_orders(orders: Seq<Map<NodeID, usize>>) -> bool {
    forall|i: int| 0 <= i < orders.len() ==> is_order(#[trigger] orders[i])
}

/// The successors of a node with the given weights, sorted by their position in the next layer.
fn successors_for(weights: &HashMap<NodeID, usize>, next: &Vec<NodeID>) -> (out: Vec<NodeID>)
    requires
        next.len() <= usize::MAX,
    ensures
        out@ == successor_seq(weights@, next@),
{
    let pairs = edge_index_seq_for(weights, next);
    proof {
        lemma_edge_index_seq(weights@, next@);
    }
    let mut out: Vec<NodeID> = Vec::new();
    let mut k: usize = 0;
    while k < pairs.len()
        invariant
            pairs@ == edge_index_seq(weights@, next@),
            forall|i: int| 0 <= i < pairs.len() ==> ((#[trigger] pairs@[i]).0 as int) < next.len(),
            k <= pairs.len(),
            out.len() == k,
            forall|i: int| 0 <= i < k ==> #[trigger] out@[i] == next@[pairs@[i].0 as int],
        decreases pairs.len() - k,
    {
        out.push(next[pairs[k].0]);
        k = k + 1;
    }
    assert(out@ =~= successor_seq(weights@, next@));
    out
}

/// For every node with edges, lists its successors in the next layer sorted by position.
pub fn get_ordered_edge_map(edge_map: &EdgeMap, orders: &Vec<Order>) -> (out: OrderedEdgeMap)
    requires
        all_orders(orders_view(orders@)),
    ensures
        ordered_view(out@) == ordered_edge_map(orders_view(orders@), edge_view(edge_map@)),
{
    let ghost ov = orders_view(orders@);
    let ghost ev = edge_view(edge_map@);
    let mut out: OrderedEdgeMap = HashMap::new();
    if orders.len() == 0 {
        assert(ordered_view(out@) =~= ordered_edge_map(ov, ev));
        return out;
    }
    let mut i: usize = 0;
    while i < orders.len() - 1
        invariant
            ov == orders_view(orders@),
            ev == edge_view(edge_map@),
            all_orders(ov),
            orders.len() > 0,
            i <= orders.len() - 1,
            ordered_view(out@) == ordered_edges_upto(ov, ev, i as int),
        decreases orders.len() - 1 - i,
    {
        assert(is_order(ov[i as int]) && is_order(ov[i + 1]));
        let layer = get_sequence(&orders[i]);
        let next_layer = get_sequence(&orders[i + 1]);
        let ghost prev = ordered_edges_upto(ov, ev, i as int);
        proof {
            lemma_order_seq(ov[i as int]);
        }
        let mut p: usize = 0;
        while p < layer.len()
            invariant
                ov == orders_view(orders@),
                ev == edge_view(edge_map@),
                layer@ == order_seq(ov[i as int]),
                layer@.no_duplicates(),
                next_layer@ == order_seq(ov[i + 1]),
                prev == ordered_edges_upto(ov, ev, i as int),
                p <= layer.len(),
                ordered_view(out@) == Map::new(
                    |n: NodeID| prev.contains_key(n) || (layer@.take(p as int).contains(n) && ev.contains_key(n)),
                    |n: NodeID| if layer@.take(p as int).contains(n) && ev.contains_key(n) { successor_seq(ev[n], next_layer@) } else { prev[n] },
                ),
            decreases layer.len() - p,
        {
            let node = layer[p];
            let ghost before = ordered_view(out@);
            match edge_map.get(&node) {
                Some(weights) => {
                    let succ = successors_for(weights, &next_layer);
                    assert(weights@ == ev[node]);
                    out.insert(node, succ);
                    assert(ordered_view(out@) =~= before.insert(node, successor_seq(ev[node], next_layer@)));
                },
                None => {
                    assert(!ev.contains_key(node));
                },
            }
            proof {
                let target = Map::new(
                    |n: NodeID| prev.contains_key(n) || (layer@.take(p + 1).contains(n) && ev.contains_key(n)),
                    |n: NodeID| if layer@.take(p + 1).contains(n) && ev.contains_key(n) { successor_seq(ev[n], next_layer@) } else { prev[n] },
                );
                assert forall|n: NodeID| #[trigger] layer@.take(p + 1).contains(n) <==> (layer@.take(p as int).contains(n) || n == node) by {
                    if layer@.take(p + 1).contains(n) {
                        let x = choose|x: int| 0 <= x < p + 1 && #[trigger] layer@.take(p + 1)[x] == n;
                        if x < p {
                            assert(layer@.take(p as int)[x] == n);
                        }
                    }
                    if layer@.take(p as int).contains(n) {
                        let x = choose|x: int| 0 <= x < p && #[trigger] layer@.take(p as int)[x] == n;
                        assert(layer@.take(p + 1)[x] == n);
                    }
                    if n == node {
                        assert(layer@.take(p + 1)[p as int] == n);
                    }
                }
                assert(!layer@.take(p as int).contains(node)) by {
                    if layer@.take(p as int).contains(node) {
                        let x = choose|x: int| 0 <= x < p && #[trigger] layer@.take(p as int)[x] == node;
                        assert(layer@[x] == layer@[p as int]);
                    }
                }
                assert(ordered_view(out@) =~= target);
            }
            p = p + 1;
        }
        proof {
            assert(layer@.take(layer.len() as int) =~= layer@);
            lemma_order_seq(ov[i as int]);
            assert forall|n: NodeID| layer@.contains(n) <==> ov[i as int].contains_key(n) by {
                if ov[i as int].contains_key(n) {
                    assert(layer@[ov[i as int][n] as int] == n);
                }
                if layer@.contains(n) {
                    assert(layer@.to_set().contains(n));
                }
            }
            assert(ordered_view(out@) =~= ordered_edges_upto(ov, ev, i + 1));
        }
        i = i + 1;
    }
    out
}


/// In a valid order, the number of nodes placed before position `c` is `c`.
pub proof fn lemma_order_rank(m: Map<NodeID, usize>, c: int)
    requires
        is_order(m),
        0 <= c <= m.dom().len(),
    ensures
        m.dom().filter(|v: NodeID| (m[v] as int) < c).finite(),
        m.dom().filter(|v: NodeID| (m[v] as int) < c).len() == c,
{
    let s = m.dom().filter(|v: NodeID| (m[v] as int) < c);
    let f = |v: NodeID| m[v] as int;
    lemma_order_seq(m);
    assert(s.subset_of(m.dom()));
    vstd::set_lib::lemma_len_subset(s, m.dom());
    assert(vstd::relations::injective_on(f, s));
    lemma_int_range(0, c);
    assert(s.map(f) =~= set_int_range(0, c)) by {
        assert forall|i: int| set_int_range(0, c).contains(i) implies s.map(f).contains(i) by {
            assert(0 <= i < m.dom().len());
            assert(m.contains_key(order_seq(m)[i]) && m[order_seq(m)[i]] == i);
            assert(s.contains(order_seq(m)[i]));
        }
    }
    lemma_map_size(s, set_int_range(0, c), f);
}

/// Two valid orders of the same nodes that agree on which of any two nodes comes first are equal.
pub proof fn lemma_orders_equal(m1: Map<NodeID, usize>, m2: Map<NodeID, usize>)
    requires
        is_order(m1),
        is_order(m2),
        m1.dom() == m2.dom(),
        forall|u: NodeID, v: NodeID| m1.contains_key(u) && m1.contains_key(v) ==>
            (#[trigger] m1[u] < #[trigger] m1[v] <==> m2[u] < m2[v]),
    ensures
        m1 == m2,
{
    assert forall|u: NodeID| m1.contains_key(u) implies m1[u] == m2[u] by {
        let s1 = m1.dom().filter(|v: NodeID| (m1[v] as int) < (m1[u] as int));
        let s2 = m2.dom().filter(|v: NodeID| (m2[v] as int) < (m2[u] as int));
        assert(s1 =~= s2) by {
            assert forall|v: NodeID| s1.contains(v) <==> s2.contains(v) by {
                if m1.contains_key(v) {
                    assert(m1[v] < m1[u] <==> m2[v] < m2[u]);
                }
            }
        }
        lemma_order_rank(m1, m1[u] as int);
        lemma_order_rank(m2, m2[u] as int);
    }
    assert(m1 =~= m2);
}

/// Builds the order that places each node of the sequence at its position.
pub fn order_from_sequence(seq: &Vec<NodeID>) -> (out: Order)
    requires
        seq@.no_duplicates(),
    ensures
        out@ == seq_order(seq@),
        is_order(out@),
        out@.dom() == seq@.to_set(),
        out@.len() == seq.len(),
        forall|i: int| 0 <= i < seq.len() ==> #[trigger] out@[seq@[i]] == i,
        order_seq(out@) == seq@,
{
    let mut out: Order = HashMap::new();
    let mut k: usize = 0;
    while k < seq.len()
        invariant
            seq@.no_duplicates(),
            k <= seq.len(),
            out@.dom() == seq@.take(k as int).to_set(),
            forall|j: int| 0 <= j < k ==> #[trigger] out@[seq@[j]] == j,
        decreases seq.len() - k,
    {
        out.insert(seq[k], k);
        proof {
            assert(out@.dom() =~= seq@.take(k + 1).to_set()) by {
                assert forall|n: NodeID| out@.dom().contains(n) <==> seq@.take(k + 1).to_set().contains(n) by {
                    if seq@.take(k as int).to_set().contains(n) {
                        let x = choose|x: int| 0 <= x < k && #[trigger] seq@.take(k as int)[x] == n;
                        assert(seq@.take(k + 1)[x] == n);
                    }
                    if seq@.take(k + 1).to_set().contains(n) {
                        let x = choose|x: int| 0 <= x < k + 1 && #[trigger] seq@.take(k + 1)[x] == n;
                        if x < k {
                            assert(seq@.take(k as int)[x] == n);
                        }
                    }
                    assert(seq@.take(k + 1)[k as int] == seq@[k as int]);
                }
            }
            assert forall|j: int| 0 <= j < k + 1 implies #[trigger] out@[seq@[j]] == j by {
                if j < k {
                    assert(seq@[j] != seq@[k as int]);
                }
            }
        }
        k = k + 1;
    }
    proof {
        assert(seq@.take(seq.len() as int) =~= seq@);
        lemma_seq_order(seq@);
        let so = seq_order(seq@);
        assert forall|n: NodeID| out@.contains_key(n) implies out@[n] == so[n] by {
            let x = choose|x: int| 0 <= x < seq.len() && #[trigger] seq@[x] == n;
            assert(so[seq@[x]] == x);
        }
        assert(out@ =~= so);
    }
    out
}


/// The groups of a list of groups of nodes.
pub open spec fn groups_view(groups: Seq<Vec<NodeID>>) -> Seq<Seq<NodeID>> {
    groups.map_values(|g: Vec<NodeID>| g@)
}

/// Every group lists distinct nodes of `layer`, and no node is in two groups.
pub open spec fn groups_well_formed(groups: Seq<Seq<NodeID>>, layer: Map<NodeID, usize>) -> bool {
    &&& forall|g: int| 0 <= g < groups.len() ==> (#[trigger] groups[g]).no_duplicates()
    &&& forall|g: int, i: int| 0 <= g < groups.len() && 0 <= i < groups[g].len() ==> layer.contains_key(#[trigger] groups[g][i])
    &&& forall|g: int, h: int, i: int, j: int|
        0 <= g < groups.len() && 0 <= h < groups.len() && g != h && 0 <= i < groups[g].len() && 0 <= j < groups[h].len() ==>
            #[trigger] groups[g][i] != #[trigger] groups[h][j]
}

/// Every group lists its nodes in the order they have in `layer`.
pub open spec fn groups_in_layer_order(groups: Seq<Seq<NodeID>>, layer: Map<NodeID, usize>) -> bool {
    forall|g: int, i: int, j: int| 0 <= g < groups.len() && 0 <= i < j < groups[g].len() ==>
        layer[#[trigger] groups[g][i]] < layer[#[trigger] groups[g][j]]
}

/// Orders a single layer using the order of a neighbouring layer.
pub trait LayerOrderer {
    /// The orderer can handle `layer` next to `next` with the edges `ev`.
    spec fn accepts(&self, layer: Map<NodeID, usize>, next: Map<NodeID, usize>, ev: Map<NodeID, Map<NodeID, usize>>) -> bool;

    /// The order that `order` gives.
    spec fn order_spec(&self, layer: Map<NodeID, usize>, next: Map<NodeID, usize>, ev: Map<NodeID, Map<NodeID, usize>>) -> Map<NodeID, usize>;

    /// The groups that `get_equal_groups` gives.
    spec fn equal_groups_spec(&self, layer: Map<NodeID, usize>, next: Map<NodeID, usize>, ev: Map<NodeID, Map<NodeID, usize>>) -> Seq<Seq<NodeID>>;

    /// The answer of `is_sorted`.
    spec fn sorted_spec(&self, layer: Map<NodeID, usize>, next: Map<NodeID, usize>, ev: Map<NodeID, Map<NodeID, usize>>) -> bool;

    /// Orders the given layer, using the info of the given next layer. The edges may contain
    /// more edges than just the ones relevant for the nodes in the given order.
    fn order(&self, layer: &Order, next_layer: &Order, edges: &EdgeMap) -> (out: Order)
        requires
            is_order(layer@),
            is_order(next_layer@),
            self.accepts(layer@, next_layer@, edge_view(edges@)),
        ensures
            out@ == self.order_spec(layer@, next_layer@, edge_view(edges@)),
            is_order(out@),
            out@.dom() == layer@.dom(),
    ;

    /// Retrieves groups of nodes that are ordered equally in the given layer; every group is
    /// given in the order that its nodes have in the layer.
    fn get_equal_groups(&self, layer: &Order, next_layer: &Order, edges: &EdgeMap) -> (out: Vec<Vec<NodeID>>)
        requires
            is_order(layer@),
            is_order(next_layer@),
            self.accepts(layer@, next_layer@, edge_view(edges@)),
        ensures
            groups_view(out@) == self.equal_groups_spec(layer@, next_layer@, edge_view(edges@)),
            groups_well_formed(groups_view(out@), layer@),
            groups_in_layer_order(groups_view(out@), layer@),
    ;

    /// Checks whether the layer is correctly sorted already.
    fn is_sorted(&self, layer: &Order, next_layer: &Order, edges: &EdgeMap) -> (out: bool)
        requires
            is_order(layer@),
            is_order(next_layer@),
            self.accepts(layer@, next_layer@, edge_view(edges@)),
        ensures
            out == self.sorted_spec(layer@, next_layer@, edge_view(edges@)),
    ;
}

} // verus!
