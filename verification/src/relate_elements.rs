use std::collections::HashMap;
use vstd::prelude::*;
use crate::layer_orderer::NodeID;
use crate::layered_layout::EdgeData;

verus! {

broadcast use vstd::std_specs::hash::group_hash_axioms;

/// An edge of a layout: the group it leaves and its data.
pub type GroupEdge = (NodeID, EdgeData);

/// The map from old groups back to new groups, built by walking the pairs (new group, old group
/// it comes from) in order: an old group maps to the first new group that comes from it, unless
/// a new group of the same id comes from it, which takes over.
pub open spec fn reverse_mapping(pg: Seq<(NodeID, NodeID)>) -> Map<NodeID, NodeID>
    decreases pg.len(),
{
    if pg.len() == 0 {
        Map::empty()
    } else {
        let m = reverse_mapping(pg.drop_last());
        let g = pg.last().0;
        let o = pg.last().1;
        if !m.contains_key(o) || g == o { m.insert(o, g) } else { m }
    }
}

/// The new id of the old group `x`, which keeps its id where nothing maps it.
pub open spec fn renamed(m: Map<NodeID, NodeID>, x: NodeID) -> NodeID {
    if m.contains_key(x) { m[x] } else { x }
}

/// The group that the deleted group `x` hides into, or `x` itself.
pub open spec fn hidden_in(d: Map<NodeID, Option<NodeID>>, x: NodeID) -> NodeID {
    if d.contains_key(x) && d[x] is Some { d[x]->0 } else { x }
}

/// The old edge that the new edge `key` comes from: the first entry of `pe` for it.
pub open spec fn edge_source(pe: Seq<(GroupEdge, GroupEdge)>, key: GroupEdge) -> Option<GroupEdge>
    decreases pe.len(),
{
    if pe.len() == 0 {
        None
    } else if pe[0].0 == key {
        Some(pe[0].1)
    } else {
        edge_source(pe.drop_first(), key)
    }
}

/// `g` is one of the new groups that come from an old group.
pub open spec fn has_group(pg: Seq<(NodeID, NodeID)>, g: NodeID) -> bool {
    exists|i: int| 0 <= i < pg.len() && #[trigger] pg[i].0 == g
}

/// Some edge of a new group that comes from an old group comes from the old edge `old`.
pub open spec fn edge_kept(new_edges: Seq<GroupEdge>, pg: Seq<(NodeID, NodeID)>, pe: Seq<(GroupEdge, GroupEdge)>, old: GroupEdge) -> bool {
    exists|k: int| 0 <= k < new_edges.len() && has_group(pg, (#[trigger] new_edges[k]).0) && edge_source(pe, new_edges[k]) == Some(old)
}

/// A deleted old edge in terms of the new layout: its group and target renamed through `m`,
/// and whether both ends hide into the same group (so that the edge morphs instead of fading).
pub open spec fn deleted_entry(m: Map<NodeID, NodeID>, d: Map<NodeID, Option<NodeID>>, old: GroupEdge) -> (NodeID, EdgeData, bool) {
    let from = renamed(m, old.0);
    let to = renamed(m, old.1.to);
    (from, EdgeData { to, from_level: old.1.from_level, to_level: old.1.to_level, edge_type: old.1.edge_type },
        hidden_in(d, from) == hidden_in(d, to))
}

/// The sequence with every entry after its first occurrence left out.
pub open spec fn without_repeats<A>(s: Seq<A>) -> Seq<A>
    decreases s.len(),
{
    if s.len() == 0 {
        s
    } else {
        let d = without_repeats(s.drop_last());
        if d.contains(s.last()) { d } else { d.push(s.last()) }
    }
}

/// Leaving out repeats keeps every entry once and nothing else.
pub proof fn lemma_without_repeats<A>(s: Seq<A>)
    ensures
        without_repeats(s).no_duplicates(),
        forall|x: A| #[trigger] without_repeats(s).contains(x) <==> s.contains(x),
    decreases s.len(),
{
    if s.len() > 0 {
        let t = s.drop_last();
        lemma_without_repeats(t);
        let d = without_repeats(t);
        assert forall|x: A| #[trigger] without_repeats(s).contains(x) <==> s.contains(x) by {
            if s.contains(x) {
                let i = choose|i: int| 0 <= i < s.len() && s[i] == x;
                if i < s.len() - 1 {
                    assert(t[i] == x);
                    assert(t.contains(x));
                }
            }
            if t.contains(x) {
                let i = choose|i: int| 0 <= i < t.len() && t[i] == x;
                assert(s[i] == x);
            }
            if !d.contains(s.last()) {
                assert(d.push(s.last())[d.len() as int] == s.last());
                if d.push(s.last()).contains(x) && x != s.last() {
                    let i = choose|i: int| 0 <= i < d.len() + 1 && d.push(s.last())[i] == x;
                    assert(d[i] == x);
                }
                if d.contains(x) {
                    let i = choose|i: int| 0 <= i < d.len() && d[i] == x;
                    assert(d.push(s.last())[i] == x);
                }
            }
        }
        if !d.contains(s.last()) {
            let e = d.push(s.last());
            assert forall|i: int, j: int| 0 <= i < j < e.len() implies e[i] != e[j] by {
                if j == d.len() {
                    assert(e[i] == d[i]);
                } else {
                    assert(e[i] == d[i] && e[j] == d[j]);
                }
            }
        }
    }
}

/// Every old edge that no new edge comes from, in terms of the new layout, repeats included.
pub open spec fn renamed_deleted_edges(
    old_edges: Seq<GroupEdge>,
    new_edges: Seq<GroupEdge>,
    pg: Seq<(NodeID, NodeID)>,
    d: Map<NodeID, Option<NodeID>>,
    pe: Seq<(GroupEdge, GroupEdge)>,
) -> Seq<(NodeID, EdgeData, bool)> {
    old_edges.filter(|x: GroupEdge| !edge_kept(new_edges, pg, pe, x))
        .map_values(|x: GroupEdge| deleted_entry(reverse_mapping(pg), d, x))
}

/// The deleted old edges in terms of the new layout, each renamed edge once (where two old
/// edges rename to the same group and edge, they also agree on the morph flag, which depends on
/// the renamed ends alone).
pub open spec fn deleted_edge_list(
    old_edges: Seq<GroupEdge>,
    new_edges: Seq<GroupEdge>,
    pg: Seq<(NodeID, NodeID)>,
    d: Map<NodeID, Option<NodeID>>,
    pe: Seq<(GroupEdge, GroupEdge)>,
) -> Seq<(NodeID, EdgeData, bool)> {
    without_repeats(renamed_deleted_edges(old_edges, new_edges, pg, d, pe))
}

fn same_edge(a: &GroupEdge, b: &GroupEdge) -> (out: bool)
    ensures
        out == (*a == *b),
{
    a.0 == b.0 && a.1 == b.1
}

/// The old edge that the new edge `key` comes from.
fn find_edge_source(pe: &Vec<(GroupEdge, GroupEdge)>, key: &GroupEdge) -> (out: Option<GroupEdge>)
    ensures
        out == edge_source(pe@, *key),
{
    let mut i: usize = 0;
    proof {
        assert(pe@.skip(0) =~= pe@);
    }
    while i < pe.len()
        invariant
            i <= pe.len(),
            edge_source(pe@.skip(i as int), *key) == edge_source(pe@, *key),
        decreases pe.len() - i,
    {
        proof {
            assert(pe@.skip(i as int)[0] == pe@[i as int]);
            assert(pe@.skip(i as int).drop_first() =~= pe@.skip(i + 1));
        }
        if same_edge(&pe[i].0, key) {
            return Some(pe[i].1);
        }
        i = i + 1;
    }
    None
}

/// Whether the list holds the entry.
fn holds_entry(list: &Vec<(NodeID, EdgeData, bool)>, e: &(NodeID, EdgeData, bool)) -> (out: bool)
    ensures
        out == list@.contains(*e),
{
    let mut i: usize = 0;
    while i < list.len()
        invariant
            i <= list.len(),
            forall|j: int| 0 <= j < i ==> #[trigger] list@[j] != *e,
        decreases list.len() - i,
    {
        if list[i].0 == e.0 && list[i].1 == e.1 && list[i].2 == e.2 {
            assert(list@[i as int] == *e);
            return true;
        }
        i = i + 1;
    }
    false
}

/// Whether `g` is one of the new groups in `pg`.
fn find_group(pg: &Vec<(NodeID, NodeID)>, g: NodeID) -> (out: bool)
    ensures
        out == has_group(pg@, g),
{
    let mut i: usize = 0;
    while i < pg.len()
        invariant
            i <= pg.len(),
            forall|j: int| 0 <= j < i ==> (#[trigger] pg@[j]).0 != g,
        decreases pg.len() - i,
    {
        if pg[i].0 == g {
            return true;
        }
        i = i + 1;
    }
    false
}

/// Whether some edge of a new group from `pg` comes from the old edge `old`.
fn is_kept(new_edges: &Vec<GroupEdge>, pg: &Vec<(NodeID, NodeID)>, pe: &Vec<(GroupEdge, GroupEdge)>, old: &GroupEdge) -> (out: bool)
    ensures
        out == edge_kept(new_edges@, pg@, pe@, *old),
{
    let mut k: usize = 0;
    while k < new_edges.len()
        invariant
            k <= new_edges.len(),
            forall|j: int| 0 <= j < k ==> !(has_group(pg@, (#[trigger] new_edges@[j]).0) && edge_source(pe@, new_edges@[j]) == Some(*old)),
        decreases new_edges.len() - k,
    {
        if find_group(pg, new_edges[k].0) {
            let src = find_edge_source(pe, &new_edges[k]);
            match src {
                Some(s) => {
                    if same_edge(&s, old) {
                        return true;
                    }
                }
                None => {}
            }
        }
        k = k + 1;
    }
    false
}

/// Finds the edges of the old layout that no edge of the new layout comes from, in terms of the
/// new layout. `old_edges` and `new_edges` list the edges of the two layouts with their groups,
/// `previous_groups` pairs new groups with the old groups they come from (in the order they are
/// walked), `deleted_groups` gives the group a deleted group hides into, and `previous_edges`
/// pairs new edges with the old edges they come from. Each deleted edge comes with its group and
/// target renamed to the new groups, and whether both ends hide into one group.
pub fn find_deleted_edges(
    old_edges: &Vec<GroupEdge>,
    new_edges: &Vec<GroupEdge>,
    previous_groups: &Vec<(NodeID, NodeID)>,
    deleted_groups: &HashMap<NodeID, Option<NodeID>>,
    previous_edges: &Vec<(GroupEdge, GroupEdge)>,
) -> (out: Vec<(NodeID, EdgeData, bool)>)
    ensures
        out@ == deleted_edge_list(old_edges@, new_edges@, previous_groups@, deleted_groups@, previous_edges@),
        out@.no_duplicates(),
        forall|e: (NodeID, EdgeData, bool)| #[trigger] out@.contains(e) <==>
            renamed_deleted_edges(old_edges@, new_edges@, previous_groups@, deleted_groups@, previous_edges@).contains(e),
{
    let ghost pg = previous_groups@;
    let mut rev: HashMap<NodeID, NodeID> = HashMap::new();
    let mut k: usize = 0;
    proof {
        assert(pg.take(0) =~= Seq::<(NodeID, NodeID)>::empty());
        assert(rev@ =~= reverse_mapping(pg.take(0)));
    }
    while k < previous_groups.len()
        invariant
            pg == previous_groups@,
            k <= pg.len(),
            rev@ == reverse_mapping(pg.take(k as int)),
        decreases pg.len() - k,
    {
        let (g, o) = previous_groups[k];
        proof {
            let t = pg.take(k + 1);
            assert(t.drop_last() =~= pg.take(k as int));
            assert(t.last() == pg[k as int]);
        }
        if !rev.contains_key(&o) || g == o {
            rev.insert(o, g);
        }
        k = k + 1;
    }
    proof {
        assert(pg.take(pg.len() as int) =~= pg);
    }
    let ghost m = rev@;
    let ghost d = deleted_groups@;
    let ghost keep = |x: GroupEdge| !edge_kept(new_edges@, pg, previous_edges@, x);
    let ghost entry = |x: GroupEdge| deleted_entry(m, d, x);
    let mut out: Vec<(NodeID, EdgeData, bool)> = Vec::new();
    let mut i: usize = 0;
    proof {
        assert(old_edges@.take(0) =~= Seq::<GroupEdge>::empty());
        reveal(Seq::filter);
        assert(out@ =~= without_repeats(old_edges@.take(0).filter(keep).map_values(entry)));
    }
    while i < old_edges.len()
        invariant
            pg == previous_groups@,
            m == rev@,
            m == reverse_mapping(pg),
            d == deleted_groups@,
            keep == (|x: GroupEdge| !edge_kept(new_edges@, pg, previous_edges@, x)),
            entry == (|x: GroupEdge| deleted_entry(m, d, x)),
            i <= old_edges.len(),
            out@ == without_repeats(old_edges@.take(i as int).filter(keep).map_values(entry)),
        decreases old_edges.len() - i,
    {
        let old = old_edges[i];
        let kept = is_kept(new_edges, previous_groups, previous_edges, &old);
        let ghost old_out = out@;
        if !kept {
            let from = match rev.get(&old.0) {
                Some(n) => *n,
                None => old.0,
            };
            let to = match rev.get(&old.1.to) {
                Some(n) => *n,
                None => old.1.to,
            };
            let from_hide = match deleted_groups.get(&from) {
                Some(Some(t)) => *t,
                _ => from,
            };
            let to_hide = match deleted_groups.get(&to) {
                Some(Some(t)) => *t,
                _ => to,
            };
            let edge = EdgeData { to, from_level: old.1.from_level, to_level: old.1.to_level, edge_type: old.1.edge_type };
            let item = (from, edge, from_hide == to_hide);
            if !holds_entry(&out, &item) {
                out.push(item);
            }
            proof {
                assert(from == renamed(m, old.0));
                assert(to == renamed(m, old.1.to));
                assert(from_hide == hidden_in(d, from));
                assert(to_hide == hidden_in(d, to));
            }
        }
        proof {
            old_edges@.lemma_take_succ_push(i as int);
            old_edges@.take(i as int).lemma_filter_push(old, keep);
            let prev = old_edges@.take(i as int).filter(keep);
            if !kept {
                prev.lemma_push_map_commute(entry, old);
                let l = prev.map_values(entry);
                assert(l.push(entry(old)).drop_last() =~= l);
                assert(without_repeats(l.push(entry(old))) == (if old_out.contains(entry(old)) { old_out } else { old_out.push(entry(old)) }));
            }
        }
        i = i + 1;
    }
    proof {
        assert(old_edges@.take(old_edges.len() as int) =~= old_edges@);
        lemma_without_repeats(renamed_deleted_edges(old_edges@, new_edges@, pg, d, previous_edges@));
    }
    out
}

} // verus!
