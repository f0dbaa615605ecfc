use vstd::prelude::*;
use crate::layer_orderer::{
    NodeID, is_order, order_seq, edge_index_seq, count_before, weight_sum, prefix_crossings, pair_crossings,
    row_crossings, rows_crossings, layer_edge_lists, node_edge_list, crossings, swapped, has_edge, lemma_order_seq,
    lemma_edge_index_seq,
};

verus! {

/// The sum of `f(0) .. f(n - 1)`.
pub open spec fn sum(n: int, f: spec_fn(int) -> int) -> int
    decreases n,
{
    if n <= 0 { 0 } else { sum(n - 1, f) + f(n - 1) }
}

proof fn lemma_sum_cong(n: int, f: spec_fn(int) -> int, g: spec_fn(int) -> int)
    requires
        forall|x: int| 0 <= x < n ==> #[trigger] f(x) == g(x),
    ensures
        sum(n, f) == sum(n, g),
    decreases n,
{
    if n > 0 {
        lemma_sum_cong(n - 1, f, g);
    }
}

proof fn lemma_sum_add(n: int, f: spec_fn(int) -> int, g: spec_fn(int) -> int)
    ensures
        sum(n, |x: int| f(x) + g(x)) == sum(n, f) + sum(n, g),
    decreases n,
{
    if n > 0 {
        lemma_sum_add(n - 1, f, g);
    }
}

proof fn lemma_sum_scale(n: int, c: int, f: spec_fn(int) -> int)
    ensures
        c * sum(n, f) == sum(n, |x: int| c * f(x)),
    decreases n,
{
    if n > 0 {
        lemma_sum_scale(n - 1, c, f);
        assert(c * sum(n, f) == c * sum(n - 1, f) + c * f(n - 1)) by (nonlinear_arith)
            requires sum(n, f) == sum(n - 1, f) + f(n - 1);
    }
}

proof fn lemma_sum_zero(n: int, f: spec_fn(int) -> int)
    requires
        forall|x: int| 0 <= x < n ==> #[trigger] f(x) == 0,
    ensures
        sum(n, f) == 0,
    decreases n,
{
    if n > 0 {
        lemma_sum_zero(n - 1, f);
    }
}

/// A sum of sums can be taken in either order.
proof fn lemma_fubini(n: int, m: int, f: spec_fn(int, int) -> int)
    ensures
        sum(n, |x: int| sum(m, |y: int| f(x, y))) == sum(m, |y: int| sum(n, |x: int| f(x, y))),
    decreases n,
{
    if n > 0 {
        lemma_fubini(n - 1, m, f);
        let g = |y: int| sum(n - 1, |x: int| f(x, y));
        let h = |y: int| f(n - 1, y);
        let full = |y: int| sum(n, |x: int| f(x, y));
        let both = |x: int| g(x) + h(x);
        lemma_sum_add(m, g, h);
        assert forall|y: int| 0 <= y < m implies #[trigger] full(y) == both(y) by {
            assert(sum(n, |x: int| f(x, y)) == sum(n - 1, |x: int| f(x, y)) + f(n - 1, y));
        }
        lemma_sum_cong(m, full, both);
        assert(sum(n, |x: int| sum(m, |y: int| f(x, y))) == sum(n - 1, |x: int| sum(m, |y: int| f(x, y))) + sum(m, h));
        assert(sum(n - 1, |x: int| sum(m, |y: int| f(x, y))) == sum(m, g));
        assert(sum(m, both) == sum(m, g) + sum(m, h));
        assert(sum(m, full) == sum(m, both));
    } else {
        lemma_sum_zero(m, |y: int| sum(n, |x: int| f(x, y)));
    }
}

/// The sum of `f` over `0 .. c` is its sum over `0 .. n` with the terms from `c` on left out.
proof fn lemma_sum_prefix(c: int, n: int, f: spec_fn(int) -> int)
    requires
        0 <= c <= n,
    ensures
        sum(c, f) == sum(n, |x: int| if x < c { f(x) } else { 0 }),
    decreases n,
{
    let g = |x: int| if x < c { f(x) } else { 0 };
    if n > c {
        lemma_sum_prefix(c, n - 1, f);
    } else {
        lemma_sum_cong(n, f, g);
    }
}

/// The weight that `w` gives the node `k`, or 0.
pub open spec fn wv(w: Map<NodeID, usize>, k: NodeID) -> int {
    if w.contains_key(k) { w[k] as int } else { 0 }
}

proof fn lemma_edge_index_step(w: Map<NodeID, usize>, next: Seq<NodeID>, m: int)
    requires
        0 <= m < next.len(),
        next.len() <= usize::MAX + 1,
    ensures
        edge_index_seq(w, next.take(m + 1)) == (if w.contains_key(next[m]) {
            edge_index_seq(w, next.take(m)).push((m as usize, w[next[m]]))
        } else {
            edge_index_seq(w, next.take(m))
        }),
{
    let t = next.take(m + 1);
    assert(t.drop_last() =~= next.take(m));
    assert(t.last() == next[m]);
}

proof fn lemma_weight_sum_push(s: Seq<(usize, usize)>, e: (usize, usize))
    ensures
        weight_sum(s.push(e)) == weight_sum(s) + e.1,
{
    assert(s.push(e).drop_last() =~= s);
}

proof fn lemma_prefix_weights(w: Map<NodeID, usize>, next: Seq<NodeID>, x: int)
    requires
        0 <= x <= next.len(),
        next.len() <= usize::MAX + 1,
    ensures
        weight_sum(edge_index_seq(w, next.take(x))) == sum(x, |p: int| wv(w, next[p])),
    decreases x,
{
    if x > 0 {
        lemma_prefix_weights(w, next, x - 1);
        lemma_edge_index_step(w, next, x - 1);
        if w.contains_key(next[x - 1]) {
            lemma_weight_sum_push(edge_index_seq(w, next.take(x - 1)), ((x - 1) as usize, w[next[x - 1]]));
        }
    } else {
        assert(next.take(0) =~= Seq::<NodeID>::empty());
    }
}

proof fn lemma_edge_index_extends(w: Map<NodeID, usize>, next: Seq<NodeID>, x: int, m: int)
    requires
        0 <= x <= m <= next.len(),
        next.len() <= usize::MAX + 1,
    ensures
        edge_index_seq(w, next.take(m)).len() >= edge_index_seq(w, next.take(x)).len(),
        edge_index_seq(w, next.take(m)).take(edge_index_seq(w, next.take(x)).len() as int) == edge_index_seq(w, next.take(x)),
        forall|j: int| edge_index_seq(w, next.take(x)).len() <= j < edge_index_seq(w, next.take(m)).len() ==>
            (#[trigger] edge_index_seq(w, next.take(m))[j]).0 >= x,
    decreases m - x,
{
    let ex = edge_index_seq(w, next.take(x));
    if m == x {
        assert(ex.take(ex.len() as int) =~= ex);
    } else {
        lemma_edge_index_extends(w, next, x, m - 1);
        lemma_edge_index_step(w, next, m - 1);
        let prev = edge_index_seq(w, next.take(m - 1));
        let cur = edge_index_seq(w, next.take(m));
        if w.contains_key(next[m - 1]) {
            assert(cur.take(ex.len() as int) =~= prev.take(ex.len() as int));
        }
    }
}

proof fn lemma_count_before_at(x: usize, s: Seq<(usize, usize)>, k: int)
    requires
        0 <= k <= s.len(),
        forall|j: int| 0 <= j < k ==> (#[trigger] s[j]).0 < x,
        k < s.len() ==> s[k].0 >= x,
    ensures
        count_before(x, s) == k,
    decreases k,
{
    if k > 0 {
        assert(s[0].0 < x);
        assert forall|j: int| 0 <= j < k - 1 implies (#[trigger] s.drop_first()[j]).0 < x by {
            assert(s.drop_first()[j] == s[j + 1]);
        }
        if k < s.len() {
            assert(s.drop_first()[k - 1] == s[k]);
        }
        lemma_count_before_at(x, s.drop_first(), k - 1);
    }
}

/// The weight of the edges of `b` into the positions before `x` is the dense sum of the
/// weights before `x`.
proof fn lemma_weights_before(w: Map<NodeID, usize>, next: Seq<NodeID>, x: usize)
    requires
        x < next.len(),
        next.len() <= usize::MAX + 1,
    ensures
        weight_sum(edge_index_seq(w, next).take(count_before(x, edge_index_seq(w, next)) as int))
            == sum(x as int, |p: int| wv(w, next[p])),
{
    let n = next.len() as int;
    assert(next.take(n) =~= next);
    let ex = edge_index_seq(w, next.take(x as int));
    let e = edge_index_seq(w, next);
    lemma_edge_index_extends(w, next, x as int, n);
    lemma_edge_index_seq(w, next.take(x as int));
    assert forall|j: int| 0 <= j < ex.len() implies (#[trigger] e[j]).0 < x by {
        assert(e.take(ex.len() as int)[j] == e[j]);
        assert(ex[j] == e[j]);
    }
    lemma_count_before_at(x, e, ex.len() as int);
    lemma_prefix_weights(w, next, x as int);
}

/// The crossings between the edges of two nodes into `next`, as a dense sum over positions.
proof fn lemma_pair_dense(wa: Map<NodeID, usize>, wb: Map<NodeID, usize>, next: Seq<NodeID>, x: int)
    requires
        0 <= x <= next.len(),
        next.len() <= usize::MAX + 1,
    ensures
        pair_crossings(edge_index_seq(wa, next.take(x)), edge_index_seq(wb, next))
            == sum(x, |c: int| wv(wa, next[c]) * sum(c, |d: int| wv(wb, next[d]))),
    decreases x,
{
    if x > 0 {
        lemma_pair_dense(wa, wb, next, x - 1);
        lemma_edge_index_step(wa, next, x - 1);
        let prev = edge_index_seq(wa, next.take(x - 1));
        if wa.contains_key(next[x - 1]) {
            let e = ((x - 1) as usize, wa[next[x - 1]]);
            assert(prev.push(e).drop_last() =~= prev);
            lemma_weights_before(wb, next, (x - 1) as usize);
        }
    } else {
        assert(next.take(0) =~= Seq::<NodeID>::empty());
    }
}

/// The edges leaving `n`, or none.
pub open spec fn row_map(ev: Map<NodeID, Map<NodeID, usize>>, n: NodeID) -> Map<NodeID, usize> {
    if ev.contains_key(n) { ev[n] } else { Map::empty() }
}

/// The weight of the edge from `a` to `b`, or 0.
pub open spec fn wt(ev: Map<NodeID, Map<NodeID, usize>>, a: NodeID, b: NodeID) -> int {
    wv(row_map(ev, a), b)
}

proof fn lemma_edge_index_empty(next: Seq<NodeID>)
    ensures
        edge_index_seq(Map::<NodeID, usize>::empty(), next) == Seq::<(usize, usize)>::empty(),
    decreases next.len(),
{
    if next.len() > 0 {
        lemma_edge_index_empty(next.drop_last());
    }
}

proof fn lemma_node_edge_list(ev: Map<NodeID, Map<NodeID, usize>>, n: NodeID, next: Seq<NodeID>)
    ensures
        node_edge_list(ev, n, next) == edge_index_seq(row_map(ev, n), next),
{
    if !ev.contains_key(n) {
        lemma_edge_index_empty(next);
    }
}

/// The crossings of the rows `i` and `i + 1 .. j`, as a sum over the rows.
proof fn lemma_row_sum(ls: Seq<Seq<(usize, usize)>>, i: int, j: int)
    requires
        0 <= i,
    ensures
        row_crossings(ls, i, j) == sum(j, |b: int| if i < b { pair_crossings(ls[i], ls[b]) as int } else { 0 }),
    decreases j,
{
    if j > 0 {
        lemma_row_sum(ls, i, j - 1);
    }
}

/// The crossings of all rows, as a sum over pairs of rows.
proof fn lemma_rows_sum(ls: Seq<Seq<(usize, usize)>>, r: int)
    requires
        r <= ls.len(),
    ensures
        rows_crossings(ls, r) == sum(r, |a: int| sum(ls.len() as int, |b: int| if a < b { pair_crossings(ls[a], ls[b]) as int } else { 0 })),
    decreases r,
{
    if r > 0 {
        lemma_rows_sum(ls, r - 1);
        lemma_row_sum(ls, r - 1, ls.len() as int);
    }
}

/// The term of the crossing sum for the rows `a` and `b` of `s0` and the positions `c` and `d`
/// of `s1`: the edges `a -> c` and `b -> d` cross where `a` is left of `b` and `d` left of `c`.
pub open spec fn quad(ev: Map<NodeID, Map<NodeID, usize>>, s0: Seq<NodeID>, s1: Seq<NodeID>, a: int, b: int, c: int, d: int) -> int {
    if a < b && d < c { wt(ev, s0[a], s1[c]) * wt(ev, s0[b], s1[d]) } else { 0 }
}

/// The crossings of two layers as a four-fold sum over two rows and two positions.
pub open spec fn quad_sum(ev: Map<NodeID, Map<NodeID, usize>>, s0: Seq<NodeID>, s1: Seq<NodeID>) -> int {
    sum(s0.len() as int, |a: int| sum(s0.len() as int, |b: int| sum(s1.len() as int, |c: int| sum(s1.len() as int, |d: int|
        quad(ev, s0, s1, a, b, c, d)))))
}

proof fn lemma_order_fits(m: Map<NodeID, usize>)
    requires
        is_order(m),
    ensures
        order_seq(m).len() <= usize::MAX + 1,
{
    lemma_order_seq(m);
    if m.dom().len() > 0 {
        let last = m.dom().len() - 1;
        assert(m.contains_key(order_seq(m)[last]));
        assert(m[order_seq(m)[last]] == last);
    }
}

proof fn lemma_pair_quad(ev: Map<NodeID, Map<NodeID, usize>>, s0: Seq<NodeID>, s1: Seq<NodeID>, a: int, b: int)
    requires
        0 <= a < s0.len(),
        0 <= b < s0.len(),
        s1.len() <= usize::MAX + 1,
    ensures
        (if a < b { pair_crossings(node_edge_list(ev, s0[a], s1), node_edge_list(ev, s0[b], s1)) as int } else { 0 })
            == sum(s1.len() as int, |c: int| sum(s1.len() as int, |d: int| quad(ev, s0, s1, a, b, c, d))),
{
    let n1 = s1.len() as int;
    let inner = |c: int| sum(n1, |d: int| quad(ev, s0, s1, a, b, c, d));
    if a < b {
        let ra = row_map(ev, s0[a]);
        let rb = row_map(ev, s0[b]);
        lemma_node_edge_list(ev, s0[a], s1);
        lemma_node_edge_list(ev, s0[b], s1);
        assert(s1.take(n1) =~= s1);
        lemma_pair_dense(ra, rb, s1, n1);
        let outer = |c: int| wv(ra, s1[c]) * sum(c, |d: int| wv(rb, s1[d]));
        assert forall|c: int| 0 <= c < n1 implies #[trigger] outer(c) == inner(c) by {
            let g = |d: int| wv(rb, s1[d]);
            lemma_sum_prefix(c, n1, g);
            let gp = |d: int| if d < c { g(d) } else { 0 };
            lemma_sum_scale(n1, wv(ra, s1[c]), gp);
            lemma_sum_cong(n1, |d: int| wv(ra, s1[c]) * gp(d), |d: int| quad(ev, s0, s1, a, b, c, d));
        }
        lemma_sum_cong(n1, outer, inner);
    } else {
        assert forall|c: int| 0 <= c < n1 implies #[trigger] inner(c) == 0 by {
            lemma_sum_zero(n1, |d: int| quad(ev, s0, s1, a, b, c, d));
        }
        lemma_sum_zero(n1, inner);
    }
}

/// The crossings between two layers are the four-fold crossing sum.
proof fn lemma_crossings_quad(o0: Map<NodeID, usize>, o1: Map<NodeID, usize>, ev: Map<NodeID, Map<NodeID, usize>>)
    requires
        is_order(o0),
        is_order(o1),
    ensures
        crossings(o0, o1, ev) == quad_sum(ev, order_seq(o0), order_seq(o1)),
{
    let s0 = order_seq(o0);
    let s1 = order_seq(o1);
    lemma_order_fits(o1);
    let ls = layer_edge_lists(s0, ev, s1);
    let n0 = s0.len() as int;
    let n1 = s1.len() as int;
    lemma_rows_sum(ls, n0);
    let rowf = |a: int| sum(n0, |b: int| if a < b { pair_crossings(ls[a], ls[b]) as int } else { 0 });
    let quadf = |a: int| sum(n0, |b: int| sum(n1, |c: int| sum(n1, |d: int| quad(ev, s0, s1, a, b, c, d))));
    assert forall|a: int| 0 <= a < n0 implies #[trigger] rowf(a) == quadf(a) by {
        let pf = |b: int| if a < b { pair_crossings(ls[a], ls[b]) as int } else { 0 };
        let qf = |b: int| sum(n1, |c: int| sum(n1, |d: int| quad(ev, s0, s1, a, b, c, d)));
        assert forall|b: int| 0 <= b < n0 implies #[trigger] pf(b) == qf(b) by {
            lemma_pair_quad(ev, s0, s1, a, b);
        }
        lemma_sum_cong(n0, pf, qf);
    }
    lemma_sum_cong(n0, rowf, quadf);
}

/// The four-fold crossing sum can be taken with its variables in reverse order.
proof fn lemma_reverse4(ev: Map<NodeID, Map<NodeID, usize>>, s0: Seq<NodeID>, s1: Seq<NodeID>)
    ensures
        sum(s1.len() as int, |d: int| sum(s1.len() as int, |c: int| sum(s0.len() as int, |b: int| sum(s0.len() as int, |a: int|
            quad(ev, s0, s1, a, b, c, d))))) == quad_sum(ev, s0, s1),
{
    let n = s0.len() as int;
    let m = s1.len() as int;
    // (d, c, b, a) to (d, c, a, b)
    let x0 = |d: int| sum(m, |c: int| sum(n, |b: int| sum(n, |a: int| quad(ev, s0, s1, a, b, c, d))));
    let x1 = |d: int| sum(m, |c: int| sum(n, |a: int| sum(n, |b: int| quad(ev, s0, s1, a, b, c, d))));
    assert forall|d: int| 0 <= d < m implies #[trigger] x0(d) == x1(d) by {
        let i0 = |c: int| sum(n, |b: int| sum(n, |a: int| quad(ev, s0, s1, a, b, c, d)));
        let i1 = |c: int| sum(n, |a: int| sum(n, |b: int| quad(ev, s0, s1, a, b, c, d)));
        assert forall|c: int| 0 <= c < m implies #[trigger] i0(c) == i1(c) by {
            let f = |b: int, a: int| quad(ev, s0, s1, a, b, c, d);
            lemma_fubini(n, n, f);
            let l0 = |b: int| sum(n, |a: int| quad(ev, s0, s1, a, b, c, d));
            let l1 = |x: int| sum(n, |y: int| f(x, y));
            assert forall|x: int| 0 <= x < n implies #[trigger] l0(x) == l1(x) by {
                lemma_sum_cong(n, |a: int| quad(ev, s0, s1, a, x, c, d), |y: int| f(x, y));
            }
            lemma_sum_cong(n, l0, l1);
            let r0 = |a: int| sum(n, |b: int| quad(ev, s0, s1, a, b, c, d));
            let r1 = |y: int| sum(n, |x: int| f(x, y));
            assert forall|y: int| 0 <= y < n implies #[trigger] r0(y) == r1(y) by {
                lemma_sum_cong(n, |b: int| quad(ev, s0, s1, y, b, c, d), |x: int| f(x, y));
            }
            lemma_sum_cong(n, r0, r1);
        }
        lemma_sum_cong(m, i0, i1);
    }
    lemma_sum_cong(m, x0, x1);
    // (d, c, a, b) to (d, a, c, b)
    let x2 = |d: int| sum(n, |a: int| sum(m, |c: int| sum(n, |b: int| quad(ev, s0, s1, a, b, c, d))));
    assert forall|d: int| 0 <= d < m implies #[trigger] x1(d) == x2(d) by {
        let f = |c: int, a: int| sum(n, |b: int| quad(ev, s0, s1, a, b, c, d));
        lemma_fubini(m, n, f);
        let o0 = |c: int| sum(n, |a: int| sum(n, |b: int| quad(ev, s0, s1, a, b, c, d)));
        let o1 = |x: int| sum(n, |y: int| f(x, y));
        assert forall|x: int| 0 <= x < m implies #[trigger] o0(x) == o1(x) by {
            lemma_sum_cong(n, |a: int| sum(n, |b: int| quad(ev, s0, s1, a, b, x, d)), |y: int| f(x, y));
        }
        lemma_sum_cong(m, o0, o1);
        let p0 = |a: int| sum(m, |c: int| sum(n, |b: int| quad(ev, s0, s1, a, b, c, d)));
        let p1 = |y: int| sum(m, |x: int| f(x, y));
        assert forall|y: int| 0 <= y < n implies #[trigger] p0(y) == p1(y) by {
            lemma_sum_cong(m, |c: int| sum(n, |b: int| quad(ev, s0, s1, y, b, c, d)), |x: int| f(x, y));
        }
        lemma_sum_cong(n, p0, p1);
    }
    lemma_sum_cong(m, x1, x2);
    // (d, a, c, b) to (a, d, c, b)
    let y3 = |a: int| sum(m, |d: int| sum(m, |c: int| sum(n, |b: int| quad(ev, s0, s1, a, b, c, d))));
    let f3 = |d: int, a: int| sum(m, |c: int| sum(n, |b: int| quad(ev, s0, s1, a, b, c, d)));
    lemma_fubini(m, n, f3);
    let u0 = |x: int| sum(n, |y: int| f3(x, y));
    assert forall|x: int| 0 <= x < m implies #[trigger] x2(x) == u0(x) by {
        lemma_sum_cong(n, |a: int| sum(m, |c: int| sum(n, |b: int| quad(ev, s0, s1, a, b, c, x))), |y: int| f3(x, y));
    }
    lemma_sum_cong(m, x2, u0);
    let u1 = |y: int| sum(m, |x: int| f3(x, y));
    assert forall|y: int| 0 <= y < n implies #[trigger] y3(y) == u1(y) by {
        lemma_sum_cong(m, |d: int| sum(m, |c: int| sum(n, |b: int| quad(ev, s0, s1, y, b, c, d))), |x: int| f3(x, y));
    }
    lemma_sum_cong(n, y3, u1);
    // (a, d, c, b) to (a, c, d, b) to (a, c, b, d) to (a, b, c, d)
    let y6 = |a: int| sum(n, |b: int| sum(m, |c: int| sum(m, |d: int| quad(ev, s0, s1, a, b, c, d))));
    assert forall|a: int| 0 <= a < n implies #[trigger] y3(a) == y6(a) by {
        let f4 = |d: int, c: int| sum(n, |b: int| quad(ev, s0, s1, a, b, c, d));
        lemma_fubini(m, m, f4);
        let v0 = |d: int| sum(m, |c: int| sum(n, |b: int| quad(ev, s0, s1, a, b, c, d)));
        let v1 = |x: int| sum(m, |y: int| f4(x, y));
        assert forall|x: int| 0 <= x < m implies #[trigger] v0(x) == v1(x) by {
            lemma_sum_cong(m, |c: int| sum(n, |b: int| quad(ev, s0, s1, a, b, c, x)), |y: int| f4(x, y));
        }
        lemma_sum_cong(m, v0, v1);
        let j4 = |c: int| sum(m, |d: int| sum(n, |b: int| quad(ev, s0, s1, a, b, c, d)));
        let v2 = |y: int| sum(m, |x: int| f4(x, y));
        assert forall|y: int| 0 <= y < m implies #[trigger] j4(y) == v2(y) by {
            lemma_sum_cong(m, |d: int| sum(n, |b: int| quad(ev, s0, s1, a, b, y, d)), |x: int| f4(x, y));
        }
        lemma_sum_cong(m, j4, v2);
        let j5 = |c: int| sum(n, |b: int| sum(m, |d: int| quad(ev, s0, s1, a, b, c, d)));
        assert forall|c: int| 0 <= c < m implies #[trigger] j4(c) == j5(c) by {
            let f5 = |d: int, b: int| quad(ev, s0, s1, a, b, c, d);
            lemma_fubini(m, n, f5);
            let w0 = |d: int| sum(n, |b: int| quad(ev, s0, s1, a, b, c, d));
            let w1 = |x: int| sum(n, |y: int| f5(x, y));
            assert forall|x: int| 0 <= x < m implies #[trigger] w0(x) == w1(x) by {
                lemma_sum_cong(n, |b: int| quad(ev, s0, s1, a, b, c, x), |y: int| f5(x, y));
            }
            lemma_sum_cong(m, w0, w1);
            let w2 = |b: int| sum(m, |d: int| quad(ev, s0, s1, a, b, c, d));
            let w3 = |y: int| sum(m, |x: int| f5(x, y));
            assert forall|y: int| 0 <= y < n implies #[trigger] w2(y) == w3(y) by {
                lemma_sum_cong(m, |d: int| quad(ev, s0, s1, a, y, c, d), |x: int| f5(x, y));
            }
            lemma_sum_cong(n, w2, w3);
        }
        lemma_sum_cong(m, j4, j5);
        let f6 = |c: int, b: int| sum(m, |d: int| quad(ev, s0, s1, a, b, c, d));
        lemma_fubini(m, n, f6);
        let z0 = |x: int| sum(n, |y: int| f6(x, y));
        assert forall|x: int| 0 <= x < m implies #[trigger] j5(x) == z0(x) by {
            lemma_sum_cong(n, |b: int| sum(m, |d: int| quad(ev, s0, s1, a, b, x, d)), |y: int| f6(x, y));
        }
        lemma_sum_cong(m, j5, z0);
        let z1 = |b: int| sum(m, |c: int| sum(m, |d: int| quad(ev, s0, s1, a, b, c, d)));
        let z2 = |y: int| sum(m, |x: int| f6(x, y));
        assert forall|y: int| 0 <= y < n implies #[trigger] z1(y) == z2(y) by {
            lemma_sum_cong(m, |c: int| sum(m, |d: int| quad(ev, s0, s1, a, y, c, d)), |x: int| f6(x, y));
        }
        lemma_sum_cong(n, z1, z2);
        assert(y3(a) == sum(m, v0));
        assert(y6(a) == sum(n, z1));
    }
    lemma_sum_cong(n, y3, y6);
    assert(sum(n, y6) == quad_sum(ev, s0, s1));
}

proof fn lemma_wt_swapped(ev: Map<NodeID, Map<NodeID, usize>>, x: NodeID, y: NodeID)
    ensures
        wt(swapped(ev), y, x) == wt(ev, x, y),
{
    if has_edge(ev, x, y) {
        assert(swapped(ev).contains_key(y));
    }
}

proof fn lemma_quad_swapped(ev: Map<NodeID, Map<NodeID, usize>>, s0: Seq<NodeID>, s1: Seq<NodeID>, x1: int, x2: int, x3: int, x4: int)
    ensures
        quad(swapped(ev), s1, s0, x1, x2, x3, x4) == quad(ev, s0, s1, x4, x3, x2, x1),
{
    lemma_wt_swapped(ev, s0[x3], s1[x1]);
    lemma_wt_swapped(ev, s0[x4], s1[x2]);
    let p = wt(ev, s0[x3], s1[x1]);
    let r = wt(ev, s0[x4], s1[x2]);
    assert(p * r == r * p) by (nonlinear_arith);
}

/// Reading two neighbouring layers the other way round, with every edge reversed, gives the
/// same number of crossings: the count does not depend on the direction the edges are read in.
pub proof fn law_crossings_reversed(o0: Map<NodeID, usize>, o1: Map<NodeID, usize>, ev: Map<NodeID, Map<NodeID, usize>>)
    requires
        is_order(o0),
        is_order(o1),
    ensures
        crossings(o1, o0, swapped(ev)) == crossings(o0, o1, ev),
{
    let s0 = order_seq(o0);
    let s1 = order_seq(o1);
    let sw = swapped(ev);
    let n0 = s0.len() as int;
    let n1 = s1.len() as int;
    lemma_crossings_quad(o0, o1, ev);
    lemma_crossings_quad(o1, o0, sw);
    lemma_reverse4(ev, s0, s1);
    let f1 = |x1: int| sum(n1, |b: int| sum(n0, |c: int| sum(n0, |d: int| quad(sw, s1, s0, x1, b, c, d))));
    let g1 = |x1: int| sum(n1, |c: int| sum(n0, |b: int| sum(n0, |a: int| quad(ev, s0, s1, a, b, c, x1))));
    assert forall|x1: int| 0 <= x1 < n1 implies #[trigger] f1(x1) == g1(x1) by {
        let f2 = |x2: int| sum(n0, |c: int| sum(n0, |d: int| quad(sw, s1, s0, x1, x2, c, d)));
        let g2 = |x2: int| sum(n0, |b: int| sum(n0, |a: int| quad(ev, s0, s1, a, b, x2, x1)));
        assert forall|x2: int| 0 <= x2 < n1 implies #[trigger] f2(x2) == g2(x2) by {
            let f3 = |x3: int| sum(n0, |d: int| quad(sw, s1, s0, x1, x2, x3, d));
            let g3 = |x3: int| sum(n0, |a: int| quad(ev, s0, s1, a, x3, x2, x1));
            assert forall|x3: int| 0 <= x3 < n0 implies #[trigger] f3(x3) == g3(x3) by {
                let f4 = |x4: int| quad(sw, s1, s0, x1, x2, x3, x4);
                let g4 = |x4: int| quad(ev, s0, s1, x4, x3, x2, x1);
                assert forall|x4: int| 0 <= x4 < n0 implies #[trigger] f4(x4) == g4(x4) by {
                    lemma_quad_swapped(ev, s0, s1, x1, x2, x3, x4);
                }
                lemma_sum_cong(n0, f4, g4);
            }
            lemma_sum_cong(n0, f3, g3);
        }
        lemma_sum_cong(n1, f2, g2);
    }
    lemma_sum_cong(n1, f1, g1);
    assert(quad_sum(sw, s1, s0) == sum(n1, f1));
}

} // verus!
