//! Weighted undirected graph on `u32` vertices: Prim's minimum spanning tree weight and
//! Dijkstra's shortest path.

use vstd::prelude::*;
use std::collections::{HashMap, HashSet};
use crate::text::{chars_of, string_of};
use crate::tokens::{tokens, token_spans, read_lines, read_line_spans, u32_value, read_u32};
use crate::spanning::{grown_tree, no_lighter_tree, law_prim_tree_is_lightest};

verus! {

broadcast use vstd::std_specs::hash::group_hash_axioms;

/// Adjacency map with one more entry `e` in the list of `u`.
pub open spec fn with_entry(m: Map<u32, Seq<(u32, u32)>>, u: u32, e: (u32, u32)) -> Map<u32, Seq<(u32, u32)>> {
    m.insert(u, if m.contains_key(u) { m[u].push(e) } else { seq![e] })
}

/// A token of a graph text that does not read as a `u32`.
#[derive(Debug)]
pub struct NumberError {
    pub token: String,
}

/// The weighted edges `(u, v, w)` of graph text lines `ls`, or the first token that does not
/// read as a `u32`: exactly the lines of three words are edges.
pub open spec fn weighted_edges(ls: Seq<Seq<char>>) -> Result<Seq<(u32, u32, u32)>, Seq<char>>
    decreases ls.len(),
{
    if ls.len() == 0 {
        Ok(seq![])
    } else {
        match weighted_edges(ls.drop_last()) {
            Err(e) => Err(e),
            Ok(es) => {
                let ws = tokens(ls.last());
                if ws.len() != 3 {
                    Ok(es)
                } else {
                    match (u32_value(ws[0]), u32_value(ws[1]), u32_value(ws[2])) {
                        (None, _, _) => Err(ws[0]),
                        (Some(_), None, _) => Err(ws[1]),
                        (Some(_), Some(_), None) => Err(ws[2]),
                        (Some(u), Some(v), Some(w)) => Ok(es.push((u as u32, v as u32, w as u32))),
                    }
                }
            },
        }
    }
}

/// The adjacency lists after adding the edges `es` in order to an empty graph.
pub open spec fn adjacency_of(es: Seq<(u32, u32, u32)>) -> Map<u32, Seq<(u32, u32)>>
    decreases es.len(),
{
    if es.len() == 0 {
        Map::empty()
    } else {
        let (u, v, w) = es.last();
        with_entry(with_entry(adjacency_of(es.drop_last()), u, (v, w)), v, (u, w))
    }
}

pub proof fn lemma_weighted_edges_err(ls: Seq<Seq<char>>, j: int, k: int)
    requires
        0 <= j <= k <= ls.len(),
        weighted_edges(ls.take(j)) is Err,
    ensures
        weighted_edges(ls.take(k)) == weighted_edges(ls.take(j)),
    decreases k - j,
{
    if k > j {
        lemma_weighted_edges_err(ls, j, k - 1);
        assert(ls.take(k).drop_last() =~= ls.take(k - 1));
    }
}

/// Every listed neighbour is itself a vertex of the map.
pub open spec fn targets_are_vertices(m: Map<u32, Seq<(u32, u32)>>) -> bool {
    forall|u: u32, k: int| #![trigger m[u][k]] m.contains_key(u) && 0 <= k < m[u].len() ==> m.contains_key(m[u][k].0)
}

/// Every entry has its reverse: the lists describe an undirected graph.
pub open spec fn undirected(adj: Map<u32, Seq<(u32, u32)>>) -> bool {
    forall|u: u32, k: int| #![trigger adj[u][k]]
        adj.contains_key(u) && 0 <= k < adj[u].len() ==> entry_from(adj, adj[u][k].0, u, adj[u][k].1)
}

proof fn lemma_entry_kept(m: Map<u32, Seq<(u32, u32)>>, u: u32, e: (u32, u32), x: u32, k: int)
    requires
        m.contains_key(x),
        0 <= k < m[x].len(),
    ensures
        with_entry(m, u, e).contains_key(x),
        k < with_entry(m, u, e)[x].len(),
        with_entry(m, u, e)[x][k] == m[x][k],
{
}

/// Adding an edge in both directions keeps every entry matched by its reverse.
pub proof fn lemma_add_edge_undirected(m: Map<u32, Seq<(u32, u32)>>, u: u32, v: u32, w: u32)
    requires
        undirected(m),
    ensures
        undirected(with_entry(with_entry(m, u, (v, w)), v, (u, w))),
{
    let m1 = with_entry(m, u, (v, w));
    let m2 = with_entry(m1, v, (u, w));
    let iu = m1[u].len() - 1;
    let iv = m2[v].len() - 1;
    assert(m1[u][iu] == (v, w));
    lemma_entry_kept(m1, v, (u, w), u, iu);
    assert(m2[u][iu] == (v, w));
    assert(m2[v][iv] == (u, w));
    assert forall|x: u32, k: int| #![trigger m2[x][k]] m2.contains_key(x) && 0 <= k < m2[x].len()
        implies entry_from(m2, m2[x][k].0, x, m2[x][k].1) by {
        if m.contains_key(x) && k < m[x].len() {
            lemma_entry_kept(m, u, (v, w), x, k);
            lemma_entry_kept(m1, v, (u, w), x, k);
            let (y, c) = m[x][k];
            assert(entry_from(m, y, x, c));
            let k2 = choose|k2: int| 0 <= k2 < m[y].len() && #[trigger] m[y][k2] == (x, c);
            lemma_entry_kept(m, u, (v, w), y, k2);
            lemma_entry_kept(m1, v, (u, w), y, k2);
            assert(m2[y][k2] == (x, c));
        } else if x == v && k == iv {
            assert(m2[u][iu] == (v, w));
        } else {
            assert(x == u && k == iu);
            if u != v {
                assert(m2[x][k] == m1[x][k]);
            }
            assert(m2[v][iv] == (u, w));
        }
    }
}

/// A graph built by adding edges from the empty one is undirected.
pub proof fn lemma_adjacency_undirected(es: Seq<(u32, u32, u32)>)
    ensures
        undirected(adjacency_of(es)),
    decreases es.len(),
{
    if es.len() > 0 {
        lemma_adjacency_undirected(es.drop_last());
        let (u, v, w) = es.last();
        lemma_add_edge_undirected(adjacency_of(es.drop_last()), u, v, w);
    }
}

/// Sum of a sequence of weights.
pub open spec fn sum_weights(s: Seq<u32>) -> int
    decreases s.len(),
{
    if s.len() == 0 { 0 } else { sum_weights(s.drop_last()) + s.last() }
}

/// `(target, w)` is an entry of the list of `src`.
pub open spec fn entry_from(adj: Map<u32, Seq<(u32, u32)>>, src: u32, target: u32, w: u32) -> bool {
    &&& adj.contains_key(src)
    &&& exists|k: int| 0 <= k < adj[src].len() && #[trigger] adj[src][k] == (target, w)
}

/// `(a, b)` comes before or equals `(c, d)` in lexicographic order.
pub open spec fn lex_le(x: (u32, u32), y: (u32, u32)) -> bool {
    x.0 < y.0 || (x.0 == y.0 && x.1 <= y.1)
}

/// Tree edge `i` joins `order[i + 1]` by an edge of weight `wts[i]` from an earlier vertex.
pub open spec fn joined_from_earlier(adj: Map<u32, Seq<(u32, u32)>>, order: Seq<u32>, wts: Seq<u32>, i: int) -> bool {
    exists|j: int| 0 <= j <= i && #[trigger] entry_from(adj, order[j], order[i + 1], wts[i])
}

/// The steps of Prim's algorithm from `order[0]` so far: vertex `order[i + 1]` joined by an
/// edge of weight `wts[i]` from an earlier vertex, that edge being a lightest one leaving
/// `order[0..=i]`.
pub open spec fn prim_steps(adj: Map<u32, Seq<(u32, u32)>>, order: Seq<u32>, wts: Seq<u32>) -> bool {
    &&& order.len() >= 1
    &&& wts.len() + 1 == order.len()
    &&& order.no_duplicates()
    &&& forall|i: int| 0 <= i < order.len() ==> adj.contains_key(#[trigger] order[i])
    &&& forall|i: int| 0 <= i < wts.len() ==> #[trigger] joined_from_earlier(adj, order, wts, i)
    &&& forall|i: int, j: int, k: int| #![trigger wts[i], adj[order[j]][k]]
        0 <= j <= i < wts.len() && 0 <= k < adj[order[j]].len() && !order.take(i + 1).contains(adj[order[j]][k].0)
            ==> wts[i] <= adj[order[j]][k].1
}

/// Prim's tree grown from `order[0]`: its steps, until no edge leaves the vertices of
/// `order`, which are therefore a whole component.
pub open spec fn prim_tree(adj: Map<u32, Seq<(u32, u32)>>, order: Seq<u32>, wts: Seq<u32>) -> bool {
    &&& prim_steps(adj, order, wts)
    &&& forall|j: int, k: int| #![trigger adj[order[j]][k]]
        0 <= j < order.len() && 0 <= k < adj[order[j]].len() ==> order.contains(adj[order[j]][k].0)
}

/// Some edge of weight `w` leaves the vertices of `order`.
pub open spec fn leaving(adj: Map<u32, Seq<(u32, u32)>>, order: Seq<u32>, w: int) -> bool {
    exists|j: int, k: int| #![trigger adj[order[j]][k]]
        0 <= j < order.len() && 0 <= k < adj[order[j]].len() && !order.contains(adj[order[j]][k].0)
            && adj[order[j]][k].1 == w
}

proof fn lemma_lightest_leaving(adj: Map<u32, Seq<(u32, u32)>>, order: Seq<u32>, c: nat) -> (m: nat)
    requires
        leaving(adj, order, c as int),
    ensures
        m <= c,
        leaving(adj, order, m as int),
        forall|w: int| 0 <= w < m ==> !#[trigger] leaving(adj, order, w),
    decreases c,
{
    if exists|w: int| 0 <= w < c && #[trigger] leaving(adj, order, w) {
        let w = choose|w: int| 0 <= w < c && #[trigger] leaving(adj, order, w);
        lemma_lightest_leaving(adj, order, w as nat)
    } else {
        c
    }
}

pub proof fn lemma_sum_weights_prefix(s: Seq<u32>, n: int)
    requires
        0 <= n <= s.len(),
    ensures
        sum_weights(s.take(n)) <= sum_weights(s),
    decreases s.len() - n,
{
    if n < s.len() {
        lemma_sum_weights_prefix(s, n + 1);
        assert(s.take(n + 1).drop_last() =~= s.take(n));
    } else {
        assert(s.take(n) =~= s);
    }
}

/// Prim's algorithm can always go on: the steps taken so far are the start of a whole
/// Prim tree.
pub proof fn lemma_prim_steps_extend(adj: Map<u32, Seq<(u32, u32)>>, order: Seq<u32>, wts: Seq<u32>)
    -> (r: (Seq<u32>, Seq<u32>))
    requires
        targets_are_vertices(adj),
        adj.dom().finite(),
        prim_steps(adj, order, wts),
    ensures
        prim_tree(adj, r.0, r.1),
        wts.len() <= r.1.len(),
        r.1.take(wts.len() as int) == wts,
    decreases adj.dom().len() - order.len(),
{
    if prim_tree(adj, order, wts) {
        assert(wts.take(wts.len() as int) =~= wts);
        return (order, wts);
    }
    let (j0, k0) = choose|j: int, k: int| #![trigger adj[order[j]][k]]
        0 <= j < order.len() && 0 <= k < adj[order[j]].len() && !order.contains(adj[order[j]][k].0);
    assert(leaving(adj, order, adj[order[j0]][k0].1 as int));
    let m = lemma_lightest_leaving(adj, order, adj[order[j0]][k0].1 as nat);
    let (j1, k1) = choose|j: int, k: int| #![trigger adj[order[j]][k]]
        0 <= j < order.len() && 0 <= k < adj[order[j]].len() && !order.contains(adj[order[j]][k].0)
            && adj[order[j]][k].1 == m;
    let from = order[j1];
    let to = adj[from][k1].0;
    let weight = adj[from][k1].1;
    assert(adj.contains_key(to));
    let order2 = order.push(to);
    let wts2 = wts.push(weight);
    let i = wts.len() as int;
    // the new step is a lightest edge leaving the tree
    assert forall|j: int, kk: int| #![trigger adj[order[j]][kk]]
        0 <= j < order.len() && 0 <= kk < adj[order[j]].len() && !order.contains(adj[order[j]][kk].0)
            implies weight <= adj[order[j]][kk].1 by {
        if adj[order[j]][kk].1 < weight {
            assert(leaving(adj, order, adj[order[j]][kk].1 as int));
        }
    }
    assert(order2.take(i + 1) =~= order);
    assert forall|ii: int| 0 <= ii <= i implies #[trigger] order2.take(ii + 1) == order.take(ii + 1) by {
        assert(order2.take(ii + 1) =~= order.take(ii + 1));
    }
    assert forall|ii: int| 0 <= ii < wts2.len() implies #[trigger] joined_from_earlier(adj, order2, wts2, ii) by {
        if ii < i {
            assert(joined_from_earlier(adj, order, wts, ii));
            let j = choose|j: int| 0 <= j <= ii && #[trigger] entry_from(adj, order[j], order[ii + 1], wts[ii]);
            assert(order2[j] == order[j] && order2[ii + 1] == order[ii + 1] && wts2[ii] == wts[ii]);
        } else {
            assert(adj[order[j1]][k1] == (to, weight));
            assert(entry_from(adj, order2[j1], order2[ii + 1], wts2[ii]));
        }
    }
    assert forall|ii: int, j: int, kk: int| #![trigger wts2[ii], adj[order2[j]][kk]]
        0 <= j <= ii < wts2.len() && 0 <= kk < adj[order2[j]].len() && !order2.take(ii + 1).contains(adj[order2[j]][kk].0)
            implies wts2[ii] <= adj[order2[j]][kk].1 by {
        assert(order2[j] == order[j]);
        if ii < i {
            assert(wts2[ii] == wts[ii]);
            assert(wts[ii] <= adj[order[j]][kk].1);
        } else {
            assert(wts2[ii] == weight);
        }
    }
    assert forall|ii: int| 0 <= ii < order2.len() implies adj.contains_key(#[trigger] order2[ii]) by {
        if ii < order.len() {
            assert(order2[ii] == order[ii]);
        }
    }
    assert(order2.no_duplicates()) by {
        assert forall|a: int, b: int| 0 <= a < b < order2.len() implies order2[a] != order2[b] by {
            if b == order.len() {
                if order2[a] == to {
                    assert(order[a] == to);
                    assert(order.contains(to));
                }
            } else {
                assert(order2[a] == order[a] && order2[b] == order[b]);
            }
        }
    }
    assert(prim_steps(adj, order2, wts2));
    // the tree grew inside the finite vertex set
    order.unique_seq_to_set();
    order2.unique_seq_to_set();
    assert(order2.to_set().subset_of(adj.dom())) by {
        assert forall|x: u32| order2.to_set().contains(x) implies adj.dom().contains(x) by {
            let p = choose|p: int| 0 <= p < order2.len() && order2[p] == x;
            assert(adj.contains_key(order2[p]));
        }
    }
    vstd::set_lib::lemma_len_subset(order2.to_set(), adj.dom());
    let r = lemma_prim_steps_extend(adj, order2, wts2);
    assert(r.1.take(wts.len() as int) =~= r.1.take(wts2.len() as int).take(wts.len() as int));
    assert(wts2.take(wts.len() as int) =~= wts);
    r
}

/// `x` comes strictly before `y`: lower weight first, then lower vertex.
pub open spec fn lex_lt2(x: (u32, u32), y: (u32, u32)) -> bool {
    x.0 < y.0 || (x.0 == y.0 && x.1 < y.1)
}

/// Index of the first least entry among `h[0..n]`.
pub open spec fn min_index(h: Seq<(u32, u32)>, n: int) -> int
    decreases n,
{
    if n <= 1 {
        0
    } else {
        let m = min_index(h, n - 1);
        if lex_lt2(h[n - 1], h[m]) { n - 1 } else { m }
    }
}

/// The state of Dijkstra's search: distances, predecessors, the queue, and whether it stopped.
pub type SearchState = (Map<u32, u32>, Map<u32, u32>, Seq<(u32, u32)>, bool);

/// The state before the first step: `start` at distance 0, every other vertex unreached.
pub open spec fn search_start(adj: Map<u32, Seq<(u32, u32)>>, start: u32) -> SearchState {
    (
        Map::new(|v: u32| adj.contains_key(v), |v: u32| if v == start { 0u32 } else { u32::MAX }),
        Map::empty(),
        seq![(0u32, start)],
        false,
    )
}

/// The first `k` entries of `list` (the edges of `node`, reached at `cost`) relaxed in order:
/// an entry lowers its target's distance, sets its predecessor and is queued only when its
/// cost fits in a `u32` and is strictly lower.
pub open spec fn relax_edges(
    d: Map<u32, u32>,
    pv: Map<u32, u32>,
    h: Seq<(u32, u32)>,
    node: u32,
    cost: u32,
    list: Seq<(u32, u32)>,
    k: int,
) -> (Map<u32, u32>, Map<u32, u32>, Seq<(u32, u32)>)
    decreases k,
{
    if k <= 0 {
        (d, pv, h)
    } else {
        let (d1, p1, h1) = relax_edges(d, pv, h, node, cost, list, k - 1);
        let (nb, wt) = list[k - 1];
        if cost + wt <= u32::MAX && cost + wt < d1[nb] {
            (d1.insert(nb, (cost + wt) as u32), p1.insert(nb, node), h1.push(((cost + wt) as u32, nb)))
        } else {
            (d1, p1, h1)
        }
    }
}

/// One step of the search: take the first least queued entry; stop on an empty queue or when
/// `end` is taken; skip an entry whose cost is above its vertex's distance; else relax the
/// vertex's edges.
pub open spec fn search_step(adj: Map<u32, Seq<(u32, u32)>>, end: u32, st: SearchState) -> SearchState {
    let (d, pv, h, stopped) = st;
    if stopped {
        st
    } else if h.len() == 0 {
        (d, pv, h, true)
    } else {
        let i = min_index(h, h.len() as int);
        let (c, node) = h[i];
        let h2 = h.remove(i);
        if node == end {
            (d, pv, h2, true)
        } else if c > d[node] {
            (d, pv, h2, false)
        } else {
            let (d3, p3, h3) = relax_edges(d, pv, h2, node, c, adj[node], adj[node].len() as int);
            (d3, p3, h3, false)
        }
    }
}

/// The search after `k` steps.
pub open spec fn search_after(adj: Map<u32, Seq<(u32, u32)>>, start: u32, end: u32, k: nat) -> SearchState
    decreases k,
{
    if k == 0 {
        search_start(adj, start)
    } else {
        search_step(adj, end, search_after(adj, start, end, (k - 1) as nat))
    }
}

/// The vertices from `start` to `v` along the predecessors, following at most `fuel` of them.
pub open spec fn predecessor_chain(pv: Map<u32, u32>, start: u32, v: u32, fuel: nat) -> Seq<u32>
    decreases fuel,
{
    if v == start {
        seq![start]
    } else if fuel == 0 {
        seq![]
    } else {
        predecessor_chain(pv, start, pv[v], (fuel - 1) as nat).push(v)
    }
}

/// What the search answers once it has stopped after `k` steps: no path when `end` is still
/// unreached, else its distance and the chain of predecessors leading to it.
pub open spec fn search_answer(adj: Map<u32, Seq<(u32, u32)>>, start: u32, end: u32, k: nat) -> Option<(u32, Seq<u32>)> {
    let st = search_after(adj, start, end, k);
    if st.0[end] == u32::MAX {
        None
    } else {
        Some((st.0[end], predecessor_chain(st.1, start, end, adj.dom().len())))
    }
}

/// What `Graph::shortest_path` answers: nothing when `start` or `end` is not a vertex, else
/// the answer of the search once it has stopped.
pub open spec fn search_result(adj: Map<u32, Seq<(u32, u32)>>, start: u32, end: u32) -> Option<(u32, Seq<u32>)> {
    if adj.contains_key(start) && adj.contains_key(end) {
        search_answer(adj, start, end, choose|k: nat| #[trigger] search_after(adj, start, end, k).3)
    } else {
        None
    }
}

/// Once the search has stopped, further steps change nothing.
pub proof fn lemma_search_stays(adj: Map<u32, Seq<(u32, u32)>>, start: u32, end: u32, k1: nat, k2: nat)
    requires
        search_after(adj, start, end, k1).3,
        k1 <= k2,
    ensures
        search_after(adj, start, end, k2) == search_after(adj, start, end, k1),
    decreases k2,
{
    if k2 > k1 {
        lemma_search_stays(adj, start, end, k1, (k2 - 1) as nat);
    }
}

/// Removes and returns the first least entry (weight first, then vertex) of a non-empty list.
fn pop_min(heap: &mut Vec<(u32, u32)>) -> (r: (usize, (u32, u32)))
    requires
        old(heap)@.len() > 0,
    ensures
        r.0 == min_index(old(heap)@, old(heap)@.len() as int),
        r.0 < old(heap)@.len(),
        r.1 == old(heap)@[r.0 as int],
        final(heap)@ == old(heap)@.remove(r.0 as int),
        forall|q: int| 0 <= q < old(heap)@.len() ==> lex_le(r.1, #[trigger] old(heap)@[q]),
{
    let mut best: usize = 0;
    let mut q: usize = 1;
    while q < heap.len()
        invariant
            1 <= q <= heap@.len(),
            best < heap@.len(),
            heap@ == old(heap)@,
            best == min_index(heap@, q as int),
            forall|p: int| 0 <= p < q ==> lex_le(heap@[best as int], #[trigger] heap@[p]),
        decreases heap@.len() - q,
    {
        let a = heap[q];
        let b = heap[best];
        if a.0 < b.0 || (a.0 == b.0 && a.1 < b.1) {
            best = q;
        }
        q += 1;
    }
    let e = heap.remove(best);
    (best, e)
}

/// Step `i` of a walk follows an entry of the adjacency lists.
pub open spec fn step_ok(adj: Map<u32, Seq<(u32, u32)>>, path: Seq<u32>, ws: Seq<u32>, i: int) -> bool {
    entry_from(adj, path[i], path[i + 1], ws[i])
}

/// `path` is a walk from `s` to `t` whose `i`-th step uses an entry of weight `ws[i]`.
pub open spec fn walk_from_to(adj: Map<u32, Seq<(u32, u32)>>, path: Seq<u32>, ws: Seq<u32>, s: u32, t: u32) -> bool {
    &&& path.len() == ws.len() + 1
    &&& path[0] == s
    &&& path.last() == t
    &&& forall|i: int| 0 <= i < ws.len() ==> #[trigger] step_ok(adj, path, ws, i)
}

/// No walk from `s` to `t` costs less than `d`.
pub open spec fn no_cheaper_walk(adj: Map<u32, Seq<(u32, u32)>>, d: int, s: u32, t: u32) -> bool {
    forall|path: Seq<u32>, ws: Seq<u32>| #[trigger] walk_from_to(adj, path, ws, s, t) ==> d <= sum_weights(ws)
}

pub proof fn lemma_sum_weights_nonneg(ws: Seq<u32>)
    ensures
        sum_weights(ws) >= 0,
    decreases ws.len(),
{
    if ws.len() > 0 {
        lemma_sum_weights_nonneg(ws.drop_last());
    }
}

pub proof fn lemma_sum_weights_prepend(w: u32, ws: Seq<u32>)
    ensures
        sum_weights(seq![w] + ws) == w + sum_weights(ws),
    decreases ws.len(),
{
    if ws.len() > 0 {
        lemma_sum_weights_prepend(w, ws.drop_last());
        assert((seq![w] + ws).drop_last() =~= seq![w] + ws.drop_last());
        assert((seq![w] + ws).last() == ws.last());
    } else {
        assert((seq![w] + ws).drop_last() =~= Seq::<u32>::empty());
        assert((seq![w] + ws).last() == w);
        assert(sum_weights(Seq::<u32>::empty()) == 0);
    }
}

/// Every walk from `s` reaching a vertex outside `settled` costs at least `c_min` or at
/// least `u32::MAX`, given the state that Dijkstra's algorithm keeps.
pub proof fn lemma_leaving_walk_cost(
    adj: Map<u32, Seq<(u32, u32)>>,
    dist: Map<u32, u32>,
    settled: Set<u32>,
    heap: Seq<(u32, u32)>,
    s: u32,
    c_min: int,
    path: Seq<u32>,
    ws: Seq<u32>,
)
    requires
        walk_from_to(adj, path, ws, s, path.last()),
        settled.contains(s),
        !settled.contains(path.last()),
        targets_are_vertices(adj),
        adj.contains_key(s),
        dist.dom() == adj.dom(),
        forall|v: u32| #[trigger] settled.contains(v) ==> adj.contains_key(v) && no_cheaper_walk(adj, dist[v] as int, s, v),
        forall|u: u32, k: int| #![trigger adj[u][k]] settled.contains(u) && 0 <= k < adj[u].len()
            ==> dist[adj[u][k].0] <= dist[u] + adj[u][k].1 || dist[u] + adj[u][k].1 > u32::MAX,
        forall|v: u32| #[trigger] adj.contains_key(v) && dist[v] < u32::MAX && !settled.contains(v)
            ==> exists|q: int| 0 <= q < heap.len() && #[trigger] heap[q] == (dist[v], v),
        forall|q: int| 0 <= q < heap.len() ==> #[trigger] heap[q].0 >= c_min,
    ensures
        sum_weights(ws) >= c_min || sum_weights(ws) >= u32::MAX,
    decreases path.len(),
{
    let n = path.len() as int;
    assert(n >= 2) by {
        if n == 1 {
            assert(path.last() == path[0]);
        }
    }
    let u = path[n - 2];
    let y = path[n - 1];
    let w = ws[n - 2];
    let pp = path.drop_last();
    let pw = ws.drop_last();
    assert(step_ok(adj, path, ws, n - 2));
    assert(sum_weights(ws) == sum_weights(pw) + w);
    assert forall|i: int| 0 <= i < pw.len() implies #[trigger] step_ok(adj, pp, pw, i) by {
        assert(step_ok(adj, path, ws, i));
    }
    assert(walk_from_to(adj, pp, pw, s, u));
    let kk = choose|kk: int| 0 <= kk < adj[u].len() && #[trigger] adj[u][kk] == (y, w);
    assert(adj.contains_key(adj[u][kk].0));
    if settled.contains(u) {
        assert(no_cheaper_walk(adj, dist[u] as int, s, u));
        assert(dist[u] <= sum_weights(pw));
        assert(dist[adj[u][kk].0] <= dist[u] + adj[u][kk].1 || dist[u] + adj[u][kk].1 > u32::MAX);
        if dist[y] < u32::MAX {
            assert(adj.contains_key(y));
            let q = choose|q: int| 0 <= q < heap.len() && #[trigger] heap[q] == (dist[y], y);
            assert(heap[q].0 >= c_min);
        }
    } else {
        lemma_leaving_walk_cost(adj, dist, settled, heap, s, c_min, pp, pw);
    }
}

/// A weighted undirected graph: each vertex maps to its list of `(neighbour, weight)` entries.
#[derive(Debug)]
pub struct Graph {
    nodes: HashMap<u32, Vec<(u32, u32)>>,
}

impl Graph {
    /// The adjacency lists.
    pub closed spec fn adj(&self) -> Map<u32, Seq<(u32, u32)>> {
        self.nodes@.map_values(|l: Vec<(u32, u32)>| l@)
    }

    /// The graph's invariant: neighbours are vertices.
    pub open spec fn well_formed(&self) -> bool {
        targets_are_vertices(self.adj())
    }

    /// An empty graph.
    pub fn new() -> (g: Graph)
        ensures
            g.adj() == Map::<u32, Seq<(u32, u32)>>::empty(),
            g.well_formed(),
            undirected(g.adj()),
    {
        let g = Graph { nodes: HashMap::new() };
        assert(g.adj() =~= Map::<u32, Seq<(u32, u32)>>::empty());
        g
    }

    /// Reads a weighted graph from its text: every line of exactly three words `u v w` adds
    /// the edge `u -- v` of weight `w`; other lines are skipped.
    pub fn read_graph_text(text: &str) -> (r: Result<Graph, NumberError>)
        ensures
            match weighted_edges(read_lines(text@)) {
                Ok(es) => r matches Ok(g) && g.adj() == adjacency_of(es) && g.well_formed() && undirected(g.adj()),
                Err(t) => r matches Err(e) && e.token@ == t,
            },
    {
        let v = chars_of(text);
        let lines = read_line_spans(&v);
        let ghost ls = read_lines(v@);
        let mut graph = Graph::new();
        let ghost mut es: Seq<(u32, u32, u32)> = seq![];
        let mut k: usize = 0;
        proof {
            assert(ls.take(0) =~= Seq::<Seq<char>>::empty());
        }
        while k < lines.len()
            invariant
                k <= lines@.len() == ls.len(),
                ls == read_lines(v@),
                text@ == v@,
                forall|t: int| 0 <= t < lines@.len() ==> {
                    &&& (#[trigger] lines@[t]).0 <= lines@[t].1 <= v@.len()
                    &&& v@.subrange(lines@[t].0 as int, lines@[t].1 as int) == ls[t]
                },
                weighted_edges(ls.take(k as int)) == Ok::<Seq<(u32, u32, u32)>, Seq<char>>(es),
                graph.adj() == adjacency_of(es),
                graph.well_formed(),
            decreases lines@.len() - k,
        {
            let (a, b) = lines[k];
            let ws = token_spans(&v, a, b);
            proof {
                assert(ls.take(k + 1).drop_last() =~= ls.take(k as int));
                assert(ls.take(k + 1).last() == v@.subrange(a as int, b as int));
            }
            if ws.len() == 3 {
                let pu = read_u32(&v, ws[0].0, ws[0].1);
                let pv = read_u32(&v, ws[1].0, ws[1].1);
                let pw = read_u32(&v, ws[2].0, ws[2].1);
                let bad = if pu.is_none() { Some(0usize) } else if pv.is_none() { Some(1usize) } else if pw.is_none() { Some(2usize) } else { None };
                match bad {
                    Some(i) => {
                        proof {
                            lemma_weighted_edges_err(ls, k + 1, ls.len() as int);
                            assert(ls.take(ls.len() as int) =~= ls);
                        }
                        return Err(NumberError { token: string_of(&v, ws[i].0, ws[i].1) });
                    },
                    None => {},
                }
                let (u, x, w) = (pu.unwrap(), pv.unwrap(), pw.unwrap());
                graph.add_edge(u, x, w);
                proof {
                    let es0 = es;
                    es = es0.push((u, x, w));
                    assert(es.drop_last() =~= es0);
                }
            }
            k += 1;
        }
        proof {
            assert(ls.take(k as int) =~= ls);
            lemma_adjacency_undirected(es);
        }
        Ok(graph)
    }

    fn push_entry(&mut self, u: u32, e: (u32, u32))
        ensures
            final(self).adj() == with_entry(old(self).adj(), u, e),
    {
        let ghost before = self.nodes@;
        let mut list = match self.nodes.remove(&u) {
            Some(l) => l,
            None => Vec::new(),
        };
        list.push(e);
        self.nodes.insert(u, list);
        assert(self.adj() =~= with_entry(old(self).adj(), u, e));
    }

    /// Adds the undirected edge `u -- v` of the given weight: `(v, weight)` is appended to the
    /// list of `u` and `(u, weight)` to the list of `v`.
    pub fn add_edge(&mut self, u: u32, v: u32, weight: u32)
        requires
            old(self).well_formed(),
        ensures
            final(self).adj() == with_entry(with_entry(old(self).adj(), u, (v, weight)), v, (u, weight)),
            final(self).well_formed(),
            undirected(old(self).adj()) ==> undirected(final(self).adj()),
    {
        self.push_entry(u, (v, weight));
        self.push_entry(v, (u, weight));
        proof {
            if undirected(old(self).adj()) {
                lemma_add_edge_undirected(old(self).adj(), u, v, weight);
            }
            let m0 = old(self).adj();
            let m1 = with_entry(m0, u, (v, weight));
            let m2 = with_entry(m1, v, (u, weight));
            assert forall|x: u32, k: int| #![trigger m2[x][k]] m2.contains_key(x) && 0 <= k < m2[x].len()
                implies m2.contains_key(m2[x][k].0) by {
                if x != v && x != u {
                    assert(m2[x][k] == m0[x][k]);
                } else if x == v && k == m2[x].len() - 1 {
                } else if x == v {
                    assert(m2[x][k] == m1[x][k]);
                    if x != u {
                        assert(m1[x][k] == m0[x][k]);
                    } else if k < m1[x].len() - 1 {
                        assert(m1[x][k] == m0[x][k]);
                    }
                } else {
                    assert(m2[x][k] == m1[x][k]);
                    if k < m1[x].len() - 1 {
                        assert(m1[x][k] == m0[x][k]);
                    }
                }
            }
        }
    }

    /// Total weight of the tree Prim's algorithm grows from a first vertex of the map's
    /// iteration order: each step takes a lightest edge leaving the tree, until no edge
    /// leaves it. 0 for an empty graph. In an undirected graph (every graph that this type's
    /// functions build) no tree over the same vertices is lighter: the result is the weight of
    /// a minimum spanning tree of the component of that first vertex. The total of every tree
    /// that Prim's algorithm can grow must fit in a `u32`.
    pub fn mst_weight(&self) -> (total: u32)
        requires
            self.well_formed(),
            forall|order: Seq<u32>, wts: Seq<u32>| #[trigger] prim_tree(self.adj(), order, wts)
                ==> sum_weights(wts) <= u32::MAX,
        ensures
            self.adj().dom().len() == 0 ==> total == 0,
            self.adj().dom().len() > 0 ==> exists|order: Seq<u32>, wts: Seq<u32>|
                prim_tree(self.adj(), order, wts) && total == sum_weights(wts)
                    && (undirected(self.adj()) ==> no_lighter_tree(self.adj(), order, total as int)),
    {
        let r = self.checked_mst_weight();
        proof {
            if r is None {
                let (order, wts) = choose|order: Seq<u32>, wts: Seq<u32>|
                    prim_steps(self.adj(), order, wts) && sum_weights(wts) > u32::MAX;
                assert(self.nodes@.dom() =~= self.adj().dom());
                let (order2, wts2) = lemma_prim_steps_extend(self.adj(), order, wts);
                lemma_sum_weights_prefix(wts2, wts.len() as int);
                assert(prim_tree(self.adj(), order2, wts2));
            }
        }
        r.unwrap()
    }

    /// Prim's tree weight as `mst_weight` computes it, or `None` when the running total
    /// overflows a `u32`: the steps taken so far already weigh more.
    pub fn checked_mst_weight(&self) -> (r: Option<u32>)
        requires
            self.well_formed(),
        ensures
            self.adj().dom().len() == 0 ==> r == Some(0u32),
            r matches Some(total) ==> (self.adj().dom().len() > 0 ==> exists|order: Seq<u32>, wts: Seq<u32>|
                prim_tree(self.adj(), order, wts) && total == sum_weights(wts)
                    && (undirected(self.adj()) ==> no_lighter_tree(self.adj(), order, total as int))),
            r is None ==> exists|order: Seq<u32>, wts: Seq<u32>|
                prim_steps(self.adj(), order, wts) && sum_weights(wts) > u32::MAX,
    {
        let ghost adj = self.adj();
        assert(self.nodes@.dom() =~= adj.dom());
        if self.nodes.is_empty() {
            return Some(0);
        }
        let n_nodes = self.nodes.len();
        let mut visited: HashSet<u32> = HashSet::new();
        let mut heap: Vec<(u32, u32)> = Vec::new();
        let mut total_weight: u32 = 0;
        let ghost keyseq = vstd::std_specs::iter::IteratorSpec::remaining(&vstd::std_specs::hash::spec_keys_iter(&self.nodes));
        let mut first: Option<u32> = None;
        for key in it: self.nodes.keys()
            invariant
                it.seq() == keyseq,
                keyseq.unref().to_set() == self.nodes@.dom(),
                keyseq.len() == self.nodes@.dom().len(),
                first is None ==> it.index() == 0,
                first matches Some(f) ==> self.nodes@.dom().contains(f),
        {
            if first.is_none() {
                proof {
                    assert(keyseq.unref()[it.index()] == *key);
                    assert(keyseq.unref().to_set().contains(*key));
                }
                first = Some(*key);
            }
        }
        let start_node = first.unwrap();
        visited.insert(start_node);
        let ghost mut order: Seq<u32> = seq![start_node];
        let ghost mut wts: Seq<u32> = seq![];
        let ghost mut src: Seq<u32> = seq![];
        let start_edges = self.nodes.get(&start_node).unwrap();
        let mut k: usize = 0;
        while k < start_edges.len()
            invariant
                adj == self.adj(),
                adj.contains_key(start_node),
                start_edges@ == adj[start_node],
                k <= start_edges@.len(),
                heap@.len() == src.len(),
                heap@.len() == k,
                forall|q: int| 0 <= q < heap@.len() ==> #[trigger] src[q] == start_node && heap@[q] == (adj[start_node][q].1, adj[start_node][q].0),
            decreases start_edges@.len() - k,
        {
            let (neighbor, weight) = start_edges[k];
            assert(adj[start_node][k as int] == (neighbor, weight));
            let ghost pre = heap@;
            heap.push((weight, neighbor));
            proof {
                src = src.push(start_node);
                assert forall|q: int| 0 <= q < heap@.len() implies #[trigger] src[q] == start_node
                    && heap@[q] == (adj[start_node][q].1, adj[start_node][q].0) by {
                    if q < pre.len() {
                        assert(heap@[q] == pre[q]);
                        assert(src[q] == start_node);
                    }
                }
            }
            k += 1;
        }
        proof {
            assert forall|x: u32| visited@.contains(x) <==> order.to_set().contains(x) by {
                if x == start_node {
                    assert(order[0] == start_node);
                }
            }
            assert(visited@ =~= order.to_set());
            assert(adj.dom().finite());
            assert forall|q: int| 0 <= q < heap@.len() implies order.contains(#[trigger] src[q])
                && entry_from(adj, src[q], heap@[q].1, heap@[q].0) by {
                assert(order[0] == start_node);
                assert(src[q] == start_node);
                assert(adj[start_node][q] == (heap@[q].1, heap@[q].0));
            }
            assert forall|j: int, kk: int| #![trigger adj[order[j]][kk]]
                0 <= j < order.len() && 0 <= kk < adj[order[j]].len() && !order.contains(adj[order[j]][kk].0)
                    implies exists|q: int| 0 <= q < heap@.len() && #[trigger] heap@[q] == (adj[order[j]][kk].1, adj[order[j]][kk].0) by {
                assert(j == 0);
                assert(src[kk] == start_node);
                assert(heap@[kk] == (adj[order[j]][kk].1, adj[order[j]][kk].0));
            }
        }
        while visited.len() < n_nodes
            invariant
                adj == self.adj(),
                targets_are_vertices(adj),
                n_nodes == adj.dom().len(),
                adj.dom().finite(),
                n_nodes >= 1,
                visited@ == order.to_set(),
                order.len() >= 1,
                wts.len() + 1 == order.len(),
                order.no_duplicates(),
                forall|i: int| 0 <= i < order.len() ==> adj.contains_key(#[trigger] order[i]),
                forall|i: int| 0 <= i < wts.len() ==> #[trigger] joined_from_earlier(adj, order, wts, i),
                forall|i: int, j: int, kk: int| #![trigger wts[i], adj[order[j]][kk]]
                    0 <= j <= i < wts.len() && 0 <= kk < adj[order[j]].len() && !order.take(i + 1).contains(adj[order[j]][kk].0)
                        ==> wts[i] <= adj[order[j]][kk].1,
                heap@.len() == src.len(),
                forall|q: int| 0 <= q < heap@.len() ==> order.contains(#[trigger] src[q])
                    && entry_from(adj, src[q], heap@[q].1, heap@[q].0),
                forall|j: int, kk: int| #![trigger adj[order[j]][kk]]
                    0 <= j < order.len() && 0 <= kk < adj[order[j]].len() && !order.contains(adj[order[j]][kk].0)
                        ==> exists|q: int| 0 <= q < heap@.len() && #[trigger] heap@[q] == (adj[order[j]][kk].1, adj[order[j]][kk].0),
                total_weight == sum_weights(wts),
            ensures
                heap@.len() == 0 || visited@.len() >= n_nodes,
            decreases n_nodes - visited@.len(), heap@.len(),
        {
            proof {
                order.unique_seq_to_set();
                vstd::set_lib::lemma_len_subset(order.to_set(), adj.dom());
            }
            if heap.len() == 0 {
                break;
            }
            let ghost old_heap = heap@;
            let (qi, popped) = pop_min(&mut heap);
            let (weight, to) = popped;
            let ghost from = src[qi as int];
            proof {
                src = src.remove(qi as int);
                assert forall|q: int| 0 <= q < heap@.len() implies order.contains(#[trigger] src[q])
                    && entry_from(adj, src[q], heap@[q].1, heap@[q].0) by {
                    if q < qi {
                        assert(heap@[q] == old_heap[q]);
                    } else {
                        assert(heap@[q] == old_heap[q + 1]);
                    }
                }
            }
            if visited.contains(&to) {
                proof {
                    assert forall|j: int, kk: int| #![trigger adj[order[j]][kk]]
                        0 <= j < order.len() && 0 <= kk < adj[order[j]].len() && !order.contains(adj[order[j]][kk].0)
                            implies exists|q: int| 0 <= q < heap@.len() && #[trigger] heap@[q] == (adj[order[j]][kk].1, adj[order[j]][kk].0) by {
                        let q0 = choose|q: int| 0 <= q < old_heap.len() && #[trigger] old_heap[q] == (adj[order[j]][kk].1, adj[order[j]][kk].0);
                        assert(q0 != qi);
                        if q0 < qi {
                            assert(heap@[q0] == old_heap[q0]);
                        } else {
                            assert(heap@[q0 - 1] == old_heap[q0]);
                        }
                    }
                }
                continue;
            }
            visited.insert(to);
            proof {
                let i = wts.len() as int;
                let j0 = choose|j: int| 0 <= j < order.len() && order[j] == from;
                assert(entry_from(adj, order[j0], to, weight));
                let kk0 = choose|kk: int| 0 <= kk < adj[from].len() && #[trigger] adj[from][kk] == (to, weight);
                assert(adj[from][kk0] == (to, weight));
                assert(adj.contains_key(to));
                assert(!order.contains(to));
                // the popped edge is a lightest one leaving the tree
                assert forall|j: int, kk: int| #![trigger adj[order[j]][kk]]
                    0 <= j < order.len() && 0 <= kk < adj[order[j]].len() && !order.contains(adj[order[j]][kk].0)
                        implies weight <= adj[order[j]][kk].1 by {
                    let q0 = choose|q: int| 0 <= q < old_heap.len() && #[trigger] old_heap[q] == (adj[order[j]][kk].1, adj[order[j]][kk].0);
                    assert(lex_le(popped, old_heap[q0]));
                }
                // edges leaving the old tree to other vertices are still queued
                assert forall|j: int, kk: int| #![trigger adj[order[j]][kk]]
                    0 <= j < order.len() && 0 <= kk < adj[order[j]].len() && !order.push(to).contains(adj[order[j]][kk].0)
                        implies exists|q: int| 0 <= q < heap@.len() && #[trigger] heap@[q] == (adj[order[j]][kk].1, adj[order[j]][kk].0) by {
                    assert(!order.contains(adj[order[j]][kk].0)) by {
                        if order.contains(adj[order[j]][kk].0) {
                            let p = choose|p: int| 0 <= p < order.len() && order[p] == adj[order[j]][kk].0;
                            assert(order.push(to)[p] == adj[order[j]][kk].0);
                        }
                    }
                    assert(adj[order[j]][kk].0 != to) by {
                        assert(order.push(to)[order.len() as int] == to);
                    }
                    let q0 = choose|q: int| 0 <= q < old_heap.len() && #[trigger] old_heap[q] == (adj[order[j]][kk].1, adj[order[j]][kk].0);
                    assert(q0 != qi);
                    if q0 < qi {
                        assert(heap@[q0] == old_heap[q0]);
                    } else {
                        assert(heap@[q0 - 1] == old_heap[q0]);
                    }
                }
                let old_order = order;
                let old_wts = wts;
                order = order.push(to);
                wts = wts.push(weight);
                assert forall|x: u32| visited@.contains(x) <==> order.to_set().contains(x) by {
                    if x == to {
                        assert(order[i + 1] == to);
                    } else if old_order.contains(x) {
                        let p = choose|p: int| 0 <= p < old_order.len() && old_order[p] == x;
                        assert(order[p] == x);
                    } else if order.contains(x) {
                        let p = choose|p: int| 0 <= p < order.len() && order[p] == x;
                        assert(p < i + 1);
                        assert(old_order[p] == x);
                    }
                }
                assert(visited@ =~= order.to_set());
                assert forall|ii: int| 0 <= ii <= i implies #[trigger] order.take(ii + 1) == old_order.take(ii + 1) by {
                    assert(order.take(ii + 1) =~= old_order.take(ii + 1));
                }
                assert(order.take(i + 1) =~= old_order);
                assert forall|ii: int| 0 <= ii < wts.len() implies #[trigger] joined_from_earlier(adj, order, wts, ii) by {
                    if ii < i {
                        assert(wts[ii] == old_wts[ii]);
                        assert(joined_from_earlier(adj, old_order, old_wts, ii));
                        let j = choose|j: int| 0 <= j <= ii && #[trigger] entry_from(adj, old_order[j], old_order[ii + 1], old_wts[ii]);
                        assert(order[j] == old_order[j]);
                        assert(order[ii + 1] == old_order[ii + 1]);
                        assert(entry_from(adj, order[j], order[ii + 1], wts[ii]));
                    } else {
                        assert(order[j0] == from);
                        assert(entry_from(adj, order[j0], order[ii + 1], wts[ii]));
                    }
                }
                assert forall|ii: int, j: int, kk: int| #![trigger wts[ii], adj[order[j]][kk]]
                    0 <= j <= ii < wts.len() && 0 <= kk < adj[order[j]].len() && !order.take(ii + 1).contains(adj[order[j]][kk].0)
                        implies wts[ii] <= adj[order[j]][kk].1 by {
                    assert(order[j] == old_order[j]);
                    if ii < i {
                        assert(wts[ii] == old_wts[ii]);
                    } else {
                        assert(wts[ii] == weight);
                    }
                }
                assert forall|ii: int| 0 <= ii < order.len() implies adj.contains_key(#[trigger] order[ii]) by {
                    if ii < i + 1 {
                        assert(order[ii] == old_order[ii]);
                    }
                }
                assert forall|q: int| 0 <= q < heap@.len() implies order.contains(#[trigger] src[q])
                    && entry_from(adj, src[q], heap@[q].1, heap@[q].0) by {
                    let p = choose|p: int| 0 <= p < old_order.len() && old_order[p] == src[q];
                    assert(order[p] == src[q]);
                }
                assert(sum_weights(wts) == sum_weights(old_wts) + weight) by {
                    assert(wts.drop_last() =~= old_wts);
                }
            }
            match total_weight.checked_add(weight) {
                Some(t) => {
                    total_weight = t;
                },
                None => {
                    proof {
                        assert(prim_steps(adj, order, wts));
                    }
                    return None;
                },
            }
            let edges = self.nodes.get(&to).unwrap();
            let mut k: usize = 0;
            let ghost tpos = order.len() - 1;
            #[verifier::loop_isolation(false)]
            while k < edges.len()
                invariant
                    adj == self.adj(),
                    adj.contains_key(to),
                    edges@ == adj[to],
                    k <= edges@.len(),
                    order.len() >= 2,
                    tpos == order.len() - 1,
                    order[tpos] == to,
                    visited@ == order.to_set(),
                    heap@.len() == src.len(),
                    forall|q: int| 0 <= q < heap@.len() ==> order.contains(#[trigger] src[q])
                        && entry_from(adj, src[q], heap@[q].1, heap@[q].0),
                    forall|j: int, kk: int| #![trigger adj[order[j]][kk]]
                        0 <= j < order.len() && 0 <= kk < adj[order[j]].len() && !order.contains(adj[order[j]][kk].0)
                            && (j < tpos || kk < k)
                            ==> exists|q: int| 0 <= q < heap@.len() && #[trigger] heap@[q] == (adj[order[j]][kk].1, adj[order[j]][kk].0),
                decreases edges@.len() - k,
            {
                let (neighbor, next_weight) = edges[k];
                if !visited.contains(&neighbor) {
                    let ghost pre = heap@;
                    heap.push((next_weight, neighbor));
                    proof {
                        src = src.push(to);
                        assert(heap@[pre.len() as int] == (next_weight, neighbor));
                        assert(adj[to][k as int] == (neighbor, next_weight));
                        assert forall|j: int, kk: int| #![trigger adj[order[j]][kk]]
                            0 <= j < order.len() && 0 <= kk < adj[order[j]].len() && !order.contains(adj[order[j]][kk].0)
                                && (j < tpos || kk < k + 1)
                                implies exists|q: int| 0 <= q < heap@.len() && #[trigger] heap@[q] == (adj[order[j]][kk].1, adj[order[j]][kk].0) by {
                            if j == tpos && kk == k {
                                assert(heap@[pre.len() as int] == (adj[order[j]][kk].1, adj[order[j]][kk].0));
                            } else {
                                let q0 = choose|q: int| 0 <= q < pre.len() && #[trigger] pre[q] == (adj[order[j]][kk].1, adj[order[j]][kk].0);
                                assert(heap@[q0] == pre[q0]);
                            }
                        }
                        assert forall|q: int| 0 <= q < heap@.len() implies order.contains(#[trigger] src[q])
                            && entry_from(adj, src[q], heap@[q].1, heap@[q].0) by {
                            if q == pre.len() {
                                assert(order[tpos] == to);
                            } else {
                                assert(heap@[q] == pre[q]);
                            }
                        }
                    }
                } else {
                    proof {
                        assert(order.contains(neighbor));
                        assert(adj[to][k as int] == (neighbor, next_weight));
                    }
                }
                k += 1;
            }
        }
        proof {
            if visited@.len() >= n_nodes {
                order.unique_seq_to_set();
                vstd::set_lib::lemma_len_subset(order.to_set(), adj.dom());
                vstd::set_lib::lemma_subset_equality(order.to_set(), adj.dom());
            }
            assert forall|j: int, kk: int| #![trigger adj[order[j]][kk]]
                0 <= j < order.len() && 0 <= kk < adj[order[j]].len() implies order.contains(adj[order[j]][kk].0) by {
                if visited@.len() >= n_nodes {
                    assert(adj.contains_key(adj[order[j]][kk].0));
                    assert(order.to_set().contains(adj[order[j]][kk].0));
                }
            }
            assert(prim_tree(adj, order, wts));
            if undirected(adj) {
                assert forall|vs: Seq<u32>, fs: Seq<u32>|
                    #[trigger] grown_tree(adj, vs, fs) && (forall|x: u32| vs.contains(x) <==> order.contains(x))
                    implies total_weight <= sum_weights(fs) by {
                    law_prim_tree_is_lightest(adj, order, wts, vs, fs);
                }
            }
        }
        Some(total_weight)
    }

    /// Dijkstra's algorithm from `start`, stopping when `end` leaves the queue. Returns the
    /// cost of a cheapest walk from `start` to `end` and its vertices, or `None` when one of
    /// them is not a vertex or no walk costs less than `u32::MAX`. Among several cheapest
    /// walks the one returned is the one the search meets, as `search_result` replays it: the
    /// queue gives up a lightest entry first, then the lowest vertex, the earliest of equal
    /// entries; a vertex's edges are relaxed in list order, and only a strictly lower cost
    /// replaces a distance and its predecessor.
    pub fn shortest_path(&self, start: u32, end: u32) -> (r: Option<(u32, Vec<u32>)>)
        requires
            self.well_formed(),
        ensures
            r is Some <==> (self.adj().contains_key(start) && self.adj().contains_key(end) && exists|path: Seq<u32>, ws: Seq<u32>|
                walk_from_to(self.adj(), path, ws, start, end) && sum_weights(ws) < u32::MAX),
            r matches Some((d, p)) ==> (exists|ws: Seq<u32>| walk_from_to(self.adj(), p@, ws, start, end) && sum_weights(ws) == d)
                && no_cheaper_walk(self.adj(), d as int, start, end) && p@.no_duplicates(),
            match search_result(self.adj(), start, end) {
                None => r is None,
                Some((d, path)) => r matches Some((d2, p2)) && d2 == d && p2@ == path,
            },
    {
        let ghost adj = self.adj();
        assert(self.nodes@.dom() =~= adj.dom());
        if !self.nodes.contains_key(&start) || !self.nodes.contains_key(&end) {
            return None;
        }
        let mut dist: HashMap<u32, u32> = HashMap::new();
        let mut prev: HashMap<u32, u32> = HashMap::new();
        let mut heap: Vec<(u32, u32)> = Vec::new();
        dist.insert(start, 0);
        heap.push((0, start));
        let ghost keyseq = vstd::std_specs::iter::IteratorSpec::remaining(&vstd::std_specs::hash::spec_keys_iter(&self.nodes));
        for node in it: self.nodes.keys()
            invariant
                it.seq() == keyseq,
                keyseq.unref().to_set() == self.nodes@.dom(),
                keyseq.len() == self.nodes@.dom().len(),
                forall|v: u32| #[trigger] dist@.contains_key(v) <==> (v == start || keyseq.unref().take(it.index() as int).contains(v)),
                dist@[start] == 0,
                forall|v: u32| #[trigger] dist@.contains_key(v) && v != start ==> dist@[v] == u32::MAX,
        {
            proof {
                assert(keyseq.unref()[it.index() as int] == *node);
                let t0 = keyseq.unref().take(it.index() as int);
                let t1 = keyseq.unref().take(it.index() + 1);
                assert(t1 =~= t0.push(*node));
                assert forall|v: u32| t1.contains(v) <==> (t0.contains(v) || v == *node) by {
                    if t1.contains(v) {
                        let p = choose|p: int| 0 <= p < t1.len() && #[trigger] t1[p] == v;
                        if p < t0.len() {
                            assert(t0[p] == v);
                        }
                    }
                    if t0.contains(v) {
                        let p = choose|p: int| 0 <= p < t0.len() && #[trigger] t0[p] == v;
                        assert(t1[p] == v);
                    }
                    if v == *node {
                        assert(t1[t0.len() as int] == v);
                    }
                }
            }
            if *node != start {
                dist.insert(*node, u32::MAX);
            }
        }
        proof {
            assert forall|v: u32| #[trigger] dist@.contains_key(v) <==> adj.contains_key(v) by {
                assert(keyseq.unref().take(keyseq.len() as int) =~= keyseq.unref());
                if v == start {
                    assert(adj.contains_key(start));
                }
            }
            assert(dist@.dom() =~= adj.dom());
        }
        let ghost mut settled: Set<u32> = Set::empty();
        let ghost mut ord: Map<u32, nat> = Map::empty();
        let ghost mut nset: nat = 0;
        let ghost mut last: int = 0;
        let ghost mut steps: nat = 0;
        let n_vertices = self.nodes.len();
        proof {
            assert(dist@ =~= search_start(adj, start).0);
            assert(prev@ =~= search_start(adj, start).1);
            assert(heap@ =~= search_start(adj, start).2);
            assert(heap@[0] == (0u32, start));
            assert forall|v: u32| #[trigger] adj.contains_key(v) && dist@[v] < u32::MAX && !settled.contains(v)
                implies exists|q: int| 0 <= q < heap@.len() && #[trigger] heap@[q] == (dist@[v], v) by {
                assert(v == start);
                assert(heap@[0] == (dist@[v], v));
            }
        }
        loop
            invariant_except_break
                search_after(adj, start, end, steps) == (dist@, prev@, heap@, false),
                !settled.contains(start) ==> heap@ == seq![(0u32, start)],
                forall|q: int| 0 <= q < heap@.len() ==> adj.contains_key(#[trigger] heap@[q].1)
                    && dist@[heap@[q].1] <= heap@[q].0 && heap@[q].0 >= last && heap@[q].0 < u32::MAX,
                forall|v: u32| #[trigger] adj.contains_key(v) && dist@[v] < u32::MAX && !settled.contains(v)
                    ==> exists|q: int| 0 <= q < heap@.len() && #[trigger] heap@[q] == (dist@[v], v),
            invariant
                adj == self.adj(),
                targets_are_vertices(adj),
                adj.dom().finite(),
                n_vertices == adj.dom().len(),
                adj.contains_key(start),
                adj.contains_key(end),
                dist@.dom() == adj.dom(),
                dist@[start] == 0,
                settled.finite(),
                settled.subset_of(adj.dom()),
                ord.dom() == settled,
                forall|v: u32| #[trigger] settled.contains(v) ==> ord[v] < nset,
                settled.len() <= nset,
                !settled.contains(start) ==> settled.len() == 0,
                forall|v: u32| #[trigger] settled.contains(v) ==> dist@[v] <= last && dist@[v] < u32::MAX
                    && no_cheaper_walk(adj, dist@[v] as int, start, v),
                forall|u: u32, k: int| #![trigger adj[u][k]] settled.contains(u) && 0 <= k < adj[u].len()
                    ==> dist@[adj[u][k].0] <= dist@[u] + adj[u][k].1 || dist@[u] + adj[u][k].1 > u32::MAX,
                forall|v: u32| #[trigger] prev@.contains_key(v) ==> v != start && settled.contains(prev@[v])
                    && exists|w: u32| entry_from(adj, prev@[v], v, w) && #[trigger] (dist@[prev@[v]] + w) == dist@[v],
                forall|v: u32| #[trigger] prev@.contains_key(v) && settled.contains(v) ==> ord[prev@[v]] < ord[v],
                forall|v: u32| #[trigger] adj.contains_key(v) && v != start && dist@[v] < u32::MAX ==> prev@.contains_key(v),
            ensures
                no_cheaper_walk(adj, dist@[end] as int, start, end),
                end != start && !settled.contains(end) && dist@[end] < u32::MAX ==> prev@.contains_key(end),
                search_after(adj, start, end, steps).3,
                search_after(adj, start, end, steps).0 == dist@,
                search_after(adj, start, end, steps).1 == prev@,
            decreases n_vertices - settled.len(), heap@.len(),
        {
            proof {
                vstd::set_lib::lemma_len_subset(settled, adj.dom());
            }
            if heap.len() == 0 {
                proof {
                    if !settled.contains(end) {
                        assert forall|path: Seq<u32>, ws: Seq<u32>| #[trigger] walk_from_to(adj, path, ws, start, end)
                            implies dist@[end] <= sum_weights(ws) by {
                            lemma_leaving_walk_cost(adj, dist@, settled, heap@, start, u32::MAX as int, path, ws);
                        }
                    }
                    steps = steps + 1;
                }
                break;
            }
            let ghost old_heap = heap@;
            let (qi, popped) = pop_min(&mut heap);
            let (cost, node) = popped;
            proof {
                assert(adj.contains_key(old_heap[qi as int].1));
            }
            if node == end {
                proof {
                    if !settled.contains(end) {
                        assert forall|path: Seq<u32>, ws: Seq<u32>| #[trigger] walk_from_to(adj, path, ws, start, end)
                            implies dist@[end] <= sum_weights(ws) by {
                            lemma_sum_weights_nonneg(ws);
                            if settled.contains(start) {
                                assert forall|q: int| 0 <= q < old_heap.len() implies #[trigger] old_heap[q].0 >= cost by {
                                    assert(lex_le(popped, old_heap[q]));
                                }
                                lemma_leaving_walk_cost(adj, dist@, settled, old_heap, start, cost as int, path, ws);
                            }
                        }
                    }
                    steps = steps + 1;
                }
                break;
            }
            let dn = *dist.get(&node).unwrap();
            if cost > dn {
                proof {
                    assert forall|v: u32| #[trigger] adj.contains_key(v) && dist@[v] < u32::MAX && !settled.contains(v)
                        implies exists|q: int| 0 <= q < heap@.len() && #[trigger] heap@[q] == (dist@[v], v) by {
                        let q0 = choose|q: int| 0 <= q < old_heap.len() && #[trigger] old_heap[q] == (dist@[v], v);
                        assert(q0 != qi);
                        if q0 < qi {
                            assert(heap@[q0] == old_heap[q0]);
                        } else {
                            assert(heap@[q0 - 1] == old_heap[q0]);
                        }
                    }
                    assert forall|q: int| 0 <= q < heap@.len() implies adj.contains_key(#[trigger] heap@[q].1)
                        && dist@[heap@[q].1] <= heap@[q].0 && heap@[q].0 >= last && heap@[q].0 < u32::MAX by {
                        if q < qi {
                            assert(heap@[q] == old_heap[q]);
                        } else {
                            assert(heap@[q] == old_heap[q + 1]);
                        }
                    }
                    steps = steps + 1;
                }
                continue;
            }
            let ghost was_settled = settled.contains(node);
            let ghost heap_after_pop = heap@;
            let ghost dist0 = dist@;
            let ghost prev0 = prev@;
            proof {
                // the popped entry is a least one, so no walk leaving the settled set is cheaper
                assert forall|q: int| 0 <= q < old_heap.len() implies #[trigger] old_heap[q].0 >= cost by {
                    assert(lex_le(popped, old_heap[q]));
                }
                assert forall|q: int| 0 <= q < heap@.len() implies adj.contains_key(#[trigger] heap@[q].1)
                    && dist@[heap@[q].1] <= heap@[q].0 && heap@[q].0 >= cost && heap@[q].0 < u32::MAX by {
                    if q < qi {
                        assert(heap@[q] == old_heap[q]);
                    } else {
                        assert(heap@[q] == old_heap[q + 1]);
                    }
                }
                if !was_settled {
                    assert forall|path: Seq<u32>, ws: Seq<u32>| #[trigger] walk_from_to(adj, path, ws, start, node)
                        implies dist@[node] <= sum_weights(ws) by {
                        lemma_sum_weights_nonneg(ws);
                        if settled.contains(start) {
                            lemma_leaving_walk_cost(adj, dist@, settled, old_heap, start, cost as int, path, ws);
                        }
                    }
                    if node != start && dist@[node] < u32::MAX {
                        assert(prev@.contains_key(node));
                    }
                    ord = ord.insert(node, nset);
                    settled = settled.insert(node);
                    nset = nset + 1;
                    assert(ord.dom() =~= settled);
                }
                last = cost as int;
                assert forall|v: u32| #[trigger] adj.contains_key(v) && dist@[v] < u32::MAX && !settled.contains(v)
                    implies exists|q: int| 0 <= q < heap@.len() && #[trigger] heap@[q] == (dist@[v], v) by {
                    let q0 = choose|q: int| 0 <= q < old_heap.len() && #[trigger] old_heap[q] == (dist@[v], v);
                    assert(q0 != qi);
                    if q0 < qi {
                        assert(heap@[q0] == old_heap[q0]);
                    } else {
                        assert(heap@[q0 - 1] == old_heap[q0]);
                    }
                }
            }
            proof {
                if was_settled {
                    assert forall|kk: int| #![trigger adj[node][kk]] 0 <= kk < adj[node].len()
                        implies dist0[adj[node][kk].0] <= dist0[node] + adj[node][kk].1 || dist0[node] + adj[node][kk].1 > u32::MAX by {}
                }
            }
            let neighbors = self.nodes.get(&node).unwrap();
            let mut k: usize = 0;
            while k < neighbors.len()
                invariant
                    adj == self.adj(),
                    targets_are_vertices(adj),
                    adj.contains_key(node),
                    neighbors@ == adj[node],
                    k <= neighbors@.len(),
                    settled.contains(node),
                    dist@.dom() == adj.dom(),
                    dist@[node] == cost,
                    cost == last,
                    dist@[start] == 0,
                    settled.finite(),
                    settled.subset_of(adj.dom()),
                    ord.dom() == settled,
                    forall|v: u32| #[trigger] settled.contains(v) ==> ord[v] < nset,
                    forall|v: u32| #[trigger] settled.contains(v) ==> dist@[v] == dist0[v],
                    forall|v: u32| #[trigger] settled.contains(v) ==> dist@[v] <= last && dist@[v] < u32::MAX
                        && no_cheaper_walk(adj, dist@[v] as int, start, v),
                    forall|v: u32| #[trigger] adj.contains_key(v) ==> dist@[v] <= dist0[v],
                    forall|u: u32, kk: int| #![trigger adj[u][kk]] settled.contains(u) && 0 <= kk < adj[u].len()
                        && (u != node || kk < k)
                        ==> dist@[adj[u][kk].0] <= dist@[u] + adj[u][kk].1 || dist@[u] + adj[u][kk].1 > u32::MAX,
                    forall|u: u32, kk: int| #![trigger adj[u][kk]] settled.contains(u) && 0 <= kk < adj[u].len() && u != node
                        ==> dist0[adj[u][kk].0] <= dist0[u] + adj[u][kk].1 || dist0[u] + adj[u][kk].1 > u32::MAX,
                    forall|v: u32| #[trigger] prev@.contains_key(v) ==> v != start && settled.contains(prev@[v])
                        && exists|w: u32| entry_from(adj, prev@[v], v, w) && #[trigger] (dist@[prev@[v]] + w) == dist@[v],
                    forall|v: u32| #[trigger] prev@.contains_key(v) && settled.contains(v) ==> ord[prev@[v]] < ord[v],
                    forall|v: u32| #[trigger] adj.contains_key(v) && v != start && dist@[v] < u32::MAX ==> prev@.contains_key(v),
                    forall|q: int| 0 <= q < heap@.len() ==> adj.contains_key(#[trigger] heap@[q].1)
                        && dist@[heap@[q].1] <= heap@[q].0 && heap@[q].0 >= last && heap@[q].0 < u32::MAX,
                    forall|v: u32| #[trigger] adj.contains_key(v) && dist@[v] < u32::MAX && !settled.contains(v)
                        ==> exists|q: int| 0 <= q < heap@.len() && #[trigger] heap@[q] == (dist@[v], v),
                    was_settled ==> heap@ == heap_after_pop && dist@ == dist0,
                    was_settled ==> forall|kk: int| #![trigger adj[node][kk]] 0 <= kk < adj[node].len()
                        ==> dist0[adj[node][kk].0] <= dist0[node] + adj[node][kk].1 || dist0[node] + adj[node][kk].1 > u32::MAX,
                    heap@.len() >= heap_after_pop.len(),
                    search_after(adj, start, end, steps) == (dist0, prev0, old_heap, false),
                    old_heap.len() > 0,
                    qi == min_index(old_heap, old_heap.len() as int),
                    old_heap[qi as int] == (cost, node),
                    heap_after_pop == old_heap.remove(qi as int),
                    node != end,
                    cost <= dist0[node],
                    (dist@, prev@, heap@) == relax_edges(dist0, prev0, heap_after_pop, node, cost, adj[node], k as int),
                decreases neighbors@.len() - k,
            {
                let (neighbor, weight) = neighbors[k];
                proof {
                    assert(adj[node][k as int] == (neighbor, weight));
                    assert(adj.contains_key(neighbor));
                    if was_settled {
                        assert(dist0[adj[node][k as int].0] <= dist0[node] + adj[node][k as int].1
                            || dist0[node] + adj[node][k as int].1 > u32::MAX);
                    }
                }
                match cost.checked_add(weight) {
                    Some(next_cost) => {
                        let dnb = *dist.get(&neighbor).unwrap();
                        if next_cost < dnb {
                            let ghost pre_dist = dist@;
                            let ghost pre_prev = prev@;
                            let ghost pre_heap = heap@;
                            dist.insert(neighbor, next_cost);
                            prev.insert(neighbor, node);
                            heap.push((next_cost, neighbor));
                            proof {
                                assert(!settled.contains(neighbor));
                                assert(neighbor != start);
                                assert(entry_from(adj, node, neighbor, weight));
                                assert(dist@[prev@[neighbor]] + weight == dist@[neighbor]);
                                assert(heap@[pre_heap.len() as int] == (next_cost, neighbor));
                                assert forall|v: u32| #[trigger] prev@.contains_key(v) implies v != start && settled.contains(prev@[v])
                                    && exists|w: u32| entry_from(adj, prev@[v], v, w) && #[trigger] (dist@[prev@[v]] + w) == dist@[v] by {
                                    if v != neighbor {
                                        let w = choose|w: u32| entry_from(adj, pre_prev[v], v, w) && #[trigger] (pre_dist[pre_prev[v]] + w) == pre_dist[v];
                                        assert(dist@[prev@[v]] + w == dist@[v]);
                                    } else {
                                        assert(dist@[prev@[v]] + weight == dist@[v]);
                                    }
                                }
                                assert forall|q: int| 0 <= q < heap@.len() implies adj.contains_key(#[trigger] heap@[q].1)
                                    && dist@[heap@[q].1] <= heap@[q].0 && heap@[q].0 >= last && heap@[q].0 < u32::MAX by {
                                    if q < pre_heap.len() {
                                        assert(heap@[q] == pre_heap[q]);
                                    }
                                }
                                assert forall|v: u32| #[trigger] adj.contains_key(v) && dist@[v] < u32::MAX && !settled.contains(v)
                                    implies exists|q: int| 0 <= q < heap@.len() && #[trigger] heap@[q] == (dist@[v], v) by {
                                    if v != neighbor {
                                        let q0 = choose|q: int| 0 <= q < pre_heap.len() && #[trigger] pre_heap[q] == (pre_dist[v], v);
                                        assert(heap@[q0] == pre_heap[q0]);
                                    }
                                }
                            }
                        }
                    },
                    None => {},
                }
                k += 1;
            }
            proof {
                vstd::set_lib::lemma_len_subset(settled, adj.dom());
                assert(k == adj[node].len());
                steps = steps + 1;
            }
        }
        proof {
            let k = choose|k: nat| #[trigger] search_after(adj, start, end, k).3;
            assert(search_after(adj, start, end, steps).3);
            if k <= steps {
                lemma_search_stays(adj, start, end, k, steps);
            } else {
                lemma_search_stays(adj, start, end, steps, k);
            }
            assert(search_after(adj, start, end, k).0 == dist@);
            assert(search_after(adj, start, end, k).1 == prev@);
        }
        let dend = *dist.get(&end).unwrap();
        if dend == u32::MAX {
            proof {
                assert forall|path: Seq<u32>, ws: Seq<u32>| walk_from_to(adj, path, ws, start, end)
                    implies sum_weights(ws) >= u32::MAX by {
                    assert(no_cheaper_walk(adj, dist@[end] as int, start, end));
                }
            }
            return None;
        }
        let mut path: Vec<u32> = Vec::new();
        let mut current = end;
        let ghost mut tail: Seq<u32> = seq![end];
        let ghost mut tws: Seq<u32> = seq![];
        let ghost nd: nat = adj.dom().len();
        proof {
            assert forall|i: int| 0 <= i < tws.len() implies #[trigger] step_ok(adj, tail, tws, i) by {}
            assert(predecessor_chain(prev@, start, end, nd) =~= predecessor_chain(prev@, start, current, nd) + tail.drop_first());
            assert(set![end].subset_of(adj.dom()));
            vstd::set_lib::lemma_len_subset(set![end], adj.dom());
        }
        while current != start
            invariant
                adj == self.adj(),
                dist@.dom() == adj.dom(),
                dist@[start] == 0,
                dist@[end] < u32::MAX,
                ord.dom() == settled,
                forall|v: u32| #[trigger] settled.contains(v) ==> ord[v] < nset,
                forall|v: u32| #[trigger] settled.contains(v) ==> dist@[v] < u32::MAX,
                forall|v: u32| #[trigger] prev@.contains_key(v) ==> v != start && settled.contains(prev@[v])
                    && exists|w: u32| entry_from(adj, prev@[v], v, w) && #[trigger] (dist@[prev@[v]] + w) == dist@[v],
                forall|v: u32| #[trigger] prev@.contains_key(v) && settled.contains(v) ==> ord[prev@[v]] < ord[v],
                forall|v: u32| #[trigger] adj.contains_key(v) && v != start && dist@[v] < u32::MAX ==> prev@.contains_key(v),
                end != start && !settled.contains(end) && dist@[end] < u32::MAX ==> prev@.contains_key(end),
                current == end || settled.contains(current),
                adj.contains_key(current) || current == end,
                adj.contains_key(end),
                dist@[current] < u32::MAX,
                walk_from_to(adj, tail, tws, current, end),
                sum_weights(tws) + dist@[current] == dist@[end],
                path@ == tail.drop_first().reverse(),
                tail[0] == current,
                tail.no_duplicates(),
                tail.len() > 1 ==> settled.contains(current),
                forall|i: int| 0 < i < tail.len() && settled.contains(current) && #[trigger] settled.contains(tail[i])
                    ==> ord[current] < ord[tail[i]],
                adj.dom().finite(),
                nd == adj.dom().len(),
                settled.subset_of(adj.dom()),
                forall|i: int| 0 <= i < tail.len() ==> adj.contains_key(#[trigger] tail[i]),
                1 <= tail.len() <= nd,
                predecessor_chain(prev@, start, end, nd)
                    == predecessor_chain(prev@, start, current, (nd + 1 - tail.len()) as nat) + tail.drop_first(),
            decreases if settled.contains(current) { ord[current] } else { nset },
        {
            proof {
                assert(prev@.contains_key(current));
            }
            let ghost before_tail = tail;
            let ghost before_tws = tws;
            let ghost before_path = path@;
            path.push(current);
            let p = *prev.get(&current).unwrap();
            proof {
                let w = choose|w: u32| entry_from(adj, prev@[current], current, w) && #[trigger] (dist@[prev@[current]] + w) == dist@[current];
                lemma_sum_weights_prepend(w, tws);
                tail = seq![p] + tail;
                tws = seq![w] + tws;
                assert forall|i: int| 0 <= i < tws.len() implies #[trigger] step_ok(adj, tail, tws, i) by {
                    if i > 0 {
                        assert(step_ok(adj, before_tail, before_tws, i - 1));
                        assert(tail[i] == before_tail[i - 1] && tail[i + 1] == before_tail[i]);
                        assert(tws[i] == before_tws[i - 1]);
                    } else {
                        assert(tail[1] == before_tail[0]);
                    }
                }
                assert(tail.last() == before_tail.last());
                assert(tail.drop_first() =~= before_tail);
                assert(settled.contains(p));
                if settled.contains(current) {
                    assert(ord[p] < ord[current]);
                }
                assert forall|i: int, j: int| 0 <= i < j < tail.len() implies tail[i] != tail[j] by {
                    if i == 0 {
                        assert(tail[j] == before_tail[j - 1]);
                        if j - 1 > 0 && settled.contains(before_tail[j - 1]) {
                            assert(ord[current] < ord[before_tail[j - 1]]);
                        }
                    } else {
                        assert(tail[i] == before_tail[i - 1] && tail[j] == before_tail[j - 1]);
                    }
                }
                assert forall|i: int| 0 < i < tail.len() && settled.contains(p) && #[trigger] settled.contains(tail[i])
                    implies ord[p] < ord[tail[i]] by {
                    assert(tail[i] == before_tail[i - 1]);
                    if i > 1 {
                        assert(settled.contains(before_tail[i - 1]));
                    }
                }
                assert(path@ =~= before_tail.reverse()) by {
                    assert(before_tail =~= seq![current] + before_tail.drop_first());
                }
            }
            proof {
                let f = (nd + 1 - before_tail.len()) as nat;
                assert(f >= 1);
                assert(predecessor_chain(prev@, start, current, f)
                    == predecessor_chain(prev@, start, p, (f - 1) as nat).push(current));
                assert(before_tail =~= seq![current] + before_tail.drop_first());
                assert(tail.drop_first() =~= before_tail);
                assert(predecessor_chain(prev@, start, p, (f - 1) as nat) + tail.drop_first()
                    =~= predecessor_chain(prev@, start, p, (f - 1) as nat).push(current) + before_tail.drop_first());
                assert forall|i: int| 0 <= i < tail.len() implies adj.contains_key(#[trigger] tail[i]) by {
                    if i > 0 {
                        assert(tail[i] == before_tail[i - 1]);
                    } else {
                        assert(settled.contains(p));
                    }
                }
                tail.unique_seq_to_set();
                assert(tail.to_set().subset_of(adj.dom())) by {
                    assert forall|x: u32| tail.to_set().contains(x) implies adj.dom().contains(x) by {
                        let q = choose|q: int| 0 <= q < tail.len() && tail[q] == x;
                        assert(adj.contains_key(tail[q]));
                    }
                }
                vstd::set_lib::lemma_len_subset(tail.to_set(), adj.dom());
            }
            current = p;
        }
        proof {
            assert(predecessor_chain(prev@, start, current, (nd + 1 - tail.len()) as nat) == seq![start]);
            assert(tail =~= seq![start] + tail.drop_first());
        }
        path.push(start);
        let mut result: Vec<u32> = Vec::new();
        let mut k = path.len();
        while k > 0
            invariant
                k <= path@.len(),
                result@ == path@.reverse().take((path@.len() - k) as int),
            decreases k,
        {
            k -= 1;
            result.push(path[k]);
            assert(path@.reverse().take((path@.len() - k) as int) =~= path@.reverse().take((path@.len() - k - 1) as int).push(path@[k as int]));
        }
        proof {
            assert(path@.reverse().take(path@.len() as int) =~= path@.reverse());
            assert(path@ =~= tail.drop_first().reverse().push(start));
            assert(tail =~= seq![start] + tail.drop_first());
            assert(result@ =~= tail);
        }
        Some((dend, result))
    }
}

} // verus!
