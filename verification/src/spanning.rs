//! Why the tree that Prim's algorithm grows is a lightest spanning tree.
//!
//! The argument counts, for every threshold `t`, the edges heavier than `t`. Each step of
//! Prim's algorithm that takes an edge heavier than `t` closes off a set of vertices that no
//! edge of weight at most `t` leaves; any other tree over the same vertices must cross each
//! of these cuts with an edge heavier than `t`. Summing over all thresholds gives the weights.

use vstd::prelude::*;
use vstd::set_lib::{set_int_range, lemma_int_range, lemma_len_subset};
use crate::weighted::{entry_from, joined_from_earlier, prim_tree, sum_weights, undirected};

verus! {

broadcast use vstd::seq_lib::seq_to_set_is_finite;

/// A tree grown over the vertices `vs`: each `vs[m + 1]` is joined by an edge of weight
/// `fs[m]` from an earlier vertex. Every spanning tree can be listed this way, from any root.
pub open spec fn grown_tree(adj: Map<u32, Seq<(u32, u32)>>, vs: Seq<u32>, fs: Seq<u32>) -> bool {
    &&& vs.len() >= 1
    &&& fs.len() + 1 == vs.len()
    &&& forall|m: int| 0 <= m < fs.len() ==> #[trigger] joined_from_earlier(adj, vs, fs, m)
}

/// No tree grown over the same vertices as `order` weighs less than `total`.
pub open spec fn no_lighter_tree(adj: Map<u32, Seq<(u32, u32)>>, order: Seq<u32>, total: int) -> bool {
    forall|vs: Seq<u32>, fs: Seq<u32>|
        #[trigger] grown_tree(adj, vs, fs) && (forall|x: u32| vs.contains(x) <==> order.contains(x))
            ==> total <= sum_weights(fs)
}

/// How many weights of `s` are above `t`.
pub open spec fn count_above(s: Seq<u32>, t: int) -> nat
    decreases s.len(),
{
    if s.len() == 0 {
        0
    } else {
        count_above(s.drop_last(), t) + if s.last() > t { 1nat } else { 0nat }
    }
}

/// `count_above(s, t)` summed over the thresholds `t < bound`.
spec fn layered(s: Seq<u32>, bound: nat) -> int
    decreases bound,
{
    if bound == 0 {
        0
    } else {
        layered(s, (bound - 1) as nat) + count_above(s, bound - 1)
    }
}

/// How many thresholds `t < bound` lie below `x`.
spec fn below(x: int, bound: nat) -> int
    decreases bound,
{
    if bound == 0 {
        0
    } else {
        below(x, (bound - 1) as nat) + if x > bound - 1 { 1int } else { 0int }
    }
}

proof fn lemma_below(x: int, bound: nat)
    requires
        0 <= x <= bound,
    ensures
        below(x, bound) == x,
    decreases bound,
{
    if bound > 0 {
        if x == bound {
            lemma_below_all(x, (bound - 1) as nat);
        } else {
            lemma_below(x, (bound - 1) as nat);
        }
    }
}

proof fn lemma_below_all(x: int, bound: nat)
    requires
        x > bound,
    ensures
        below(x, bound) == bound,
    decreases bound,
{
    if bound > 0 {
        lemma_below_all(x, (bound - 1) as nat);
    }
}

proof fn lemma_layered_last(s: Seq<u32>, bound: nat)
    requires
        s.len() > 0,
    ensures
        layered(s, bound) == layered(s.drop_last(), bound) + below(s.last() as int, bound),
    decreases bound,
{
    if bound > 0 {
        lemma_layered_last(s, (bound - 1) as nat);
    }
}

/// Summed over all thresholds up to a bound on the weights, the counts give the total weight.
proof fn lemma_layered_sum(s: Seq<u32>, bound: nat)
    requires
        forall|i: int| 0 <= i < s.len() ==> #[trigger] s[i] <= bound,
    ensures
        layered(s, bound) == sum_weights(s),
    decreases s.len(),
{
    if s.len() == 0 {
        lemma_layered_empty(s, bound);
    } else {
        lemma_layered_last(s, bound);
        lemma_layered_sum(s.drop_last(), bound);
        lemma_below(s.last() as int, bound);
    }
}

proof fn lemma_layered_empty(s: Seq<u32>, bound: nat)
    requires
        s.len() == 0,
    ensures
        layered(s, bound) == 0,
    decreases bound,
{
    if bound > 0 {
        lemma_layered_empty(s, (bound - 1) as nat);
    }
}

proof fn lemma_layered_le(a: Seq<u32>, b: Seq<u32>, bound: nat)
    requires
        forall|t: int| 0 <= t < bound ==> #[trigger] count_above(a, t) <= count_above(b, t),
    ensures
        layered(a, bound) <= layered(b, bound),
    decreases bound,
{
    if bound > 0 {
        lemma_layered_le(a, b, (bound - 1) as nat);
        assert(count_above(a, bound - 1) <= count_above(b, bound - 1));
    }
}

proof fn lemma_count_step(s: Seq<u32>, t: int, q: int)
    requires
        0 <= q < s.len(),
    ensures
        count_above(s.take(q + 1), t) == count_above(s.take(q), t) + if s[q] > t { 1nat } else { 0nat },
{
    assert(s.take(q + 1).drop_last() =~= s.take(q));
}

/// The count does not change over a stretch of weights at most `t`.
proof fn lemma_count_flat(s: Seq<u32>, t: int, a: int, b: int)
    requires
        0 <= a <= b <= s.len(),
        forall|i: int| a <= i < b ==> #[trigger] s[i] <= t,
    ensures
        count_above(s.take(b), t) == count_above(s.take(a), t),
    decreases b - a,
{
    if b > a {
        lemma_count_flat(s, t, a, b - 1);
        lemma_count_step(s, t, b - 1);
    }
}

/// Every count between 0 and the count of the first `n` weights is that of some prefix.
proof fn lemma_count_attained(s: Seq<u32>, t: int, n: int, k: int)
    requires
        0 <= n <= s.len(),
        0 <= k <= count_above(s.take(n), t),
    ensures
        exists|q: int| 0 <= q <= n && #[trigger] count_above(s.take(q), t) == k,
    decreases n,
{
    if n == 0 {
        assert(count_above(s.take(0), t) == k);
    } else {
        lemma_count_step(s, t, n - 1);
        if k <= count_above(s.take(n - 1), t) {
            lemma_count_attained(s, t, n - 1, k);
        } else {
            assert(count_above(s.take(n), t) == k);
        }
    }
}

proof fn lemma_count_prefix_le(s: Seq<u32>, t: int, n: int)
    requires
        0 <= n <= s.len(),
    ensures
        count_above(s.take(n), t) <= count_above(s, t),
    decreases s.len() - n,
{
    if n < s.len() {
        lemma_count_step(s, t, n);
        lemma_count_prefix_le(s, t, n + 1);
    } else {
        assert(s.take(n) =~= s);
    }
}


/// Position of a vertex of `order`; with no vertex listed twice, the index of its entry.
proof fn lemma_index_of(order: Seq<u32>, q: int)
    requires
        order.no_duplicates(),
        0 <= q < order.len(),
    ensures
        order.index_of(order[q]) == q,
{
    let x = order[q];
    assert(order[q] == x);
    let i = order.index_of(x);
    assert(0 <= i < order.len() && order[i] == x);
}

/// The number of steps of Prim's tree with weight above `t` taken before `x` joined it.
spec fn stage(order: Seq<u32>, wts: Seq<u32>, t: int, x: u32) -> int {
    count_above(wts.take(order.index_of(x)), t) as int
}

/// The two ends of an edge of weight at most `t` between vertices of Prim's tree joined it
/// in the same stage: no step between them took an edge heavier than `t`.
proof fn lemma_light_edge_same_stage(
    adj: Map<u32, Seq<(u32, u32)>>,
    order: Seq<u32>,
    wts: Seq<u32>,
    t: int,
    a: int,
    b: int,
    c: u32,
)
    requires
        undirected(adj),
        prim_tree(adj, order, wts),
        0 <= a < order.len(),
        0 <= b < order.len(),
        entry_from(adj, order[a], order[b], c),
        c <= t,
    ensures
        count_above(wts.take(a), t) == count_above(wts.take(b), t),
{
    if a < b {
        lemma_cut_light(adj, order, wts, t, a, b, c);
        lemma_count_flat(wts, t, a, b);
    } else if b < a {
        let k = choose|k: int| 0 <= k < adj[order[a]].len() && #[trigger] adj[order[a]][k] == (order[b], c);
        assert(adj[order[a]][k] == (order[b], c));
        assert(entry_from(adj, order[b], order[a], c));
        lemma_cut_light(adj, order, wts, t, b, a, c);
        lemma_count_flat(wts, t, b, a);
    }
}

/// An edge of weight `c` from `order[a]` to a later `order[b]` bounds every step in between.
proof fn lemma_cut_light(
    adj: Map<u32, Seq<(u32, u32)>>,
    order: Seq<u32>,
    wts: Seq<u32>,
    t: int,
    a: int,
    b: int,
    c: u32,
)
    requires
        prim_tree(adj, order, wts),
        0 <= a < b < order.len(),
        entry_from(adj, order[a], order[b], c),
        c <= t,
    ensures
        forall|i: int| a <= i < b ==> #[trigger] wts[i] <= t,
{
    let k = choose|k: int| 0 <= k < adj[order[a]].len() && #[trigger] adj[order[a]][k] == (order[b], c);
    assert forall|i: int| a <= i < b implies #[trigger] wts[i] <= t by {
        assert(adj[order[a]][k] == (order[b], c));
        assert(!order.take(i + 1).contains(order[b])) by {
            if order.take(i + 1).contains(order[b]) {
                let r = choose|r: int| 0 <= r < order.take(i + 1).len() && #[trigger] order.take(i + 1)[r] == order[b];
                assert(order[r] == order[b]);
            }
        }
        assert(wts[i] <= adj[order[a]][k].1);
    }
}

/// The stages of `vs[0..n]`.
spec fn stages_of(order: Seq<u32>, wts: Seq<u32>, t: int, vs: Seq<u32>, n: int) -> Seq<int> {
    vs.take(n).map_values(|x: u32| stage(order, wts, t, x))
}

/// Each new stage that a tree over the same vertices reaches costs it an edge above `t`.
proof fn lemma_new_stage_heavy(
    adj: Map<u32, Seq<(u32, u32)>>,
    order: Seq<u32>,
    wts: Seq<u32>,
    vs: Seq<u32>,
    fs: Seq<u32>,
    t: int,
    j: int,
)
    requires
        undirected(adj),
        prim_tree(adj, order, wts),
        grown_tree(adj, vs, fs),
        forall|x: u32| vs.contains(x) ==> order.contains(x),
        0 <= j < fs.len(),
    ensures
        count_above(fs.take(j), t) + 1 >= stages_of(order, wts, t, vs, j + 1).to_set().len()
            ==> count_above(fs.take(j + 1), t) + 1 >= stages_of(order, wts, t, vs, j + 2).to_set().len(),
{
    let before = stages_of(order, wts, t, vs, j + 1);
    let after = stages_of(order, wts, t, vs, j + 2);
    let y = vs[j + 1];
    assert(after =~= before.push(stage(order, wts, t, y)));
    assert(after.to_set() =~= before.to_set().insert(stage(order, wts, t, y))) by {
        assert forall|p: int| after.to_set().contains(p) <==> before.to_set().insert(stage(order, wts, t, y)).contains(p) by {
            if after.contains(p) {
                let r = choose|r: int| 0 <= r < after.len() && after[r] == p;
                if r < before.len() {
                    assert(before[r] == p);
                }
            }
            if before.contains(p) {
                let r = choose|r: int| 0 <= r < before.len() && before[r] == p;
                assert(after[r] == p);
            }
            if p == stage(order, wts, t, y) {
                assert(after[j + 1] == p);
            }
        }
    }
    lemma_count_step(fs, t, j);
    if !before.to_set().contains(stage(order, wts, t, y)) && fs[j] <= t {
        assert(joined_from_earlier(adj, vs, fs, j));
        let p = choose|p: int| 0 <= p <= j && #[trigger] entry_from(adj, vs[p], vs[j + 1], fs[j]);
        assert(vs.contains(vs[p]));
        assert(vs.contains(y));
        let a = order.index_of(vs[p]);
        let b = order.index_of(y);
        assert(order.contains(vs[p]));
        assert(order.contains(y));
        assert(order[a] == vs[p]);
        assert(order[b] == y);
        lemma_light_edge_same_stage(adj, order, wts, t, a, b, fs[j]);
        assert(before[p] == stage(order, wts, t, vs[p]));
        assert(before.contains(stage(order, wts, t, y)));
    }
}

/// Along the first `j` edges of the other tree, the stages met exceed by at most one its
/// edges above `t`.
proof fn lemma_stages_met(
    adj: Map<u32, Seq<(u32, u32)>>,
    order: Seq<u32>,
    wts: Seq<u32>,
    vs: Seq<u32>,
    fs: Seq<u32>,
    t: int,
    j: int,
)
    requires
        undirected(adj),
        prim_tree(adj, order, wts),
        grown_tree(adj, vs, fs),
        forall|x: u32| vs.contains(x) ==> order.contains(x),
        0 <= j <= fs.len(),
    ensures
        count_above(fs.take(j), t) + 1 >= stages_of(order, wts, t, vs, j + 1).to_set().len(),
    decreases j,
{
    if j == 0 {
        let first = stages_of(order, wts, t, vs, 1);
        assert(first.to_set() =~= set![stage(order, wts, t, vs[0])]) by {
            assert forall|p: int| first.to_set().contains(p) <==> set![stage(order, wts, t, vs[0])].contains(p) by {
                if p == stage(order, wts, t, vs[0]) {
                    assert(first[0] == p);
                }
            }
        }
        assert(set![stage(order, wts, t, vs[0])].len() == 1);
        assert(fs.take(0) =~= Seq::<u32>::empty());
    } else {
        lemma_stages_met(adj, order, wts, vs, fs, t, j - 1);
        lemma_new_stage_heavy(adj, order, wts, vs, fs, t, j - 1);
    }
}

/// A tree over the same vertices has at least as many edges above `t` as Prim's tree.
proof fn lemma_heavy_edges(
    adj: Map<u32, Seq<(u32, u32)>>,
    order: Seq<u32>,
    wts: Seq<u32>,
    vs: Seq<u32>,
    fs: Seq<u32>,
    t: int,
)
    requires
        undirected(adj),
        prim_tree(adj, order, wts),
        grown_tree(adj, vs, fs),
        forall|x: u32| vs.contains(x) <==> order.contains(x),
    ensures
        count_above(wts, t) <= count_above(fs, t),
{
    lemma_stages_met(adj, order, wts, vs, fs, t, fs.len() as int);
    assert(fs.take(fs.len() as int) =~= fs);
    let all = stages_of(order, wts, t, vs, vs.len() as int);
    // every stage from 0 to the number of heavy steps of Prim's tree is met
    let m: int = count_above(wts, t) as int;
    assert(wts.take(wts.len() as int) =~= wts);
    assert forall|k: int| #[trigger] set_int_range(0, m + 1).contains(k) implies all.to_set().contains(k) by {
        lemma_count_attained(wts, t, wts.len() as int, k);
        let q = choose|q: int| 0 <= q <= wts.len() && #[trigger] count_above(wts.take(q), t) == k;
        lemma_index_of(order, q);
        assert(order.contains(order[q]));
        assert(vs.contains(order[q]));
        let r = choose|r: int| 0 <= r < vs.len() && vs[r] == order[q];
        assert(all[r] == stage(order, wts, t, vs[r]));
        assert(all.contains(k));
    }
    lemma_int_range(0, m + 1);
    lemma_len_subset(set_int_range(0, m + 1), all.to_set());
}

/// No tree over the vertices of the tree Prim's algorithm grows weighs less than it, in an
/// undirected graph: the tree that `Graph::mst_weight` weighs is a minimum spanning tree of
/// the component of its first vertex.
pub proof fn law_prim_tree_is_lightest(
    adj: Map<u32, Seq<(u32, u32)>>,
    order: Seq<u32>,
    wts: Seq<u32>,
    vs: Seq<u32>,
    fs: Seq<u32>,
)
    requires
        undirected(adj),
        prim_tree(adj, order, wts),
        grown_tree(adj, vs, fs),
        forall|x: u32| vs.contains(x) <==> order.contains(x),
    ensures
        sum_weights(wts) <= sum_weights(fs),
{
    let bound: nat = 0x1_0000_0000;
    assert forall|t: int| 0 <= t < bound implies #[trigger] count_above(wts, t) <= count_above(fs, t) by {
        lemma_heavy_edges(adj, order, wts, vs, fs, t);
    }
    lemma_layered_le(wts, fs, bound);
    lemma_layered_sum(wts, bound);
    lemma_layered_sum(fs, bound);
}

} // verus!
