//! Unweighted undirected graph with 1-based vertices: BFS depth and connected components.

use vstd::prelude::*;
use crate::marks::{count_true, lemma_count_true_le_len, lemma_count_true_set, lemma_count_true_all_false};
use crate::text::{chars_of, string_of};
use crate::tokens::{tokens, token_spans, read_lines, read_line_spans, usize_value, read_usize};

verus! {

/// Why a graph text was refused.
#[derive(PartialEq, Eq, Structural, Clone, Copy, Debug)]
pub enum GraphFault {
    /// The first line does not hold two numbers (or there is no line at all).
    MissingHeader,
    /// A number does not read as a `usize` (the token is reported).
    BadNumber,
    /// An edge names a vertex above the vertex count (the token is reported).
    VertexOutOfRange,
    /// The vertex count leaves no room for the lists `0..=n`.
    TooManyVertices,
}

/// A refused graph text: the fault and the token at fault (empty where there is none).
#[derive(Debug)]
pub struct GraphTextError {
    pub fault: GraphFault,
    pub token: String,
}

/// The adjacency lists on vertices `0..=n` after adding the undirected edges `es` in order:
/// edge `(u, v)` appends `v` to the list of `u`, then `u` to the list of `v`.
pub open spec fn adjacency(n: nat, es: Seq<(nat, nat)>) -> Seq<Seq<usize>>
    decreases es.len(),
{
    if es.len() == 0 {
        Seq::new(n + 1, |i: int| Seq::<usize>::empty())
    } else {
        let a = adjacency(n, es.drop_last());
        let (u, v) = es.last();
        let a1 = a.update(u as int, a[u as int].push(v as usize));
        a1.update(v as int, a1[v as int].push(u as usize))
    }
}

/// The edges of the edge lines `ls` of a graph on `0..=n`, or the first fault. A line with
/// fewer than three words is skipped; otherwise its first two words are the endpoints (the
/// third, the weight, is not read).
pub open spec fn edge_lines(ls: Seq<Seq<char>>, n: nat) -> Result<Seq<(nat, nat)>, (GraphFault, Seq<char>)>
    decreases ls.len(),
{
    if ls.len() == 0 {
        Ok(seq![])
    } else {
        match edge_lines(ls.drop_last(), n) {
            Err(e) => Err(e),
            Ok(es) => {
                let ws = tokens(ls.last());
                if ws.len() < 3 {
                    Ok(es)
                } else {
                    match usize_value(ws[0]) {
                        None => Err((GraphFault::BadNumber, ws[0])),
                        Some(u) => match usize_value(ws[1]) {
                            None => Err((GraphFault::BadNumber, ws[1])),
                            Some(v) => if u > n {
                                Err((GraphFault::VertexOutOfRange, ws[0]))
                            } else if v > n {
                                Err((GraphFault::VertexOutOfRange, ws[1]))
                            } else {
                                Ok(es.push((u, v)))
                            },
                        },
                    }
                }
            },
        }
    }
}

/// The vertex count and edges that graph text describes: a first line `V E` (the edge
/// count `E` is read but not used), then one edge per line.
pub open spec fn graph_text(text: Seq<char>) -> Result<(nat, Seq<(nat, nat)>), (GraphFault, Seq<char>)> {
    let ls = read_lines(text);
    if ls.len() == 0 {
        Err((GraphFault::MissingHeader, seq![]))
    } else {
        let ws = tokens(ls[0]);
        if ws.len() == 0 {
            Err((GraphFault::MissingHeader, seq![]))
        } else {
            match usize_value(ws[0]) {
                None => Err((GraphFault::BadNumber, ws[0])),
                Some(n) => if ws.len() < 2 {
                    Err((GraphFault::MissingHeader, seq![]))
                } else if usize_value(ws[1]) is None {
                    Err((GraphFault::BadNumber, ws[1]))
                } else if n == usize::MAX {
                    Err((GraphFault::TooManyVertices, seq![]))
                } else {
                    match edge_lines(ls.skip(1), n) {
                        Err(e) => Err(e),
                        Ok(es) => Ok((n, es)),
                    }
                },
            }
        }
    }
}

/// The adjacency lists as sequences.
pub open spec fn adj_view(lists: Seq<Vec<usize>>) -> Seq<Seq<usize>> {
    lists.map_values(|l: Vec<usize>| l@)
}

/// Number of occurrences of `x` in `s`.
pub open spec fn occurrences(s: Seq<usize>, x: usize) -> nat
    decreases s.len(),
{
    if s.len() == 0 {
        0
    } else {
        occurrences(s.drop_last(), x) + if s.last() == x { 1nat } else { 0nat }
    }
}

pub proof fn lemma_occurrences_push(s: Seq<usize>, e: usize, x: usize)
    ensures
        occurrences(s.push(e), x) == occurrences(s, x) + if e == x { 1nat } else { 0nat },
{
    assert(s.push(e).drop_last() =~= s);
}

pub proof fn lemma_adjacency_len(n: nat, es: Seq<(nat, nat)>)
    requires
        forall|k: int| 0 <= k < es.len() ==> (#[trigger] es[k]).0 <= n && es[k].1 <= n,
    ensures
        adjacency(n, es).len() == n + 1,
    decreases es.len(),
{
    if es.len() > 0 {
        assert forall|k: int| 0 <= k < es.drop_last().len() implies (#[trigger] es.drop_last()[k]).0 <= n
            && es.drop_last()[k].1 <= n by {
            assert(es.drop_last()[k] == es[k]);
        }
        lemma_adjacency_len(n, es.drop_last());
        assert(es.last() == es[es.len() - 1]);
    }
}

/// Reading a graph adds every edge in both directions: vertex `v` occurs in the list of `u`
/// as often as `u` occurs in the list of `v`.
pub proof fn law_adjacency_symmetric(n: nat, es: Seq<(nat, nat)>, u: nat, v: nat)
    requires
        n <= usize::MAX,
        forall|k: int| 0 <= k < es.len() ==> (#[trigger] es[k]).0 <= n && es[k].1 <= n,
        u <= n,
        v <= n,
    ensures
        occurrences(adjacency(n, es)[u as int], v as usize) == occurrences(adjacency(n, es)[v as int], u as usize),
    decreases es.len(),
{
    if es.len() == 0 {
        assert(adjacency(n, es)[u as int] == Seq::<usize>::empty());
        assert(adjacency(n, es)[v as int] == Seq::<usize>::empty());
    } else {
        let rest = es.drop_last();
        assert forall|k: int| 0 <= k < rest.len() implies (#[trigger] rest[k]).0 <= n && rest[k].1 <= n by {
            assert(rest[k] == es[k]);
        }
        law_adjacency_symmetric(n, rest, u, v);
        lemma_adjacency_len(n, rest);
        let a = adjacency(n, rest);
        let (p, q) = es.last();
        assert(es.last() == es[es.len() - 1]);
        let a1 = a.update(p as int, a[p as int].push(q as usize));
        let a2 = a1.update(q as int, a1[q as int].push(p as usize));
        assert(adjacency(n, es) == a2);
        lemma_occurrences_push(a[p as int], q as usize, v as usize);
        lemma_occurrences_push(a[p as int], q as usize, u as usize);
        lemma_occurrences_push(a1[q as int], p as usize, v as usize);
        lemma_occurrences_push(a1[q as int], p as usize, u as usize);
        assert(occurrences(a2[u as int], v as usize) == occurrences(a[u as int], v as usize)
            + (if u == p && v == q { 1nat } else { 0nat }) + (if u == q && v == p { 1nat } else { 0nat }));
        assert(occurrences(a2[v as int], u as usize) == occurrences(a[v as int], u as usize)
            + (if v == p && u == q { 1nat } else { 0nat }) + (if v == q && u == p { 1nat } else { 0nat }));
    }
}

pub proof fn lemma_edge_lines_err(ls: Seq<Seq<char>>, j: int, k: int, n: nat)
    requires
        0 <= j <= k <= ls.len(),
        edge_lines(ls.take(j), n) is Err,
    ensures
        edge_lines(ls.take(k), n) == edge_lines(ls.take(j), n),
    decreases k - j,
{
    if k > j {
        lemma_edge_lines_err(ls, j, k - 1, n);
        assert(ls.take(k).drop_last() =~= ls.take(k - 1));
    }
}

/// A graph on vertices `0..=n` (vertex `0` is unused by the file format) held as adjacency lists.
#[derive(Debug)]
pub struct Graph {
    /// Number of vertices.
    pub n: usize,
    /// `adj_list[u]` lists the neighbours of `u`.
    pub adj_list: Vec<Vec<usize>>,
}

impl Graph {
    /// One list per vertex `0..=n`, and every neighbour is a vertex.
    pub open spec fn well_formed(&self) -> bool {
        &&& self.adj_list@.len() == self.n + 1
        &&& forall|u: int, k: int|
            0 <= u < self.adj_list@.len() && 0 <= k < self.adj_list@[u]@.len()
                ==> #[trigger] self.adj_list@[u]@[k] <= self.n
    }

    /// Reads a graph from its text: a first line `V E` with the vertex count `V` (and an edge
    /// count that is read but not used), then lines `u v w`; lines with fewer than three
    /// words are skipped and the weight `w` is not read. Each edge is added in both
    /// directions.
    pub fn from_text(text: &str) -> (r: Result<Graph, GraphTextError>)
        ensures
            match graph_text(text@) {
                Ok((n, es)) => r matches Ok(g) && g.n == n && adj_view(g.adj_list@) == adjacency(n, es)
                    && g.well_formed(),
                Err(e) => r matches Err(x) && (x.fault, x.token@) == e,
            },
    {
        let v = chars_of(text);
        let lines = read_line_spans(&v);
        let ghost ls = read_lines(v@);
        if lines.len() == 0 {
            return Err(GraphTextError { fault: GraphFault::MissingHeader, token: String::new() });
        }
        let ws = token_spans(&v, lines[0].0, lines[0].1);
        proof {
            assert(v@.subrange(lines@[0].0 as int, lines@[0].1 as int) == ls[0]);
        }
        if ws.len() == 0 {
            return Err(GraphTextError { fault: GraphFault::MissingHeader, token: String::new() });
        }
        let n = match read_usize(&v, ws[0].0, ws[0].1) {
            Some(x) => x,
            None => {
                return Err(GraphTextError { fault: GraphFault::BadNumber, token: string_of(&v, ws[0].0, ws[0].1) });
            },
        };
        if ws.len() < 2 {
            return Err(GraphTextError { fault: GraphFault::MissingHeader, token: String::new() });
        }
        if read_usize(&v, ws[1].0, ws[1].1).is_none() {
            return Err(GraphTextError { fault: GraphFault::BadNumber, token: string_of(&v, ws[1].0, ws[1].1) });
        }
        if n == usize::MAX {
            return Err(GraphTextError { fault: GraphFault::TooManyVertices, token: String::new() });
        }
        let mut adj_list: Vec<Vec<usize>> = Vec::new();
        let mut i: usize = 0;
        while i <= n
            invariant
                i <= n + 1,
                n < usize::MAX,
                adj_list@.len() == i,
                adj_view(adj_list@) == Seq::new(i as nat, |j: int| Seq::<usize>::empty()),
            decreases n + 1 - i,
        {
            let empty: Vec<usize> = Vec::new();
            proof {
                assert(empty@ =~= Seq::<usize>::empty());
            }
            let ghost prev = adj_list@;
            adj_list.push(empty);
            proof {
                assert forall|j: int| 0 <= j < i + 1 implies #[trigger] adj_view(adj_list@)[j] == Seq::<usize>::empty() by {
                    if j < i {
                        assert(adj_list@[j] == prev[j]);
                        assert(adj_view(prev)[j] == Seq::new(i as nat, |j: int| Seq::<usize>::empty())[j]);
                    }
                }
                assert(adj_view(adj_list@) =~= Seq::new((i + 1) as nat, |j: int| Seq::<usize>::empty()));
            }
            i += 1;
        }
        let ghost body = ls.skip(1);
        let ghost mut es: Seq<(nat, nat)> = seq![];
        let count = lines.len();
        let mut k: usize = 1;
        proof {
            assert(body.take(0) =~= Seq::<Seq<char>>::empty());
            assert(adjacency(n as nat, es) =~= adj_view(adj_list@));
            assert(adj_view(adj_list@).len() == adj_list@.len());
            assert forall|u: int, x: int|
                0 <= u < adj_list@.len() && 0 <= x < adj_list@[u]@.len() implies #[trigger] adj_list@[u]@[x] <= n by {
                assert(adj_view(adj_list@)[u] == adj_list@[u]@);
            }
        }
        while k < count
            invariant
                1 <= k <= count == lines@.len() == ls.len(),
                n < usize::MAX,
                body == ls.skip(1),
                graph_text(text@) == match edge_lines(body, n as nat) {
                    Err(e) => Err(e),
                    Ok(es) => Ok((n as nat, es)),
                },
                text@ == v@,
                forall|t: int| 0 <= t < lines@.len() ==> {
                    &&& (#[trigger] lines@[t]).0 <= lines@[t].1 <= v@.len()
                    &&& v@.subrange(lines@[t].0 as int, lines@[t].1 as int) == ls[t]
                },
                edge_lines(body.take(k - 1), n as nat) == Ok::<Seq<(nat, nat)>, (GraphFault, Seq<char>)>(es),
                adj_view(adj_list@) == adjacency(n as nat, es),
                adj_list@.len() == n + 1,
                forall|u: int, x: int|
                    0 <= u < adj_list@.len() && 0 <= x < adj_list@[u]@.len() ==> #[trigger] adj_list@[u]@[x] <= n,
            decreases count - k,
        {
            let (a, b) = lines[k];
            let ws = token_spans(&v, a, b);
            let ghost line = v@.subrange(a as int, b as int);
            proof {
                assert(line == body[k - 1]);
                assert(body.take(k as int).drop_last() =~= body.take(k - 1));
                assert(body.take(k as int).last() == line);
            }
            if ws.len() >= 3 {
                let ghost w0 = v@.subrange(ws@[0].0 as int, ws@[0].1 as int);
                let ghost w1 = v@.subrange(ws@[1].0 as int, ws@[1].1 as int);
                let fail: Option<GraphTextError> = match read_usize(&v, ws[0].0, ws[0].1) {
                    None => Some(GraphTextError { fault: GraphFault::BadNumber, token: string_of(&v, ws[0].0, ws[0].1) }),
                    Some(u) => match read_usize(&v, ws[1].0, ws[1].1) {
                        None => Some(GraphTextError { fault: GraphFault::BadNumber, token: string_of(&v, ws[1].0, ws[1].1) }),
                        Some(w) => {
                            if u > n {
                                Some(GraphTextError { fault: GraphFault::VertexOutOfRange, token: string_of(&v, ws[0].0, ws[0].1) })
                            } else if w > n {
                                Some(GraphTextError { fault: GraphFault::VertexOutOfRange, token: string_of(&v, ws[1].0, ws[1].1) })
                            } else {
                                let ghost before = adj_view(adj_list@);
                                let ghost raw0 = adj_list@;
                                adj_list[u].push(w);
                                let ghost mid = adj_view(adj_list@);
                                let ghost raw1 = adj_list@;
                                proof {
                                    assert(mid =~= before.update(u as int, before[u as int].push(w)));
                                }
                                adj_list[w].push(u);
                                proof {
                                    assert(adj_view(adj_list@) =~= mid.update(w as int, mid[w as int].push(u)));
                                    let es0 = es;
                                    es = es0.push((u as nat, w as nat));
                                    assert(es.drop_last() =~= es0);
                                    assert(adjacency(n as nat, es) == adj_view(adj_list@));
                                    assert forall|x: int, y: int|
                                        0 <= x < adj_list@.len() && 0 <= y < adj_list@[x]@.len() implies #[trigger] adj_list@[x]@[y] <= n by {
                                        if x == w && y == adj_list@[x]@.len() - 1 {
                                        } else if x == w {
                                            assert(adj_list@[x]@[y] == raw1[x]@[y]);
                                            if x == u && y == raw1[x]@.len() - 1 {
                                            } else {
                                                assert(raw1[x]@[y] == raw0[x]@[y]);
                                            }
                                        } else {
                                            assert(adj_list@[x]@[y] == raw1[x]@[y]);
                                            if x == u && y == raw1[x]@.len() - 1 {
                                            } else {
                                                assert(raw1[x]@[y] == raw0[x]@[y]);
                                            }
                                        }
                                    }
                                    assert(edge_lines(body.take(k as int), n as nat) == Ok::<Seq<(nat, nat)>, (GraphFault, Seq<char>)>(es));
                                }
                                None
                            }
                        },
                    },
                };
                match fail {
                    Some(e) => {
                        proof {
                            lemma_edge_lines_err(body, k as int, body.len() as int, n as nat);
                            assert(body.take(body.len() as int) =~= body);
                        }
                        return Err(e);
                    },
                    None => {},
                }
            }
            k += 1;
        }
        proof {
            assert(body.take(k - 1) =~= body);
        }
        Ok(Graph { n, adj_list })
    }

    /// `v` is listed among the neighbours of `u`.
    pub open spec fn edge(&self, u: int, v: int) -> bool {
        &&& 0 <= u < self.adj_list@.len()
        &&& exists|k: int| 0 <= k < self.adj_list@[u]@.len() && #[trigger] self.adj_list@[u]@[k] as int == v
    }

    /// `v` can be reached from `s` along at most `k` edges.
    pub open spec fn within(&self, s: int, v: int, k: nat) -> bool
        decreases k,
    {
        if k == 0 {
            v == s
        } else {
            ||| self.within(s, v, (k - 1) as nat)
            ||| exists|u: int| #[trigger] self.edge(u, v) && self.within(s, u, (k - 1) as nat)
        }
    }

    /// `v` can be reached from `s`.
    pub open spec fn reachable(&self, s: int, v: int) -> bool {
        exists|k: nat| #[trigger] self.within(s, v, k)
    }

    /// `d` is the depth of the BFS tree rooted at `s`: every vertex reachable from `s`
    /// lies within `d` edges of it, and some vertex is exactly `d` edges away.
    pub open spec fn is_bfs_depth(&self, s: int, d: nat) -> bool {
        &&& forall|v: int| #[trigger] self.reachable(s, v) ==> self.within(s, v, d)
        &&& d > 0 ==> exists|v: int| #[trigger] self.within(s, v, d) && !self.within(s, v, (d - 1) as nat)
    }

    /// `i` is the smallest vertex of `1..=i` from which `i` can be reached, so the
    /// component scan starts a new component at `i`.
    pub open spec fn starts_component(&self, i: int) -> bool {
        forall|j: int| 1 <= j < i ==> !#[trigger] self.reachable(j, i)
    }

    /// How many of the vertices `1..=m` start a component.
    pub open spec fn component_starts(&self, m: int) -> nat
        decreases m,
    {
        if m <= 0 {
            0
        } else {
            self.component_starts(m - 1) + if self.starts_component(m) { 1nat } else { 0nat }
        }
    }

    pub proof fn lemma_within_step(&self, s: int, u: int, v: int, k: nat)
        requires
            self.within(s, u, k),
            self.edge(u, v),
        ensures
            self.within(s, v, k + 1),
    {
        assert(self.within(s, u, ((k + 1) - 1) as nat));
    }

    pub proof fn lemma_within_mono(&self, s: int, v: int, k1: nat, k2: nat)
        requires
            self.within(s, v, k1),
            k1 <= k2,
        ensures
            self.within(s, v, k2),
        decreases k2,
    {
        if k1 < k2 {
            self.lemma_within_mono(s, v, k1, (k2 - 1) as nat);
        }
    }

    pub proof fn lemma_within_range(&self, s: int, v: int, k: nat)
        requires
            self.well_formed(),
            0 <= s <= self.n,
            self.within(s, v, k),
        ensures
            0 <= v <= self.n,
        decreases k,
    {
        if k > 0 {
            if self.within(s, v, (k - 1) as nat) {
                self.lemma_within_range(s, v, (k - 1) as nat);
            } else {
                let u = choose|u: int| #[trigger] self.edge(u, v) && self.within(s, u, (k - 1) as nat);
                let kk = choose|kk: int| 0 <= kk < self.adj_list@[u]@.len() && #[trigger] self.adj_list@[u]@[kk] as int == v;
                assert(self.adj_list@[u]@[kk] <= self.n);
            }
        }
    }

    /// Once one more step reaches nothing new, no number of steps does.
    pub proof fn lemma_within_stable(&self, s: int, d: nat, v: int, k: nat)
        requires
            forall|w: int| #[trigger] self.within(s, w, d + 1) ==> self.within(s, w, d),
            self.within(s, v, k),
        ensures
            self.within(s, v, d),
        decreases k,
    {
        if k <= d {
            self.lemma_within_mono(s, v, k, d);
        } else if self.within(s, v, (k - 1) as nat) {
            self.lemma_within_stable(s, d, v, (k - 1) as nat);
        } else {
            let u = choose|u: int| #[trigger] self.edge(u, v) && self.within(s, u, (k - 1) as nat);
            self.lemma_within_stable(s, d, u, (k - 1) as nat);
            self.lemma_within_step(s, u, v, d);
        }
    }

    /// The depth of the BFS tree rooted at `start`, or 0 where `start` is not in `1..=n`.
    pub fn bfs_depth(&self, start: usize) -> (depth: usize)
        requires
            1 <= start <= self.n ==> self.well_formed(),
        ensures
            (start < 1 || start > self.n) ==> depth == 0,
            1 <= start <= self.n ==> self.is_bfs_depth(start as int, depth as nat),
    {
        let n = self.n;
        if start < 1 || start > n {
            return 0;
        }
        let ghost s = start as int;
        let total = self.adj_list.len();
        let mut visited: Vec<bool> = vec![false; total];
        proof {
            lemma_count_true_all_false(visited@);
            lemma_count_true_set(visited@, s);
        }
        visited.set(start, true);
        let mut frontier: Vec<usize> = Vec::new();
        frontier.push(start);
        let mut depth: usize = 0;
        assert forall|v: int| #![trigger self.within(s, v, 0)]
            self.within(s, v, 0) implies frontier@.contains(v as usize) by {
            assert(frontier@[0] == start);
        }
        loop
            invariant
                self.well_formed(),
                n == self.n,
                1 <= s <= n,
                s == start,
                total == n + 1,
                visited@.len() == n + 1,
                forall|v: int| 0 <= v <= n ==> (visited@[v] <==> #[trigger] self.within(s, v, depth as nat)),
                forall|f: int| 0 <= f < frontier@.len() ==> {
                    &&& #[trigger] frontier@[f] <= n
                    &&& self.within(s, frontier@[f] as int, depth as nat)
                    &&& depth > 0 ==> !self.within(s, frontier@[f] as int, (depth - 1) as nat)
                },
                forall|v: int| #![trigger self.within(s, v, depth as nat)]
                    self.within(s, v, depth as nat) && (depth == 0 || !self.within(s, v, (depth - 1) as nat))
                        ==> frontier@.contains(v as usize),
                frontier@.len() > 0,
                depth + 1 <= count_true(visited@),
            decreases n + 1 - depth,
        {
            proof {
                lemma_count_true_le_len(visited@);
            }
            let ghost old_visited = visited@;
            let mut next: Vec<usize> = Vec::new();
            let mut i: usize = 0;
            while i < frontier.len()
                invariant
                    self.well_formed(),
                    n == self.n,
                    1 <= s <= n,
                    visited@.len() == n + 1,
                    depth + 1 <= count_true(old_visited),
                    count_true(visited@) == count_true(old_visited) + next@.len(),
                    0 <= i <= frontier@.len(),
                    forall|v: int| 0 <= v <= n ==> (old_visited[v] <==> #[trigger] self.within(s, v, depth as nat)),
                    forall|f: int| 0 <= f < frontier@.len() ==> {
                        &&& #[trigger] frontier@[f] <= n
                        &&& self.within(s, frontier@[f] as int, depth as nat)
                    },
                    forall|v: int| 0 <= v <= n ==> (visited@[v] <==> (old_visited[v] || next@.contains(v as usize))),
                    forall|f: int| 0 <= f < next@.len() ==> {
                        &&& #[trigger] next@[f] <= n
                        &&& !self.within(s, next@[f] as int, depth as nat)
                        &&& self.within(s, next@[f] as int, (depth + 1) as nat)
                    },
                    forall|fi: int, k: int| #![trigger self.adj_list@[frontier@[fi] as int]@[k]]
                        0 <= fi < i && 0 <= k < self.adj_list@[frontier@[fi] as int]@.len()
                            ==> visited@[self.adj_list@[frontier@[fi] as int]@[k] as int],
                decreases frontier@.len() - i,
            {
                let u = frontier[i];
                let nbrs = &self.adj_list[u];
                let mut j: usize = 0;
                while j < nbrs.len()
                    invariant
                        self.well_formed(),
                        n == self.n,
                        1 <= s <= n,
                        u <= n,
                        *nbrs == self.adj_list@[u as int],
                        self.within(s, u as int, depth as nat),
                        visited@.len() == n + 1,
                        count_true(visited@) == count_true(old_visited) + next@.len(),
                        0 <= j <= nbrs@.len(),
                        0 <= i < frontier@.len(),
                        frontier@[i as int] == u,
                        forall|f: int| 0 <= f < frontier@.len() ==> #[trigger] frontier@[f] <= n,
                        forall|v: int| 0 <= v <= n ==> (old_visited[v] <==> #[trigger] self.within(s, v, depth as nat)),
                        forall|v: int| 0 <= v <= n ==> (visited@[v] <==> (old_visited[v] || next@.contains(v as usize))),
                        forall|f: int| 0 <= f < next@.len() ==> {
                            &&& #[trigger] next@[f] <= n
                            &&& !self.within(s, next@[f] as int, depth as nat)
                            &&& self.within(s, next@[f] as int, (depth + 1) as nat)
                        },
                        forall|fi: int, k: int| #![trigger self.adj_list@[frontier@[fi] as int]@[k]]
                            0 <= fi < i && 0 <= k < self.adj_list@[frontier@[fi] as int]@.len()
                                ==> visited@[self.adj_list@[frontier@[fi] as int]@[k] as int],
                        forall|k: int| 0 <= k < j ==> visited@[#[trigger] nbrs@[k] as int],
                    decreases nbrs@.len() - j,
                {
                    let v = nbrs[j];
                    assert(self.adj_list@[u as int]@[j as int] == v);
                    assert(v <= n);
                    if !visited[v] {
                        let ghost pre = visited@;
                        let ghost pre_next = next@;
                        proof {
                            lemma_count_true_set(visited@, v as int);
                            assert(self.edge(u as int, v as int));
                            self.lemma_within_step(s, u as int, v as int, depth as nat);
                        }
                        visited.set(v, true);
                        next.push(v);
                        assert forall|fi: int, k: int| #![trigger self.adj_list@[frontier@[fi] as int]@[k]]
                            0 <= fi < i && 0 <= k < self.adj_list@[frontier@[fi] as int]@.len()
                                implies visited@[self.adj_list@[frontier@[fi] as int]@[k] as int] by {
                            assert(pre[self.adj_list@[frontier@[fi] as int]@[k] as int]);
                        }
                        assert forall|k: int| 0 <= k < j implies visited@[#[trigger] nbrs@[k] as int] by {
                            assert(pre[nbrs@[k] as int]);
                        }
                        assert forall|x: int| 0 <= x <= n implies (visited@[x] <==> (old_visited[x] || #[trigger] next@.contains(x as usize))) by {
                            assert(next@ == pre_next.push(v));
                            if pre_next.contains(x as usize) {
                                let f = choose|f: int| 0 <= f < pre_next.len() && pre_next[f] == x as usize;
                                assert(next@[f] == x as usize);
                            }
                            if x == v as int {
                                assert(next@[pre_next.len() as int] == v);
                            }
                        }
                    }
                    j += 1;
                }
                i += 1;
            }
            // Everything within one more step is now marked.
            assert forall|v: int| #[trigger] self.within(s, v, (depth + 1) as nat) implies 0 <= v <= n && visited@[v] by {
                self.lemma_within_range(s, v, (depth + 1) as nat);
                if !self.within(s, v, depth as nat) {
                    let u = choose|u: int| #[trigger] self.edge(u, v) && self.within(s, u, depth as nat);
                    self.lemma_within_range(s, u, depth as nat);
                    if depth > 0 && self.within(s, u, (depth - 1) as nat) {
                        self.lemma_within_step(s, u, v, (depth - 1) as nat);
                    } else {
                        assert(frontier@.contains(u as usize));
                        let fi = choose|fi: int| 0 <= fi < frontier@.len() && frontier@[fi] == u as usize;
                        let k = choose|k: int| 0 <= k < self.adj_list@[u]@.len() && #[trigger] self.adj_list@[u]@[k] as int == v;
                        assert(self.adj_list@[frontier@[fi] as int]@[k] as int == v);
                    }
                }
            }
            if next.len() == 0 {
                proof {
                    assert forall|w: int| #[trigger] self.within(s, w, (depth + 1) as nat) implies self.within(s, w, depth as nat) by {
                        assert(0 <= w <= n && visited@[w]);
                    }
                    assert forall|v: int| #[trigger] self.reachable(s, v) implies self.within(s, v, depth as nat) by {
                        let k = choose|k: nat| #[trigger] self.within(s, v, k);
                        self.lemma_within_stable(s, depth as nat, v, k);
                    }
                    if depth > 0 {
                        let f = frontier@[0];
                        assert(self.within(s, f as int, depth as nat));
                    }
                }
                return depth;
            }
            proof {
                assert(next@.contains(next@[0]));
                assert forall|v: int| #![trigger self.within(s, v, (depth + 1) as nat)]
                    self.within(s, v, (depth + 1) as nat) && !self.within(s, v, depth as nat)
                        implies next@.contains(v as usize) by {
                    assert(0 <= v <= n && visited@[v]);
                }
                assert forall|v: int| 0 <= v <= n implies (visited@[v] <==> #[trigger] self.within(s, v, (depth + 1) as nat)) by {
                    if visited@[v] && !old_visited[v] {
                        let f = choose|f: int| 0 <= f < next@.len() && next@[f] == v as usize;
                        assert(self.within(s, next@[f] as int, (depth + 1) as nat));
                    }
                    if visited@[v] && old_visited[v] {
                        self.lemma_within_mono(s, v, depth as nat, (depth + 1) as nat);
                    }
                }
            }
            frontier = next;
            depth = depth + 1;
        }
    }

    pub proof fn lemma_reachable_step(&self, s: int, u: int, v: int)
        requires
            self.reachable(s, u),
            self.edge(u, v),
        ensures
            self.reachable(s, v),
    {
        let k = choose|k: nat| #[trigger] self.within(s, u, k);
        self.lemma_within_step(s, u, v, k);
    }

    pub proof fn lemma_reachable_trans(&self, a: int, b: int, c: int, k1: nat, k2: nat)
        requires
            self.within(a, b, k1),
            self.within(b, c, k2),
        ensures
            self.within(a, c, k1 + k2),
            self.reachable(a, c),
        decreases k2,
    {
        if k2 > 0 {
            if self.within(b, c, (k2 - 1) as nat) {
                self.lemma_reachable_trans(a, b, c, k1, (k2 - 1) as nat);
                self.lemma_within_mono(a, c, (k1 + k2 - 1) as nat, k1 + k2);
            } else {
                let u = choose|u: int| #[trigger] self.edge(u, c) && self.within(b, u, (k2 - 1) as nat);
                self.lemma_reachable_trans(a, b, u, k1, (k2 - 1) as nat);
                self.lemma_within_step(a, u, c, (k1 + k2 - 1) as nat);
            }
        }
        assert(self.within(a, c, k1 + k2));
    }

    pub proof fn lemma_reachable_self(&self, s: int)
        ensures
            self.reachable(s, s),
    {
        assert(self.within(s, s, 0));
    }

    /// A mark set that contains `s` and is closed under edges contains every vertex reachable from `s`.
    pub proof fn lemma_closed_contains_reachable(&self, marks: Seq<bool>, s: int, v: int, k: nat)
        requires
            self.well_formed(),
            0 <= s <= self.n,
            marks.len() == self.n + 1,
            marks[s],
            forall|a: int, b: int| 0 <= a <= self.n && marks[a] && #[trigger] self.edge(a, b) ==> 0 <= b <= self.n && marks[b],
            self.within(s, v, k),
        ensures
            0 <= v <= self.n && marks[v],
        decreases k,
    {
        if k > 0 {
            if self.within(s, v, (k - 1) as nat) {
                self.lemma_closed_contains_reachable(marks, s, v, (k - 1) as nat);
            } else {
                let u = choose|u: int| #[trigger] self.edge(u, v) && self.within(s, u, (k - 1) as nat);
                self.lemma_closed_contains_reachable(marks, s, u, (k - 1) as nat);
            }
        }
    }

    pub proof fn lemma_edge_target(&self, u: int, v: int)
        requires
            self.well_formed(),
            self.edge(u, v),
        ensures
            0 <= v <= self.n,
    {
        let k = choose|k: int| 0 <= k < self.adj_list@[u]@.len() && #[trigger] self.adj_list@[u]@[k] as int == v;
        assert(self.adj_list@[u]@[k] <= self.n);
    }

    /// Number of connected components met by the vertices `1..=n`: the number of vertices
    /// `i` that no smaller vertex `j >= 1` reaches.
    pub fn connected_components(&self) -> (count: usize)
        requires
            self.n >= 1 ==> self.well_formed(),
        ensures
            count == self.component_starts(self.n as int),
    {
        if self.n == 0 {
            return 0;
        }
        let n = self.n;
        let total = self.adj_list.len();
        let mut visited: Vec<bool> = vec![false; total];
        let mut count: usize = 0;
        let mut i: usize = 1;
        while i <= n
            invariant
                self.well_formed(),
                n == self.n,
                total == n + 1,
                1 <= i <= n + 1,
                visited@.len() == n + 1,
                count <= i - 1,
                count == self.component_starts(i - 1),
                forall|v: int| 0 <= v <= n ==> (visited@[v] <==> exists|j: int| 1 <= j < i && #[trigger] self.reachable(j, v)),
            decreases n + 1 - i,
        {
            let ghost before = visited@;
            if !visited[i] {
                assert(self.starts_component(i as int));
                count += 1;
                proof {
                    lemma_count_true_set(visited@, i as int);
                    self.lemma_reachable_self(i as int);
                }
                visited.set(i, true);
                let mut queue: std::collections::VecDeque<usize> = std::collections::VecDeque::new();
                queue.push_back(i);
                proof {
                    assert forall|a: int, b: int| 0 <= a <= n && before[a] && #[trigger] self.edge(a, b)
                        implies 0 <= b <= n && before[b] by {
                        self.lemma_edge_target(a, b);
                        let j = choose|j: int| 1 <= j < i && #[trigger] self.reachable(j, a);
                        self.lemma_reachable_step(j, a, b);
                    }
                    assert(queue@[0] == i);
                    assert forall|a: int, b: int| 0 <= a <= n && visited@[a] && #[trigger] self.edge(a, b) && !queue@.contains(a as usize)
                        implies visited@[b] by {
                        if a != i as int {
                            assert(before[a]);
                        } else {
                            assert(queue@.contains(i));
                        }
                    }
                }
                loop
                    invariant
                        self.well_formed(),
                        n == self.n,
                        total == n + 1,
                        1 <= i <= n,
                        visited@.len() == n + 1,
                        visited@[i as int],
                        forall|v: int| 0 <= v <= n && before[v] ==> #[trigger] visited@[v],
                        forall|v: int| 0 <= v <= n && #[trigger] visited@[v] ==> before[v] || self.reachable(i as int, v),
                        forall|a: int, b: int| 0 <= a <= n && before[a] && #[trigger] self.edge(a, b) ==> 0 <= b <= n && before[b],
                        forall|q: int| 0 <= q < queue@.len() ==> #[trigger] queue@[q] <= n && visited@[queue@[q] as int],
                        forall|a: int, b: int| 0 <= a <= n && visited@[a] && #[trigger] self.edge(a, b) && !queue@.contains(a as usize)
                            ==> visited@[b],
                    ensures
                        queue@.len() == 0,
                    decreases 2 * (n + 1 - count_true(visited@)) + queue@.len(),
                {
                    proof {
                        lemma_count_true_le_len(visited@);
                    }
                    let ghost queue_before_pop = queue@;
                    match queue.pop_front() {
                        None => {
                            break;
                        },
                        Some(node) => {
                            let ghost popped_queue = queue@;
                            let ghost count_at_pop = count_true(visited@);
                            proof {
                                assert forall|a: int, b: int| 0 <= a <= n && visited@[a] && #[trigger] self.edge(a, b)
                                    && !queue@.contains(a as usize) && a != node as int implies visited@[b] by {
                                    if queue_before_pop.contains(a as usize) {
                                        let q = choose|q: int| 0 <= q < queue_before_pop.len() && queue_before_pop[q] == a as usize;
                                        assert(q != 0);
                                        assert(queue@[q - 1] == a as usize);
                                    }
                                }
                            }
                            let nbrs = &self.adj_list[node];
                            let mut j: usize = 0;
                            while j < nbrs.len()
                                invariant
                                    self.well_formed(),
                                    n == self.n,
                                    total == n + 1,
                                    1 <= i <= n,
                                    node <= n,
                                    visited@[node as int],
                                    *nbrs == self.adj_list@[node as int],
                                    visited@.len() == n + 1,
                                    visited@[i as int],
                                    self.reachable(i as int, node as int) || before[node as int],
                                    0 <= j <= nbrs@.len(),
                                    queue@.len() >= popped_queue.len(),
                                    queue@.subrange(0, popped_queue.len() as int) == popped_queue,
                                    count_true(visited@) == count_at_pop + (queue@.len() - popped_queue.len()),
                                    forall|v: int| 0 <= v <= n && before[v] ==> #[trigger] visited@[v],
                                    forall|v: int| 0 <= v <= n && #[trigger] visited@[v] ==> before[v] || self.reachable(i as int, v),
                                    forall|a: int, b: int| 0 <= a <= n && before[a] && #[trigger] self.edge(a, b) ==> 0 <= b <= n && before[b],
                                    forall|q: int| 0 <= q < queue@.len() ==> #[trigger] queue@[q] <= n && visited@[queue@[q] as int],
                                    forall|a: int, b: int| 0 <= a <= n && visited@[a] && #[trigger] self.edge(a, b) && !queue@.contains(a as usize) && a != node as int
                                        ==> visited@[b],
                                    forall|k: int| 0 <= k < j ==> visited@[#[trigger] nbrs@[k] as int],
                                decreases nbrs@.len() - j,
                            {
                                let v = nbrs[j];
                                assert(self.adj_list@[node as int]@[j as int] == v);
                                let ghost pre = visited@;
                                let ghost pre_queue = queue@;
                                if !visited[v] {
                                    proof {
                                        lemma_count_true_set(visited@, v as int);
                                        assert(self.edge(node as int, v as int));
                                        if before[node as int] {
                                            assert(before[v as int]);
                                        } else {
                                            self.lemma_reachable_step(i as int, node as int, v as int);
                                        }
                                    }
                                    visited.set(v, true);
                                    queue.push_back(v);
                                    assert(queue@ == pre_queue.push(v));
                                    assert(queue@.subrange(0, popped_queue.len() as int) == pre_queue.subrange(0, popped_queue.len() as int));
                                }
                                proof {
                                    assert forall|a: int, b: int| 0 <= a <= n && visited@[a] && #[trigger] self.edge(a, b)
                                        && !queue@.contains(a as usize) && a != node as int implies visited@[b] by {
                                        if pre_queue.contains(a as usize) {
                                            let q = choose|q: int| 0 <= q < pre_queue.len() && pre_queue[q] == a as usize;
                                            assert(queue@[q] == a as usize);
                                        }
                                        if a == v as int && !pre[a] {
                                            assert(queue@[queue@.len() - 1] == v);
                                        }
                                        assert(pre[a]);
                                        assert(pre[b]);
                                    }
                                    assert forall|k: int| 0 <= k < j + 1 implies visited@[#[trigger] nbrs@[k] as int] by {
                                        if k < j {
                                            assert(pre[nbrs@[k] as int]);
                                        }
                                    }
                                }
                                j += 1;
                            }
                            proof {
                                lemma_count_true_le_len(visited@);
                                assert forall|a: int, b: int| 0 <= a <= n && visited@[a] && #[trigger] self.edge(a, b)
                                    && !queue@.contains(a as usize) implies visited@[b] by {
                                    if a == node as int {
                                        let k = choose|k: int| 0 <= k < self.adj_list@[a]@.len() && #[trigger] self.adj_list@[a]@[k] as int == b;
                                        assert(nbrs@[k] as int == b);
                                    }
                                }
                            }
                        },
                    }
                }
                proof {
                    assert forall|a: int, b: int| 0 <= a <= n && visited@[a] && #[trigger] self.edge(a, b)
                        implies 0 <= b <= n && visited@[b] by {
                        self.lemma_edge_target(a, b);
                    }
                    assert forall|v: int| 0 <= v <= n implies (visited@[v] <==> exists|j: int| 1 <= j < i + 1 && #[trigger] self.reachable(j, v)) by {
                        if visited@[v] {
                            if !before[v] {
                                assert(self.reachable(i as int, v));
                            }
                        } else {
                            assert forall|j: int| 1 <= j < i + 1 implies !#[trigger] self.reachable(j, v) by {
                                if j == i as int && self.reachable(j, v) {
                                    let k = choose|k: nat| #[trigger] self.within(j, v, k);
                                    self.lemma_closed_contains_reachable(visited@, j, v, k);
                                }
                            }
                        }
                    }
                }
            } else {
                assert(!self.starts_component(i as int));
                assert forall|v: int| 0 <= v <= n implies (visited@[v] <==> exists|j: int| 1 <= j < i + 1 && #[trigger] self.reachable(j, v)) by {
                    if exists|j: int| 1 <= j < i + 1 && #[trigger] self.reachable(j, v) {
                        let j = choose|j: int| 1 <= j < i + 1 && #[trigger] self.reachable(j, v);
                        if j == i as int {
                            let j2 = choose|j2: int| 1 <= j2 < i && #[trigger] self.reachable(j2, i as int);
                            let k2 = choose|k: nat| #[trigger] self.within(j2, i as int, k);
                            let k = choose|k: nat| #[trigger] self.within(i as int, v, k);
                            self.lemma_reachable_trans(j2, i as int, v, k2, k);
                        }
                    }
                }
            }
            i += 1;
        }
        count
    }
}


/// Every edge of `g` is listed in both directions.
pub open spec fn symmetric(g: &Graph) -> bool {
    forall|x: int, y: int| #[trigger] g.edge(x, y) ==> g.edge(y, x)
}

/// `h` is `g` with the edge `u -- v` added in both directions.
pub open spec fn with_edge(g: &Graph, h: &Graph, u: int, v: int) -> bool {
    &&& h.n == g.n
    &&& forall|x: int, y: int| #[trigger] h.edge(x, y) <==> (g.edge(x, y) || (x == u && y == v) || (x == v && y == u))
}

proof fn lemma_within_grows(g: &Graph, h: &Graph, u: int, v: int, s: int, x: int, k: nat)
    requires
        with_edge(g, h, u, v),
        g.within(s, x, k),
    ensures
        h.within(s, x, k),
    decreases k,
{
    if k > 0 {
        if g.within(s, x, (k - 1) as nat) {
            lemma_within_grows(g, h, u, v, s, x, (k - 1) as nat);
        } else {
            let y = choose|y: int| #[trigger] g.edge(y, x) && g.within(s, y, (k - 1) as nat);
            lemma_within_grows(g, h, u, v, s, y, (k - 1) as nat);
            assert(h.edge(y, x));
            h.lemma_within_step(s, y, x, (k - 1) as nat);
        }
    }
}

proof fn lemma_reachable_symmetric(g: &Graph, s: int, x: int, k: nat)
    requires
        symmetric(g),
        g.within(s, x, k),
    ensures
        g.reachable(x, s),
    decreases k,
{
    if k == 0 {
        g.lemma_reachable_self(s);
    } else if g.within(s, x, (k - 1) as nat) {
        lemma_reachable_symmetric(g, s, x, (k - 1) as nat);
    } else {
        let y = choose|y: int| #[trigger] g.edge(y, x) && g.within(s, y, (k - 1) as nat);
        lemma_reachable_symmetric(g, s, y, (k - 1) as nat);
        assert(g.edge(x, y));
        assert(g.within(x, x, 0));
        g.lemma_within_step(x, x, y, 0);
        let k2 = choose|k2: nat| #[trigger] g.within(y, s, k2);
        g.lemma_reachable_trans(x, y, s, 1, k2);
    }
}

/// A walk of `h` from `s` to `x` leaves `x` reachable in `g` from `s`, `u` or `v`.
proof fn lemma_walk_with_edge(g: &Graph, h: &Graph, u: int, v: int, s: int, x: int, k: nat)
    requires
        with_edge(g, h, u, v),
        h.within(s, x, k),
    ensures
        g.reachable(s, x) || g.reachable(u, x) || g.reachable(v, x),
    decreases k,
{
    if k == 0 {
        g.lemma_reachable_self(s);
    } else if h.within(s, x, (k - 1) as nat) {
        lemma_walk_with_edge(g, h, u, v, s, x, (k - 1) as nat);
    } else {
        let y = choose|y: int| #[trigger] h.edge(y, x) && h.within(s, y, (k - 1) as nat);
        lemma_walk_with_edge(g, h, u, v, s, y, (k - 1) as nat);
        if g.edge(y, x) {
            if g.reachable(s, y) {
                g.lemma_reachable_step(s, y, x);
            }
            if g.reachable(u, y) {
                g.lemma_reachable_step(u, y, x);
            }
            if g.reachable(v, y) {
                g.lemma_reachable_step(v, y, x);
            }
        } else {
            g.lemma_reachable_self(x);
        }
    }
}

proof fn lemma_reach_chain(g: &Graph, a: int, b: int, c: int)
    requires
        g.reachable(a, b),
        g.reachable(b, c),
    ensures
        g.reachable(a, c),
{
    let k1 = choose|k: nat| #[trigger] g.within(a, b, k);
    let k2 = choose|k: nat| #[trigger] g.within(b, c, k);
    g.lemma_reachable_trans(a, b, c, k1, k2);
}

proof fn lemma_reach_back(g: &Graph, a: int, b: int)
    requires
        symmetric(g),
        g.reachable(a, b),
    ensures
        g.reachable(b, a),
{
    let k = choose|k: nat| #[trigger] g.within(a, b, k);
    lemma_reachable_symmetric(g, a, b, k);
}

/// A vertex that starts a component of `h` starts one of `g`.
proof fn lemma_start_kept(g: &Graph, h: &Graph, u: int, v: int, i: int)
    requires
        with_edge(g, h, u, v),
        h.starts_component(i),
    ensures
        g.starts_component(i),
{
    assert forall|j: int| 1 <= j < i implies !#[trigger] g.reachable(j, i) by {
        if g.reachable(j, i) {
            let k = choose|k: nat| #[trigger] g.within(j, i, k);
            lemma_within_grows(g, h, u, v, j, i, k);
            assert(h.reachable(j, i));
        }
    }
}

/// A vertex that starts a component of `g` but not of `h` is reached in `g` from `u` or `v`.
proof fn lemma_lost_start(g: &Graph, h: &Graph, u: int, v: int, i: int) -> (j: int)
    requires
        with_edge(g, h, u, v),
        g.starts_component(i),
        !h.starts_component(i),
    ensures
        1 <= j < i,
        h.reachable(j, i),
        g.reachable(u, i) || g.reachable(v, i),
{
    let j = choose|j: int| 1 <= j < i && #[trigger] h.reachable(j, i);
    let k = choose|k: nat| #[trigger] h.within(j, i, k);
    lemma_walk_with_edge(g, h, u, v, j, i, k);
    j
}

/// At most one vertex starts a component of `g` but not of `h`.
proof fn lemma_one_lost(g: &Graph, h: &Graph, u: int, v: int, i1: int, i2: int)
    requires
        with_edge(g, h, u, v),
        symmetric(g),
        g.starts_component(i1),
        !h.starts_component(i1),
        g.starts_component(i2),
        i1 < i2,
    ensures
        h.starts_component(i2),
{
    if !h.starts_component(i2) {
        assert(symmetric(h)) by {
            assert forall|x: int, y: int| #[trigger] h.edge(x, y) implies h.edge(y, x) by {
                if g.edge(x, y) {
                    assert(g.edge(y, x));
                }
            }
        }
        let j1 = lemma_lost_start(g, h, u, v, i1);
        lemma_lost_start(g, h, u, v, i2);
        // i1 and i2 lie in different components of g, one holding u and the other v
        let (p1, p2) = if g.reachable(u, i1) { (u, v) } else { (v, u) };
        assert(g.reachable(p1, i1));
        if g.reachable(p1, i2) {
            lemma_reach_back(g, p1, i1);
            lemma_reach_chain(g, i1, p1, i2);
            assert(g.reachable(i1, i2));
            assert(false);
        }
        assert(g.reachable(p2, i2));
        // in h, i1 reaches the smaller j1, which g reaches from i1, u or v
        lemma_reach_back(h, j1, i1);
        let k = choose|k: nat| #[trigger] h.within(i1, j1, k);
        lemma_walk_with_edge(g, h, u, v, i1, j1, k);
        if g.reachable(i1, j1) {
            lemma_reach_back(g, i1, j1);
            assert(false);
        } else if g.reachable(p1, j1) {
            lemma_reach_back(g, p1, j1);
            lemma_reach_chain(g, j1, p1, i1);
            assert(false);
        } else {
            assert(g.reachable(p2, j1));
            lemma_reach_back(g, p2, j1);
            lemma_reach_chain(g, j1, p2, i2);
            assert(g.reachable(j1, i2));
            assert(false);
        }
    }
}


/// Some vertex of `1..=m` starts a component of `g` but not of `h`.
spec fn some_lost(g: &Graph, h: &Graph, m: int) -> bool {
    exists|i: int| 1 <= i <= m && #[trigger] g.starts_component(i) && !h.starts_component(i)
}

proof fn lemma_starts_counted(g: &Graph, h: &Graph, u: int, v: int, m: int)
    requires
        with_edge(g, h, u, v),
        symmetric(g),
    ensures
        g.component_starts(m) == h.component_starts(m) + if some_lost(g, h, m) { 1nat } else { 0nat },
    decreases m,
{
    if m > 0 {
        lemma_starts_counted(g, h, u, v, m - 1);
        if h.starts_component(m) {
            lemma_start_kept(g, h, u, v, m);
        }
        if g.starts_component(m) && !h.starts_component(m) {
            if some_lost(g, h, m - 1) {
                let i = choose|i: int| 1 <= i <= m - 1 && #[trigger] g.starts_component(i) && !h.starts_component(i);
                lemma_one_lost(g, h, u, v, i, m);
            }
            assert(some_lost(g, h, m));
        } else {
            if some_lost(g, h, m) {
                let i = choose|i: int| 1 <= i <= m && #[trigger] g.starts_component(i) && !h.starts_component(i);
                assert(i != m);
                assert(some_lost(g, h, m - 1));
            }
            if some_lost(g, h, m - 1) {
                let i = choose|i: int| 1 <= i <= m - 1 && #[trigger] g.starts_component(i) && !h.starts_component(i);
                assert(some_lost(g, h, m));
            }
        }
    } else {
        assert(!some_lost(g, h, m));
    }
}

/// Adding one edge to an undirected graph merges at most two components and splits none:
/// the component count drops by at most one.
pub proof fn law_added_edge_merges_at_most_two(g: &Graph, h: &Graph, u: int, v: int)
    requires
        symmetric(g),
        with_edge(g, h, u, v),
    ensures
        h.component_starts(h.n as int) <= g.component_starts(g.n as int) <= h.component_starts(h.n as int) + 1,
{
    lemma_starts_counted(g, h, u, v, g.n as int);
}

} // verus!
