use vstd::prelude::*;
use vstd::set_lib::{lemma_len_subset, set_int_range, lemma_int_range};

verus! {

/// Directed, non-negative-weighted edge.
#[derive(Debug, Clone, Copy)]
pub struct Edge {
    pub src: usize,
    pub dst: usize,
    pub weight: u32,
}

/// Largest weight an edge can carry.
pub open spec fn max_weight() -> int {
    0xFFFF_FFFF
}

/// `edges` holds an edge `u -> v` of weight `w`.
pub open spec fn has_edge(edges: Seq<Edge>, u: int, v: int, w: int) -> bool {
    exists|i: int| 0 <= i < edges.len() && #[trigger] edges[i].src == u && edges[i].dst == v
        && edges[i].weight == w
}

/// Every edge joins two vertices below `n`.
pub open spec fn edges_in_range(edges: Seq<Edge>, n: int) -> bool {
    forall|i: int| 0 <= i < edges.len() ==> #[trigger] edges[i].src < n && edges[i].dst < n
}

/// There is a walk of exactly `k` edges from `s` to `v` whose weights sum to `w`.
pub open spec fn walk_weight(edges: Seq<Edge>, s: int, v: int, k: nat, w: int) -> bool
    decreases k,
{
    if k == 0 {
        v == s && w == 0
    } else {
        exists|u: int, x: int| #[trigger] has_edge(edges, u, v, x) && walk_weight(edges, s, u, (k - 1) as nat, w - x)
    }
}

/// `d` is the shortest-path distance from `s` to `v`: `Some(x)` when `x` is the
/// least weight of a walk from `s` to `v`, `None` when no walk exists.
pub open spec fn is_shortest_distance(edges: Seq<Edge>, s: int, v: int, d: Option<u64>) -> bool {
    match d {
        Some(x) => is_least_walk_weight(edges, s, v, x as int),
        None => no_walk(edges, s, v),
    }
}

/// `x` is the weight of a walk from `s` to `v`, and no walk weighs less.
pub open spec fn is_least_walk_weight(edges: Seq<Edge>, s: int, v: int, x: int) -> bool {
    &&& exists|k: nat| #[trigger] walk_weight(edges, s, v, k, x)
    &&& forall|k: nat, w: int| #[trigger] walk_weight(edges, s, v, k, w) ==> x <= w
}

/// No walk leads from `s` to `v`.
pub open spec fn no_walk(edges: Seq<Edge>, s: int, v: int) -> bool {
    forall|k: nat, w: int| !#[trigger] walk_weight(edges, s, v, k, w)
}

/// No edge can shorten a finite distance in `dist`.
pub open spec fn no_edge_relaxes(edges: Seq<Edge>, dist: Seq<Option<u64>>) -> bool {
    forall|i: int| 0 <= i < edges.len() && (#[trigger] dist[edges[i].src as int]) is Some
        ==> dist[edges[i].dst as int] is Some
            && dist[edges[i].dst as int]->0 <= dist[edges[i].src as int]->0 + edges[i].weight
}

/// Every finite distance in `dist` is the weight of some walk from `s`.
pub open spec fn distances_are_walks(edges: Seq<Edge>, s: int, dist: Seq<Option<u64>>) -> bool {
    forall|v: int| 0 <= v < dist.len() && (#[trigger] dist[v]) is Some
        ==> exists|k: nat| #[trigger] walk_weight(edges, s, v, k, dist[v]->0 as int)
}

/// A walk extended by one edge.
pub proof fn lemma_walk_step(edges: Seq<Edge>, s: int, u: int, v: int, k: nat, w: int, x: int)
    requires
        walk_weight(edges, s, u, k, w),
        has_edge(edges, u, v, x),
    ensures
        walk_weight(edges, s, v, k + 1, w + x),
{
    assert(walk_weight(edges, s, u, ((k + 1) - 1) as nat, (w + x) - x));
}

/// A distance table that no edge can shorten, with the start at distance 0,
/// is a lower bound on the weight of every walk.
pub proof fn lemma_dist_lower_bound(edges: Seq<Edge>, s: int, dist: Seq<Option<u64>>, v: int, k: nat, w: int)
    requires
        edges_in_range(edges, dist.len() as int),
        0 <= s < dist.len(),
        dist[s] == Some(0u64),
        no_edge_relaxes(edges, dist),
        walk_weight(edges, s, v, k, w),
    ensures
        0 <= v < dist.len(),
        dist[v] is Some,
        dist[v]->0 <= w,
    decreases k,
{
    if k > 0 {
        let (u, x) = choose|u: int, x: int| #[trigger] has_edge(edges, u, v, x)
            && walk_weight(edges, s, u, (k - 1) as nat, w - x);
        lemma_dist_lower_bound(edges, s, dist, u, (k - 1) as nat, w - x);
        let i = choose|i: int| 0 <= i < edges.len() && #[trigger] edges[i].src == u && edges[i].dst == v
            && edges[i].weight == x;
        assert(dist[edges[i].src as int] is Some);
    }
}

/// No vertex below `n` is reachable from a start outside `[0, n)`.
pub proof fn lemma_no_walk_from_outside(edges: Seq<Edge>, n: int, s: int, v: int, k: nat, w: int)
    requires
        edges_in_range(edges, n),
        s >= n,
        0 <= v < n,
    ensures
        !walk_weight(edges, s, v, k, w),
    decreases k,
{
    if k > 0 {
        assert forall|u: int, x: int| #[trigger] has_edge(edges, u, v, x)
            implies !walk_weight(edges, s, u, (k - 1) as nat, w - x) by {
            let i = choose|i: int| 0 <= i < edges.len() && #[trigger] edges[i].src == u && edges[i].dst == v
                && edges[i].weight == x;
            assert(edges[i].src < n);
            lemma_no_walk_from_outside(edges, n, s, u, (k - 1) as nat, w - x);
        }
    }
}

/// A feasible table of walk weights is exactly the table of shortest distances.
pub proof fn lemma_feasible_walks_are_shortest(edges: Seq<Edge>, s: int, dist: Seq<Option<u64>>)
    requires
        edges_in_range(edges, dist.len() as int),
        0 <= s < dist.len(),
        dist[s] == Some(0u64),
        no_edge_relaxes(edges, dist),
        distances_are_walks(edges, s, dist),
    ensures
        forall|v: int| 0 <= v < dist.len() ==> is_shortest_distance(edges, s, v, #[trigger] dist[v]),
{
    assert forall|v: int| 0 <= v < dist.len() implies is_shortest_distance(edges, s, v, #[trigger] dist[v]) by {
        assert forall|k: nat, w: int| #[trigger] walk_weight(edges, s, v, k, w) implies dist[v] is Some && dist[v]->0 <= w by {
            lemma_dist_lower_bound(edges, s, dist, v, k, w);
        }
    }
}

/// `row` holds the pair `(v, w)`.
pub open spec fn lists_pair(row: Seq<(usize, u32)>, v: usize, w: u32) -> bool {
    exists|t: int| 0 <= t < row.len() && row[t] == (v, w)
}

/// Adjacency row `u` lists exactly the edges leaving `u`, in input order.
fn adjacency_row(edges: &[Edge], u: usize) -> (row: Vec<(usize, u32)>)
    ensures
        forall|t: int| 0 <= t < row@.len() ==> has_edge(edges@, u as int, (#[trigger] row@[t]).0 as int, row@[t].1 as int),
        forall|i: int| 0 <= i < edges@.len() && (#[trigger] edges@[i]).src == u
            ==> lists_pair(row@, edges@[i].dst, edges@[i].weight),
{
    let mut row: Vec<(usize, u32)> = Vec::new();
    let mut i: usize = 0;
    while i < edges.len()
        invariant
            0 <= i <= edges@.len(),
            forall|t: int| 0 <= t < row@.len() ==> has_edge(edges@, u as int, (#[trigger] row@[t]).0 as int, row@[t].1 as int),
            forall|j: int| 0 <= j < i && (#[trigger] edges@[j]).src == u
                ==> lists_pair(row@, edges@[j].dst, edges@[j].weight),
        decreases edges@.len() - i,
    {
        let e = edges[i];
        if e.src == u {
            let ghost old_row = row@;
            row.push((e.dst, e.weight));
            proof {
                assert forall|j: int| 0 <= j < i + 1 && (#[trigger] edges@[j]).src == u
                    implies lists_pair(row@, edges@[j].dst, edges@[j].weight) by {
                    if j == i {
                        assert(row@[old_row.len() as int] == (edges@[j].dst, edges@[j].weight));
                    } else {
                        let t = choose|t: int| 0 <= t < old_row.len() && old_row[t] == (edges@[j].dst, edges@[j].weight);
                        assert(row@[t] == old_row[t]);
                    }
                }
            }
        }
        i = i + 1;
    }
    row
}

/// Index of the least `(distance, vertex)` entry.
fn min_entry(heap: &Vec<(u64, usize)>) -> (idx: usize)
    requires
        heap@.len() > 0,
    ensures
        idx < heap@.len(),
        forall|j: int| 0 <= j < heap@.len() ==> heap@[idx as int].0 <= (#[trigger] heap@[j]).0,
{
    let mut best: usize = 0;
    let mut j: usize = 1;
    while j < heap.len()
        invariant
            heap@.len() > 0,
            best < heap@.len(),
            1 <= j <= heap@.len(),
            forall|k: int| 0 <= k < j ==> heap@[best as int].0 <= (#[trigger] heap@[k]).0,
        decreases heap@.len() - j,
    {
        let (d, v) = heap[j];
        let (bd, bv) = heap[best];
        if d < bd || (d == bd && v < bv) {
            best = j;
        }
        j = j + 1;
    }
    best
}

/// Single-source shortest paths via Dijkstra's algorithm.
///
/// Returns a vector `dist` of length `n` where `dist[v]` is `Some(d)` with
/// `d` the shortest distance from `source` to `v`, or `None` if `v` is
/// unreachable from `source`. A source that is not a vertex (`source >= n`)
/// reaches nothing, so every entry is `None`. Every edge's endpoints must be
/// vertices below `n`, and `n` times the largest edge
/// weight must fit in a `u64` so that no distance overflows.
pub fn dijkstra(n: usize, source: usize, edges: &[Edge]) -> (dist: Vec<Option<u64>>)
    requires
        edges_in_range(edges@, n as int),
        n * max_weight() <= u64::MAX,
    ensures
        dist@.len() == n,
        forall|v: int| 0 <= v < n ==> is_shortest_distance(edges@, source as int, v, #[trigger] dist@[v]),
{
    let mut adjacency: Vec<Vec<(usize, u32)>> = Vec::new();
    while adjacency.len() < n
        invariant
            adjacency@.len() <= n,
            forall|u: int, t: int| 0 <= u < adjacency@.len() && 0 <= t < adjacency@[u]@.len()
                ==> has_edge(edges@, u, (#[trigger] adjacency@[u]@[t]).0 as int, adjacency@[u]@[t].1 as int),
            forall|i: int| 0 <= i < edges@.len() && (#[trigger] edges@[i]).src < adjacency@.len()
                ==> lists_pair(adjacency@[edges@[i].src as int]@, edges@[i].dst, edges@[i].weight),
        decreases n - adjacency@.len(),
    {
        let ghost old_adj = adjacency@;
        let row = adjacency_row(edges, adjacency.len());
        adjacency.push(row);
        proof {
            assert(adjacency@[old_adj.len() as int] == row);
            assert forall|i: int| 0 <= i < edges@.len() && (#[trigger] edges@[i]).src < adjacency@.len()
                implies lists_pair(adjacency@[edges@[i].src as int]@, edges@[i].dst, edges@[i].weight) by {
                if edges@[i].src == old_adj.len() {
                } else {
                    assert(adjacency@[edges@[i].src as int] == old_adj[edges@[i].src as int]);
                }
            }
            assert forall|a: int, b: int| 0 <= a < adjacency@.len() && 0 <= b < adjacency@[a]@.len()
                implies has_edge(edges@, a, (#[trigger] adjacency@[a]@[b]).0 as int, adjacency@[a]@[b].1 as int) by {
                if a < old_adj.len() {
                    assert(adjacency@[a] == old_adj[a]);
                }
            }
        }
    }
    let mut dist: Vec<Option<u64>> = Vec::new();
    while dist.len() < n
        invariant
            dist@.len() <= n,
            forall|v: int| 0 <= v < dist@.len() ==> dist@[v] is None,
        decreases n - dist@.len(),
    {
        dist.push(None);
    }
    if source >= n {
        proof {
            assert forall|v: int| 0 <= v < n implies is_shortest_distance(edges@, source as int, v, #[trigger] dist@[v]) by {
                assert forall|k: nat, w: int| !#[trigger] walk_weight(edges@, source as int, v, k, w) by {
                    lemma_no_walk_from_outside(edges@, n as int, source as int, v, k, w);
                }
            }
        }
        return dist;
    }
    let ghost all_none = dist@;
    dist.set(source, Some(0));
    proof {
        assert(walk_weight(edges@, source as int, source as int, 0, 0));
        assert forall|v: int| 0 <= v < dist@.len() && (#[trigger] dist@[v]) is Some
            implies exists|k: nat| #[trigger] walk_weight(edges@, source as int, v, k, dist@[v]->0 as int) by {
            if v != source {
                assert(dist@[v] == all_none[v]);
            }
            assert(walk_weight(edges@, source as int, v, 0, dist@[v]->0 as int));
        }
        assert forall|i: int| 0 <= i < edges@.len()
            implies lists_pair(adjacency@[(#[trigger] edges@[i]).src as int]@, edges@[i].dst, edges@[i].weight) by {
            assert(edges@[i].src < n);
        }
    }
    let mut heap: Vec<(u64, usize)> = Vec::new();
    heap.push((0, source));
    let ghost mut done: Set<int> = Set::empty();
    let ghost mut level: int = 0;
    proof {
        lemma_int_range(0, n as int);
        assert forall|u: int| 0 <= u < n && (#[trigger] dist@[u]) is Some && !done.contains(u)
            implies exists|i: int| 0 <= i < heap@.len() && heap@[i] == (dist@[u]->0, u as usize) by {
            if u != source {
                assert(dist@[u] == all_none[u]);
            }
            assert(heap@[0] == (dist@[u]->0, u as usize));
        }
    }
    while heap.len() > 0
        invariant
            n == adjacency@.len(),
            n == dist@.len(),
            n * max_weight() <= u64::MAX,
            edges_in_range(edges@, n as int),
            forall|u: int, t: int| 0 <= u < n && 0 <= t < adjacency@[u]@.len()
                ==> has_edge(edges@, u, (#[trigger] adjacency@[u]@[t]).0 as int, adjacency@[u]@[t].1 as int),
            forall|i: int| 0 <= i < edges@.len()
                ==> lists_pair(adjacency@[(#[trigger] edges@[i]).src as int]@, edges@[i].dst, edges@[i].weight),
            source < n,
            dist@[source as int] == Some(0u64),
            distances_are_walks(edges@, source as int, dist@),
            set_int_range(0, n as int).finite(),
            set_int_range(0, n as int).len() == n,
            done.subset_of(set_int_range(0, n as int)),
            0 <= level,
            forall|v: int| 0 <= v < n && (#[trigger] dist@[v]) is Some ==> dist@[v]->0 <= done.len() * max_weight(),
            forall|i: int| 0 <= i < heap@.len() ==> (#[trigger] heap@[i]).1 < n
                && dist@[heap@[i].1 as int] is Some
                && heap@[i].0 >= dist@[heap@[i].1 as int]->0
                && heap@[i].0 >= level,
            forall|i: int, j: int| 0 <= i < heap@.len() && 0 <= j < heap@.len() && i != j
                && (#[trigger] heap@[i]).1 == (#[trigger] heap@[j]).1
                && heap@[i].0 == dist@[heap@[i].1 as int]->0
                ==> heap@[j].0 != heap@[i].0,
            forall|u: int| #[trigger] done.contains(u) ==> 0 <= u < n
                && dist@[u] is Some
                && dist@[u]->0 <= level
                && (forall|i: int| 0 <= i < heap@.len() ==> #[trigger] heap@[i] != (dist@[u]->0, u as usize))
                && (forall|t: int| 0 <= t < adjacency@[u]@.len() ==>
                    dist@[(#[trigger] adjacency@[u]@[t]).0 as int] is Some
                    && dist@[adjacency@[u]@[t].0 as int]->0 <= dist@[u]->0 + adjacency@[u]@[t].1),
            forall|u: int| 0 <= u < n && (#[trigger] dist@[u]) is Some && !done.contains(u)
                ==> exists|i: int| 0 <= i < heap@.len() && heap@[i] == (dist@[u]->0, u as usize),
        decreases n - done.len(), heap@.len(),
    {
        proof { lemma_len_subset(done, set_int_range(0, n as int)); }
        let idx = min_entry(&heap);
        let ghost h0 = heap@;
        let (d, u) = heap.remove(idx);
        assert(heap@ =~= h0.remove(idx as int));
        let is_current = match dist[u] {
            Some(cur) => cur == d,
            None => false,
        };
        if !is_current {
            proof {
                assert forall|w: int| 0 <= w < n && (#[trigger] dist@[w]) is Some && !done.contains(w)
                    implies exists|i: int| 0 <= i < heap@.len() && heap@[i] == (dist@[w]->0, w as usize) by {
                    let i = choose|i: int| 0 <= i < h0.len() && h0[i] == (dist@[w]->0, w as usize);
                    if i < idx {
                        assert(heap@[i] == h0[i]);
                    } else {
                        assert(i != idx);
                        assert(heap@[i - 1] == h0[i]);
                    }
                }
                assert forall|i: int, j: int| 0 <= i < heap@.len() && 0 <= j < heap@.len() && i != j
                    && (#[trigger] heap@[i]).1 == (#[trigger] heap@[j]).1
                    && heap@[i].0 == dist@[heap@[i].1 as int]->0
                    implies heap@[j].0 != heap@[i].0 by {
                    let oi = if i < idx { i } else { i + 1 };
                    let oj = if j < idx { j } else { j + 1 };
                    assert(heap@[i] == h0[oi]);
                    assert(heap@[j] == h0[oj]);
                }
            }
            continue;
        }
        // `u` is popped with its current distance `d`: it has not been
        // processed, and `d` is the new level.
        assert(!done.contains(u as int)) by {
            if done.contains(u as int) {
                assert(h0[idx as int] == (dist@[u as int]->0, u));
            }
        }
        proof {
            assert forall|i: int| 0 <= i < heap@.len() implies heap@[i] != (d, u) by {
                let oi = if i < idx { i } else { i + 1 };
                assert(heap@[i] == h0[oi]);
                assert(oi != idx);
            }
            assert(done.insert(u as int).subset_of(set_int_range(0, n as int)));
            lemma_len_subset(done.insert(u as int), set_int_range(0, n as int));
            assert(done.insert(u as int).len() == done.len() + 1);
            assert(d <= done.len() * max_weight());
            assert((done.len() + 1) * max_weight() == done.len() * max_weight() + max_weight()) by (nonlinear_arith);
            assert((done.len() + 1) * max_weight() <= n * max_weight()) by (nonlinear_arith)
                requires done.len() + 1 <= n;
        }
        let ghost old_level = level;
        proof { level = d as int; }
        let row = &adjacency[u];
        let ghost dist_before = dist@;
        proof {
            assert forall|w: int| 0 <= w < n && (#[trigger] dist@[w]) is Some && !done.contains(w) && w != u
                implies exists|i: int| 0 <= i < heap@.len() && heap@[i] == (dist@[w]->0, w as usize) by {
                let i = choose|i: int| 0 <= i < h0.len() && h0[i] == (dist@[w]->0, w as usize);
                if i < idx {
                    assert(heap@[i] == h0[i]);
                } else {
                    assert(i != idx);
                    assert(heap@[i - 1] == h0[i]);
                }
            }
        }
        let mut t: usize = 0;
        while t < row.len()
            invariant
                n == adjacency@.len(),
                n == dist@.len(),
                n == dist_before.len(),
                row@ == adjacency@[u as int]@,
                u < n,
                n * max_weight() <= u64::MAX,
                edges_in_range(edges@, n as int),
                forall|a: int, b: int| 0 <= a < n && 0 <= b < adjacency@[a]@.len()
                    ==> has_edge(edges@, a, (#[trigger] adjacency@[a]@[b]).0 as int, adjacency@[a]@[b].1 as int),
                source < n,
                dist@[source as int] == Some(0u64),
                dist@[u as int] == Some(d),
                d as int == level,
                old_level <= level,
                distances_are_walks(edges@, source as int, dist@),
                !done.contains(u as int),
                done.len() + 1 <= n,
                d <= done.len() * max_weight(),
                (done.len() + 1) * max_weight() <= n * max_weight(),
                forall|v: int| 0 <= v < n && (#[trigger] dist@[v]) is Some ==> dist@[v]->0 <= (done.len() + 1) * max_weight(),
                forall|v: int| 0 <= v < n && dist_before[v] is Some ==> (#[trigger] dist@[v]) is Some && dist@[v]->0 <= dist_before[v]->0,
                forall|v: int| 0 <= v < n && (#[trigger] dist@[v]) != dist_before[v] ==> dist@[v] is Some && dist@[v]->0 >= d,
                forall|i: int| 0 <= i < heap@.len() ==> (#[trigger] heap@[i]).1 < n
                    && dist@[heap@[i].1 as int] is Some
                    && heap@[i].0 >= dist@[heap@[i].1 as int]->0
                    && heap@[i].0 >= level,
                forall|i: int, j: int| 0 <= i < heap@.len() && 0 <= j < heap@.len() && i != j
                    && (#[trigger] heap@[i]).1 == (#[trigger] heap@[j]).1
                    && heap@[i].0 == dist@[heap@[i].1 as int]->0
                    ==> heap@[j].0 != heap@[i].0,
                forall|i: int| 0 <= i < heap@.len() ==> #[trigger] heap@[i] != (d, u),
                forall|w: int| #[trigger] done.contains(w) ==> 0 <= w < n
                    && dist@[w] is Some
                    && dist@[w]->0 <= level
                    && (forall|i: int| 0 <= i < heap@.len() ==> #[trigger] heap@[i] != (dist@[w]->0, w as usize))
                    && (forall|b: int| 0 <= b < adjacency@[w]@.len() ==>
                        dist@[(#[trigger] adjacency@[w]@[b]).0 as int] is Some
                        && dist@[adjacency@[w]@[b].0 as int]->0 <= dist@[w]->0 + adjacency@[w]@[b].1),
                forall|w: int| 0 <= w < n && (#[trigger] dist@[w]) is Some && !done.contains(w) && w != u
                    ==> exists|i: int| 0 <= i < heap@.len() && heap@[i] == (dist@[w]->0, w as usize),
                0 <= t <= row@.len(),
                forall|b: int| 0 <= b < t ==>
                    dist@[(#[trigger] row@[b]).0 as int] is Some
                    && dist@[row@[b].0 as int]->0 <= d + row@[b].1,
            decreases row@.len() - t,
        {
            let (v, w) = row[t];
            assert(has_edge(edges@, u as int, v as int, w as int));
            assert(v < n) by {
                let i = choose|i: int| 0 <= i < edges@.len() && #[trigger] edges@[i].src == u as int
                    && edges@[i].dst == v as int && edges@[i].weight == w as int;
                assert(edges@[i].dst < n);
            }
            let nd = d + w as u64;
            let improves = match dist[v] {
                None => true,
                Some(current) => nd < current,
            };
            if improves {
                let ghost ku: nat = choose|k: nat| #[trigger] walk_weight(edges@, source as int, u as int, k, d as int);
                proof {
                    lemma_walk_step(edges@, source as int, u as int, v as int, ku, d as int, w as int);
                    if done.contains(v as int) {
                        assert(dist@[v as int]->0 <= level);
                    }
                }
                let ghost hb = heap@;
                let ghost db = dist@;
                dist.set(v, Some(nd));
                heap.push((nd, v));
                proof {
                    assert(heap@ =~= hb.push((nd, v)));
                    assert(!done.contains(v as int));
                    assert(v != u);
                    assert forall|x: int| 0 <= x < n && (#[trigger] dist@[x]) is Some && x != v
                        implies exists|k: nat| #[trigger] walk_weight(edges@, source as int, x, k, dist@[x]->0 as int) by {
                        assert(dist@[x] == db[x]);
                    }
                    assert(walk_weight(edges@, source as int, v as int, ku + 1, dist@[v as int]->0 as int));
                    assert forall|x: int| 0 <= x < n && (#[trigger] dist@[x]) is Some && !done.contains(x) && x != u
                        implies exists|i: int| 0 <= i < heap@.len() && heap@[i] == (dist@[x]->0, x as usize) by {
                        if x == v {
                            assert(heap@[heap@.len() - 1] == (nd, v));
                        } else {
                            let i = choose|i: int| 0 <= i < hb.len() && hb[i] == (db[x]->0, x as usize);
                            assert(heap@[i] == hb[i]);
                        }
                    }
                    assert forall|i: int, j: int| 0 <= i < heap@.len() && 0 <= j < heap@.len() && i != j
                        && (#[trigger] heap@[i]).1 == (#[trigger] heap@[j]).1
                        && heap@[i].0 == dist@[heap@[i].1 as int]->0
                        implies heap@[j].0 != heap@[i].0 by {
                        if heap@[i].1 == v {
                            if i == hb.len() {
                                assert(hb[j].0 >= db[v as int]->0);
                            } else if j == hb.len() {
                                assert(hb[i].0 >= db[v as int]->0);
                            } else {
                                assert(hb[i].0 >= db[v as int]->0);
                            }
                        } else {
                            if i < hb.len() && j < hb.len() {
                            } else if i == hb.len() {
                            } else {
                            }
                        }
                    }
                    assert forall|x: int| #[trigger] done.contains(x) implies 0 <= x < n
                        && dist@[x] is Some
                        && dist@[x]->0 <= level
                        && (forall|i: int| 0 <= i < heap@.len() ==> #[trigger] heap@[i] != (dist@[x]->0, x as usize))
                        && (forall|b: int| 0 <= b < adjacency@[x]@.len() ==>
                            dist@[(#[trigger] adjacency@[x]@[b]).0 as int] is Some
                            && dist@[adjacency@[x]@[b].0 as int]->0 <= dist@[x]->0 + adjacency@[x]@[b].1) by {
                        assert(x != v);
                        assert forall|i: int| 0 <= i < heap@.len() implies #[trigger] heap@[i] != (dist@[x]->0, x as usize) by {
                            if i < hb.len() {
                                assert(heap@[i] == hb[i]);
                            }
                        }
                    }
                }
            }
            t = t + 1;
        }
        proof {
            let new_done = done.insert(u as int);
            assert forall|x: int| #[trigger] new_done.contains(x) implies 0 <= x < n
                && dist@[x] is Some
                && dist@[x]->0 <= level
                && (forall|i: int| 0 <= i < heap@.len() ==> #[trigger] heap@[i] != (dist@[x]->0, x as usize))
                && (forall|b: int| 0 <= b < adjacency@[x]@.len() ==>
                    dist@[(#[trigger] adjacency@[x]@[b]).0 as int] is Some
                    && dist@[adjacency@[x]@[b].0 as int]->0 <= dist@[x]->0 + adjacency@[x]@[b].1) by {
                if x == u as int {
                    assert forall|b: int| 0 <= b < adjacency@[x]@.len() implies
                        dist@[(#[trigger] adjacency@[x]@[b]).0 as int] is Some
                        && dist@[adjacency@[x]@[b].0 as int]->0 <= dist@[x]->0 + adjacency@[x]@[b].1 by {
                        assert(row@[b] == adjacency@[x]@[b]);
                    }
                }
            }
            done = new_done;
        }
    }
    proof {
        assert forall|i: int| 0 <= i < edges@.len() && (#[trigger] dist@[edges@[i].src as int]) is Some
            implies dist@[edges@[i].dst as int] is Some
                && dist@[edges@[i].dst as int]->0 <= dist@[edges@[i].src as int]->0 + edges@[i].weight by {
            let s = edges@[i].src as int;
            assert(edges@[i].src < n);
            assert(done.contains(s));
            let t = choose|t: int| 0 <= t < adjacency@[s]@.len()
                && adjacency@[s]@[t] == (edges@[i].dst, edges@[i].weight);
            assert(dist@[adjacency@[s]@[t].0 as int] is Some);
        }
        lemma_feasible_walks_are_shortest(edges@, source as int, dist@);
    }
    dist
}

} // verus!
