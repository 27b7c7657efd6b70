use vstd::prelude::*;
use vstd::set_lib::{lemma_len_subset, set_int_range, lemma_int_range};
use crate::algorithms::dijkstra::{Edge, max_weight, has_edge, walk_weight, is_shortest_distance, no_edge_relaxes, distances_are_walks, lemma_walk_step, lemma_feasible_walks_are_shortest, no_walk};

verus! {

/// The edge `(u, v, w)` as an [`Edge`].
pub open spec fn triple_edge(e: (u32, u32, u32)) -> Edge {
    Edge { src: e.0 as usize, dst: e.1 as usize, weight: e.2 }
}

/// The edge list `(u, v, w)` as [`Edge`]s.
pub open spec fn triple_edges(t: Seq<(u32, u32, u32)>) -> Seq<Edge> {
    t.map_values(|e: (u32, u32, u32)| triple_edge(e))
}

/// Every edge joins two vertices below `n`.
pub open spec fn triples_in_range(t: Seq<(u32, u32, u32)>, n: int) -> bool {
    forall|i: int| 0 <= i < t.len() ==> (#[trigger] t[i]).0 < n && t[i].1 < n
}

/// Walks never weigh less than zero.
pub proof fn lemma_walk_nonneg(edges: Seq<Edge>, s: int, v: int, k: nat, w: int)
    requires
        walk_weight(edges, s, v, k, w),
    ensures
        w >= 0,
    decreases k,
{
    if k > 0 {
        let (u, x) = choose|u: int, x: int| #[trigger] has_edge(edges, u, v, x)
            && walk_weight(edges, s, u, (k - 1) as nat, w - x);
        lemma_walk_nonneg(edges, s, u, (k - 1) as nat, w - x);
        let i = choose|i: int| 0 <= i < edges.len() && #[trigger] edges[i].src == u && edges[i].dst == v
            && edges[i].weight == x;
    }
}

/// A vertex with a walk has a lightest walk.
pub proof fn lemma_lightest_walk(edges: Seq<Edge>, s: int, v: int, k: nat, w: int) -> (r: (nat, int))
    requires
        walk_weight(edges, s, v, k, w),
    ensures
        walk_weight(edges, s, v, r.0, r.1),
        r.1 <= w,
        forall|k2: nat, w2: int| #[trigger] walk_weight(edges, s, v, k2, w2) ==> r.1 <= w2,
    decreases w,
{
    lemma_walk_nonneg(edges, s, v, k, w);
    if forall|k2: nat, w2: int| #[trigger] walk_weight(edges, s, v, k2, w2) ==> w <= w2 {
        (k, w)
    } else {
        let (k2, w2) = choose|k2: nat, w2: int| #[trigger] walk_weight(edges, s, v, k2, w2) && w2 < w;
        lemma_walk_nonneg(edges, s, v, k2, w2);
        lemma_lightest_walk(edges, s, v, k2, w2)
    }
}

/// The start is at distance zero from itself.
pub proof fn lemma_source_shortest(edges: Seq<Edge>, s: int)
    ensures
        is_shortest_distance(edges, s, s, Some(0u64)),
{
    let z: u64 = 0;
    assert(walk_weight(edges, s, s, 0, z as int));
    assert(exists|k: nat| #[trigger] walk_weight(edges, s, s, k, z as int));
    assert forall|k: nat, w: int| #[trigger] walk_weight(edges, s, s, k, w) implies z <= w by {
        lemma_walk_nonneg(edges, s, s, k, w);
    }
    assert(is_shortest_distance(edges, s, s, Some(z)));
}

/// The table is exact at `v`.
pub open spec fn exact_at(edges: Seq<Edge>, s: int, dist: Seq<Option<u64>>, v: int) -> bool {
    is_shortest_distance(edges, s, v, dist[v])
}

/// Vertices below `n` at which the table is exact.
pub open spec fn exact_set(edges: Seq<Edge>, s: int, dist: Seq<Option<u64>>, n: int) -> Set<int> {
    set_int_range(0, n).filter(|v: int| exact_at(edges, s, dist, v))
}

/// Vertices below `n` with a finite entry.
pub open spec fn some_set(dist: Seq<Option<u64>>, n: int) -> Set<int> {
    set_int_range(0, n).filter(|v: int| dist[v] is Some)
}

/// A table of walk weights that is not exact somewhere has a vertex `v`, not
/// exact, reached by an edge `i` from a vertex that is exact, with the
/// distance through that edge the true distance of `v`.
proof fn lemma_frontier(
    edges: Seq<Edge>,
    s: int,
    dist: Seq<Option<u64>>,
    v: int,
    h: nat,
    d: int,
) -> (r: (int, int))
    requires
        0 <= s < dist.len(),
        dist[s] == Some(0u64),
        0 <= v < dist.len(),
        forall|i: int| 0 <= i < edges.len() ==> (#[trigger] edges[i]).src < dist.len() && edges[i].dst < dist.len(),
        distances_are_walks(edges, s, dist),
        !exact_at(edges, s, dist, v),
        walk_weight(edges, s, v, h, d),
        forall|k2: nat, w2: int| #[trigger] walk_weight(edges, s, v, k2, w2) ==> d <= w2,
    ensures
        0 <= r.0 < dist.len(),
        0 <= r.1 < edges.len(),
        !exact_at(edges, s, dist, r.0),
        edges[r.1].dst == r.0,
        exact_at(edges, s, dist, edges[r.1].src as int),
        dist[edges[r.1].src as int] is Some,
        forall|k2: nat, w2: int| #[trigger] walk_weight(edges, s, r.0, k2, w2)
            ==> dist[edges[r.1].src as int]->0 + edges[r.1].weight <= w2,
    decreases d, h,
{
    lemma_walk_nonneg(edges, s, v, h, d);
    if h == 0 {
        lemma_source_shortest(edges, s);
        assert(false);
    }
    let (u, x) = choose|u: int, x: int| #[trigger] has_edge(edges, u, v, x)
        && walk_weight(edges, s, u, (h - 1) as nat, d - x);
    let i = choose|i: int| 0 <= i < edges.len() && #[trigger] edges[i].src == u && edges[i].dst == v
        && edges[i].weight == x;
    lemma_walk_nonneg(edges, s, u, (h - 1) as nat, d - x);
    // every walk to `u` extends to `v`, so `d - x` is the least weight to `u`
    assert forall|k2: nat, w2: int| #[trigger] walk_weight(edges, s, u, k2, w2) implies d - x <= w2 by {
        lemma_walk_step(edges, s, u, v, k2, w2, x);
    }
    if exact_at(edges, s, dist, u) {
        assert(dist[u] is Some);
        (v, i)
    } else {
        lemma_frontier(edges, s, dist, u, (h - 1) as nat, d - x)
    }
}

/// Sets of vertices below `n` are finite and no larger than `n`.
proof fn lemma_range_subset_len(a: Set<int>, n: int)
    requires
        0 <= n,
        a.subset_of(set_int_range(0, n)),
    ensures
        a.finite(),
        a.len() <= n,
{
    lemma_int_range(0, n);
    lemma_len_subset(a, set_int_range(0, n));
}

/// A vertex at which a table of walk weights is not exact has a lightest walk.
proof fn lemma_not_exact_has_walk(edges: Seq<Edge>, s: int, dist: Seq<Option<u64>>, v: int) -> (r: (nat, int))
    requires
        0 <= v < dist.len(),
        distances_are_walks(edges, s, dist),
        !exact_at(edges, s, dist, v),
    ensures
        walk_weight(edges, s, v, r.0, r.1),
        forall|k2: nat, w2: int| #[trigger] walk_weight(edges, s, v, k2, w2) ==> r.1 <= w2,
{
    match dist[v] {
        Some(x) => {
            let k = choose|k: nat| #[trigger] walk_weight(edges, s, v, k, x as int);
            lemma_lightest_walk(edges, s, v, k, x as int)
        },
        None => {
            let (k, w) = choose|k: nat, w: int| #[trigger] walk_weight(edges, s, v, k, w);
            lemma_lightest_walk(edges, s, v, k, w)
        },
    }
}

/// Single-source shortest paths by Bellman–Ford relaxation rounds, stopping
/// early after a round that changes nothing.
///
/// `edges` holds `(u, v, w)` triples. The source and every endpoint must be
/// vertices below `n`, and `n` times the largest weight must fit in a `u64`.
pub fn bellman_ford(n: usize, source: usize, edges: &[(u32, u32, u32)]) -> (dist: Vec<Option<u64>>)
    requires
        source < n,
        triples_in_range(edges@, n as int),
        n * max_weight() <= u64::MAX,
    ensures
        dist@.len() == n,
        forall|v: int| 0 <= v < n ==> is_shortest_distance(triple_edges(edges@), source as int, v, #[trigger] dist@[v]),
{
    let ghost es = triple_edges(edges@);
    let ghost s = source as int;
    let mut dist: Vec<Option<u64>> = Vec::new();
    while dist.len() < n
        invariant
            dist@.len() <= n,
            forall|v: int| 0 <= v < dist@.len() ==> dist@[v] is None,
        decreases n - dist@.len(),
    {
        dist.push(None);
    }
    let ghost all_none = dist@;
    dist.set(source, Some(0));
    proof {
        assert forall|i: int| 0 <= i < es.len() implies (#[trigger] es[i]).src < n && es[i].dst < n by {
            assert(es[i] == triple_edge(edges@[i]));
        }
        lemma_source_shortest(es, s);
        assert forall|v: int| 0 <= v < dist@.len() && (#[trigger] dist@[v]) is Some
            implies exists|k: nat| #[trigger] walk_weight(es, s, v, k, dist@[v]->0 as int) by {
            if v != s {
                assert(dist@[v] == all_none[v]);
            }
            assert(walk_weight(es, s, v, 0, dist@[v]->0 as int));
        }
        assert(some_set(dist@, n as int) =~= set![s]);
        assert(exact_set(es, s, dist@, n as int).contains(s));
        lemma_range_subset_len(exact_set(es, s, dist@, n as int), n as int);
        assert(set![s].subset_of(exact_set(es, s, dist@, n as int)));
        lemma_len_subset(set![s], exact_set(es, s, dist@, n as int));
        assert(set![s].len() == 1);
    }
    let mut round: usize = 0;
    while round < n
        invariant_except_break
            dist@.len() == n,
            source < n,
            s == source,
            es == triple_edges(edges@),
            n * max_weight() <= u64::MAX,
            forall|i: int| 0 <= i < es.len() ==> (#[trigger] es[i]).src < n && es[i].dst < n,
            dist@[s] == Some(0u64),
            distances_are_walks(es, s, dist@),
            some_set(dist@, n as int).len() >= 1,
            forall|v: int| 0 <= v < n && (#[trigger] dist@[v]) is Some
                ==> dist@[v]->0 <= (some_set(dist@, n as int).len() - 1) * max_weight(),
            0 <= round <= n,
            (forall|v: int| 0 <= v < n ==> #[trigger] exact_at(es, s, dist@, v))
                || exact_set(es, s, dist@, n as int).len() >= round + 1,
            exact_set(es, s, dist@, n as int).len() <= n,
        ensures
            dist@.len() == n,
            forall|v: int| 0 <= v < n ==> #[trigger] exact_at(es, s, dist@, v),
        decreases n - round,
    {
        let ghost start = dist@;
        let ghost target: (int, int) = if forall|v: int| 0 <= v < n ==> #[trigger] exact_at(es, s, start, v) {
            (-1, -1)
        } else {
            let v = choose|v: int| 0 <= v < n && !#[trigger] exact_at(es, s, start, v);
            let (h, d) = lemma_not_exact_has_walk(es, s, start, v);
            lemma_frontier(es, s, start, v, h, d)
        };
        let mut changed = false;
        let mut j: usize = 0;
        while j < edges.len()
            invariant
                dist@.len() == n,
                source < n,
                s == source,
                es == triple_edges(edges@),
                n * max_weight() <= u64::MAX,
                forall|i: int| 0 <= i < es.len() ==> (#[trigger] es[i]).src < n && es[i].dst < n,
                dist@[s] == Some(0u64),
                distances_are_walks(es, s, dist@),
                distances_are_walks(es, s, start),
                start.len() == n,
                some_set(dist@, n as int).len() >= 1,
                forall|v: int| 0 <= v < n && (#[trigger] dist@[v]) is Some
                    ==> dist@[v]->0 <= (some_set(dist@, n as int).len() - 1) * max_weight(),
                0 <= j <= es.len(),
                !changed ==> dist@ == start,
                !changed ==> forall|i: int| 0 <= i < j && (#[trigger] start[es[i].src as int]) is Some
                    ==> start[es[i].dst as int] is Some
                        && start[es[i].dst as int]->0 <= start[es[i].src as int]->0 + es[i].weight,
                forall|v: int| 0 <= v < n && #[trigger] exact_at(es, s, start, v) ==> dist@[v] == start[v],
                target.0 >= 0 ==> {
                    &&& 0 <= target.0 < n
                    &&& 0 <= target.1 < es.len()
                    &&& !exact_at(es, s, start, target.0)
                    &&& es[target.1].dst == target.0
                    &&& exact_at(es, s, start, es[target.1].src as int)
                    &&& start[es[target.1].src as int] is Some
                    &&& forall|k2: nat, w2: int| #[trigger] walk_weight(es, s, target.0, k2, w2)
                        ==> start[es[target.1].src as int]->0 + es[target.1].weight <= w2
                },
                target.0 >= 0 && j > target.1 ==> exact_at(es, s, dist@, target.0),
            decreases es.len() - j,
        {
            let (u32u, u32v, w) = edges[j];
            let u = u32u as usize;
            let v = u32v as usize;
            proof {
                assert(es[j as int] == triple_edge(edges@[j as int]));
            }
            if let Some(du) = dist[u] {
                proof {
                    assert(some_set(dist@, n as int).contains(u as int));
                    lemma_range_subset_len(some_set(dist@, n as int), n as int);
                    assert((some_set(dist@, n as int).len() - 1) * max_weight() + max_weight()
                        <= n * max_weight()) by (nonlinear_arith)
                        requires some_set(dist@, n as int).len() <= n;
                }
                let nd = du + w as u64;
                let improves = match dist[v] {
                    None => true,
                    Some(c) => nd < c,
                };
                if improves {
                    let ghost before = dist@;
                    let ghost ku: nat = choose|k: nat| #[trigger] walk_weight(es, s, u as int, k, du as int);
                    proof {
                        assert(has_edge(es, u as int, v as int, w as int));
                        lemma_walk_step(es, s, u as int, v as int, ku, du as int, w as int);
                        // a vertex exact at the start of the round is never improved
                        if exact_at(es, s, start, v as int) {
                            assert(dist@[v as int] == start[v as int]);
                            assert(false);
                        }
                    }
                    dist.set(v, Some(nd));
                    changed = true;
                    proof {
                        assert(walk_weight(es, s, v as int, ku + 1, dist@[v as int]->0 as int));
                        assert forall|x: int| 0 <= x < dist@.len() && (#[trigger] dist@[x]) is Some
                            implies exists|k: nat| #[trigger] walk_weight(es, s, x, k, dist@[x]->0 as int) by {
                            if x != v {
                                assert(dist@[x] == before[x]);
                            }
                        }
                        if before[v as int] is None {
                            assert(some_set(dist@, n as int) =~= some_set(before, n as int).insert(v as int));
                            lemma_range_subset_len(some_set(before, n as int), n as int);
                        } else {
                            assert(some_set(dist@, n as int) =~= some_set(before, n as int));
                        }
                        if target.0 >= 0 && j >= target.1 {
                            if v as int == target.0 {
                                let tu = es[target.1].src as int;
                                if j == target.1 {
                                    assert(dist@[v as int]->0 <= start[tu]->0 + es[target.1].weight);
                                }
                            }
                        }
                        assert forall|x: int| 0 <= x < n && #[trigger] exact_at(es, s, start, x)
                            implies dist@[x] == start[x] by {
                            if x == v {
                                assert(false);
                            }
                        }
                        if target.0 >= 0 && j > target.1 && v as int == target.0 {
                            assert(exact_at(es, s, before, target.0));
                            assert(false);
                        }
                    }
                } else {
                    proof {
                        if target.0 >= 0 && j == target.1 {
                            let tu = es[target.1].src as int;
                            assert(dist@[tu] == start[tu]);
                            assert(exact_at(es, s, dist@, target.0));
                        }
                    }
                }
            } else {
                proof {
                    if target.0 >= 0 && j == target.1 {
                        let tu = es[target.1].src as int;
                        assert(dist@[tu] == start[tu]);
                    }
                }
            }
            j = j + 1;
        }
        if !changed {
            proof {
                assert(no_edge_relaxes(es, dist@));
                lemma_feasible_walks_are_shortest(es, s, dist@);
            }
            break;
        }
        proof {
            if !(forall|v: int| 0 <= v < n ==> #[trigger] exact_at(es, s, dist@, v)) {
                let old_set = exact_set(es, s, start, n as int);
                let new_set = exact_set(es, s, dist@, n as int);
                if forall|v: int| 0 <= v < n ==> #[trigger] exact_at(es, s, start, v) {
                    assert forall|v: int| 0 <= v < n implies #[trigger] exact_at(es, s, dist@, v) by {
                        assert(exact_at(es, s, start, v));
                        assert(dist@[v] == start[v]);
                    }
                }
                assert(old_set.insert(target.0).subset_of(new_set));
                lemma_range_subset_len(new_set, n as int);
                lemma_range_subset_len(old_set, n as int);
                lemma_len_subset(old_set.insert(target.0), new_set);
            }
            lemma_range_subset_len(exact_set(es, s, dist@, n as int), n as int);
        }
        round = round + 1;
    }
    proof {
        assert forall|v: int| 0 <= v < n implies
            is_shortest_distance(triple_edges(edges@), source as int, v, #[trigger] dist@[v]) by {
            assert(exact_at(es, s, dist@, v));
        }
    }
    dist
}

/// A vertex has one shortest-path distance.
pub proof fn lemma_shortest_distance_unique(edges: Seq<Edge>, s: int, v: int, d1: Option<u64>, d2: Option<u64>)
    requires
        is_shortest_distance(edges, s, v, d1),
        is_shortest_distance(edges, s, v, d2),
    ensures
        d1 == d2,
{
    match (d1, d2) {
        (Some(x), Some(y)) => {
            let k = choose|k: nat| #[trigger] walk_weight(edges, s, v, k, x as int);
            let j = choose|k: nat| #[trigger] walk_weight(edges, s, v, k, y as int);
            assert(x <= y && y <= x);
        },
        (Some(x), None) => {
            let k = choose|k: nat| #[trigger] walk_weight(edges, s, v, k, x as int);
        },
        (None, Some(y)) => {
            let k = choose|k: nat| #[trigger] walk_weight(edges, s, v, k, y as int);
        },
        (None, None) => {},
    }
}

/// Dijkstra and Bellman–Ford agree: two tables of shortest-path distances
/// over the same edges from the same source are equal.
pub proof fn lemma_dijkstra_agrees_with_bellman_ford(
    edges: Seq<(u32, u32, u32)>,
    source: int,
    n: int,
    by_dijkstra: Seq<Option<u64>>,
    by_bellman_ford: Seq<Option<u64>>,
)
    requires
        by_dijkstra.len() == n,
        by_bellman_ford.len() == n,
        forall|v: int| 0 <= v < n ==> is_shortest_distance(triple_edges(edges), source, v, #[trigger] by_dijkstra[v]),
        forall|v: int| 0 <= v < n ==> is_shortest_distance(triple_edges(edges), source, v, #[trigger] by_bellman_ford[v]),
    ensures
        by_dijkstra == by_bellman_ford,
{
    assert forall|v: int| 0 <= v < n implies by_dijkstra[v] == by_bellman_ford[v] by {
        lemma_shortest_distance_unique(triple_edges(edges), source, v, by_dijkstra[v], by_bellman_ford[v]);
    }
    assert(by_dijkstra =~= by_bellman_ford);
}

/// Dijkstra's algorithm and Bellman–Ford agree: on a graph whose edges are
/// the triples `tuples`, with the source below `n`, any two distance lists
/// that meet their contracts are equal, have length `n`, hold `Some(0)` at
/// the source, and hold `None` exactly at the vertices no walk reaches.
pub proof fn lemma_dijkstra_equals_bellman_ford(
    n: int,
    source: int,
    edges: Seq<Edge>,
    tuples: Seq<(u32, u32, u32)>,
    by_dijkstra: Seq<Option<u64>>,
    by_bellman_ford: Seq<Option<u64>>,
)
    requires
        0 <= source < n,
        edges == triple_edges(tuples),
        by_dijkstra.len() == n,
        forall|v: int| 0 <= v < n ==> is_shortest_distance(edges, source, v, #[trigger] by_dijkstra[v]),
        by_bellman_ford.len() == n,
        forall|v: int| 0 <= v < n ==> is_shortest_distance(triple_edges(tuples), source, v, #[trigger] by_bellman_ford[v]),
    ensures
        by_dijkstra == by_bellman_ford,
        by_dijkstra[source] == Some(0u64),
        forall|v: int| 0 <= v < n ==> (#[trigger] by_dijkstra[v] is None <==> no_walk(edges, source, v)),
{
    lemma_dijkstra_agrees_with_bellman_ford(tuples, source, n, by_dijkstra, by_bellman_ford);
    assert(walk_weight(edges, source, source, 0, 0));
    assert(is_shortest_distance(edges, source, source, by_dijkstra[source]));
    assert forall|v: int| 0 <= v < n implies (#[trigger] by_dijkstra[v] is None <==> no_walk(edges, source, v)) by {
        assert(is_shortest_distance(edges, source, v, by_dijkstra[v]));
        if by_dijkstra[v] is Some {
            let x = by_dijkstra[v]->0;
            let k = choose|k: nat| #[trigger] walk_weight(edges, source, v, k, x as int);
            assert(walk_weight(edges, source, v, k, x as int));
        }
    }
}

} // verus!
