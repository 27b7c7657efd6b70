use vstd::prelude::*;

verus! {

/// Every neighbour listed in `adj` is a vertex of the graph.
pub open spec fn neighbours_in_range(adj: Seq<Vec<usize>>) -> bool {
    forall|u: int, t: int| 0 <= u < adj.len() && 0 <= t < adj[u]@.len() ==> adj[u]@[t] < adj.len()
}

/// `v` is an out-neighbour of `u`.
pub open spec fn adj_edge(adj: Seq<Vec<usize>>, u: int, v: int) -> bool {
    0 <= u < adj.len() && exists|t: int| 0 <= t < adj[u]@.len() && adj[u]@[t] == v
}

/// There is a walk of exactly `k` edges from `s` to `v`.
pub open spec fn reaches_in(adj: Seq<Vec<usize>>, s: int, v: int, k: nat) -> bool
    decreases k,
{
    if k == 0 {
        v == s
    } else {
        exists|u: int| #[trigger] adj_edge(adj, u, v) && reaches_in(adj, s, u, (k - 1) as nat)
    }
}

/// `d` is the unweighted shortest-path distance from `s` to `v`: `Some(k)` when
/// the fewest edges on a walk from `s` to `v` is `k`, `None` when no walk exists.
pub open spec fn is_bfs_distance(adj: Seq<Vec<usize>>, s: int, v: int, d: Option<usize>) -> bool {
    match d {
        Some(k) => reaches_in(adj, s, v, k as nat) && forall|j: nat|
            j < k ==> !#[trigger] reaches_in(adj, s, v, j),
        None => forall|j: nat| !#[trigger] reaches_in(adj, s, v, j),
    }
}

/// Number of assigned (`Some`) entries.
pub open spec fn num_assigned(d: Seq<Option<usize>>) -> nat
    decreases d.len(),
{
    if d.len() == 0 {
        0
    } else {
        num_assigned(d.drop_last()) + if d.last() is Some { 1nat } else { 0nat }
    }
}

proof fn lemma_num_assigned_bound(d: Seq<Option<usize>>)
    ensures
        num_assigned(d) <= d.len(),
    decreases d.len(),
{
    if d.len() > 0 {
        lemma_num_assigned_bound(d.drop_last());
    }
}

proof fn lemma_num_assigned_none(d: Seq<Option<usize>>)
    requires
        forall|i: int| 0 <= i < d.len() ==> d[i] is None,
    ensures
        num_assigned(d) == 0,
    decreases d.len(),
{
    if d.len() > 0 {
        lemma_num_assigned_none(d.drop_last());
    }
}

proof fn lemma_num_assigned_update(d: Seq<Option<usize>>, i: int, x: usize)
    requires
        0 <= i < d.len(),
        d[i] is None,
    ensures
        num_assigned(d.update(i, Some(x))) == num_assigned(d) + 1,
    decreases d.len(),
{
    let e = d.update(i, Some(x));
    if i == d.len() - 1 {
        assert(e.drop_last() =~= d.drop_last());
    } else {
        assert(e.drop_last() =~= d.drop_last().update(i, Some(x)));
        lemma_num_assigned_update(d.drop_last(), i, x);
    }
}

/// Along any walk, a distance table that no edge can improve by more than
/// one bounds the walk length from below.
proof fn lemma_bfs_lower_bound(adj: Seq<Vec<usize>>, s: int, dist: Seq<Option<usize>>, v: int, k: nat)
    requires
        adj.len() == dist.len(),
        neighbours_in_range(adj),
        0 <= s < adj.len(),
        dist[s] == Some(0usize),
        forall|u: int, t: int| 0 <= u < adj.len() && 0 <= t < adj[u]@.len() && dist[u] is Some
            ==> #[trigger] dist[adj[u]@[t] as int] is Some
                && dist[adj[u]@[t] as int]->0 <= dist[u]->0 + 1,
        reaches_in(adj, s, v, k),
    ensures
        0 <= v < adj.len(),
        dist[v] is Some,
        dist[v]->0 <= k,
    decreases k,
{
    if k > 0 {
        let u = choose|u: int| #[trigger] adj_edge(adj, u, v) && reaches_in(adj, s, u, (k - 1) as nat);
        lemma_bfs_lower_bound(adj, s, dist, u, (k - 1) as nat);
        let t = choose|t: int| 0 <= t < adj[u]@.len() && adj[u]@[t] == v;
        assert(dist[adj[u]@[t] as int] is Some);
    }
}

/// No vertex of the graph is reachable from a start outside it.
proof fn lemma_no_reach_from_outside(adj: Seq<Vec<usize>>, s: int, v: int, k: nat)
    requires
        neighbours_in_range(adj),
        s >= adj.len(),
        0 <= v < adj.len(),
    ensures
        !reaches_in(adj, s, v, k),
    decreases k,
{
    if k > 0 {
        assert forall|u: int| #[trigger] adj_edge(adj, u, v) implies !reaches_in(adj, s, u, (k - 1) as nat) by {
            lemma_no_reach_from_outside(adj, s, u, (k - 1) as nat);
        }
    }
}

/// Extending a walk to `u` by the edge `u -> adj[u][t]`.
pub(crate) proof fn lemma_reach_step(adj: Seq<Vec<usize>>, s: int, u: int, t: int, k: nat)
    requires
        0 <= u < adj.len(),
        0 <= t < adj[u]@.len(),
        reaches_in(adj, s, u, k),
    ensures
        reaches_in(adj, s, adj[u]@[t] as int, k + 1),
{
    assert(adj_edge(adj, u, adj[u]@[t] as int));
    assert(reaches_in(adj, s, adj[u]@[t] as int, k + 1));
}

/// A vector of `n` unassigned distances.
pub fn none_vec(n: usize) -> (out: Vec<Option<usize>>)
    ensures
        out.len() == n,
        forall|i: int| 0 <= i < n ==> out[i] is None,
{
    let mut out: Vec<Option<usize>> = Vec::new();
    while out.len() < n
        invariant
            out.len() <= n,
            forall|i: int| 0 <= i < out.len() ==> out[i] is None,
        decreases n - out.len(),
    {
        out.push(None);
    }
    out
}

/// Breadth-first shortest-path-length computation.
///
/// `adj[v]` is the list of out-neighbors of `v`. Returns a vector `dist` of
/// length `adj.len()` where `dist[v]` is `Some(k)` if `v` is reachable from
/// `source` in exactly `k` edges along a shortest path, or `None` if
/// unreachable.
pub fn bfs_shortest_path(adj: &[Vec<usize>], source: usize) -> (dist: Vec<Option<usize>>)
    requires
        neighbours_in_range(adj@),
    ensures
        dist.len() == adj.len(),
        forall|v: int| 0 <= v < adj.len() ==> is_bfs_distance(adj@, source as int, v, #[trigger] dist[v]),
{
    let n = adj.len();
    let mut dist = none_vec(n);
    if source >= n {
        proof {
            assert forall|v: int| 0 <= v < adj.len() implies is_bfs_distance(adj@, source as int, v, #[trigger] dist[v]) by {
                assert forall|j: nat| !#[trigger] reaches_in(adj@, source as int, v, j) by {
                    lemma_no_reach_from_outside(adj@, source as int, v, j);
                }
            }
        }
        return dist;
    }
    proof {
        lemma_num_assigned_none(dist@);
        lemma_num_assigned_update(dist@, source as int, 0);
    }
    dist.set(source, Some(0));
    let mut q: Vec<usize> = Vec::new();
    q.push(source);
    let mut head: usize = 0;
    while head < q.len()
        invariant
            n == adj.len(),
            dist.len() == n,
            neighbours_in_range(adj@),
            0 <= source < n,
            dist[source as int] == Some(0usize),
            head <= q.len(),
            q.len() == num_assigned(dist@),
            forall|i: int| 0 <= i < q.len() ==> q[i] < n && #[trigger] dist[q[i] as int] is Some
                && dist[q[i] as int]->0 <= i,
            forall|v: int| 0 <= v < n && #[trigger] dist[v] is Some ==> exists|i: int| 0 <= i < q.len() && q[i] == v,
            forall|i: int, j: int| 0 <= i <= j < q.len() ==> dist[q[i] as int]->0 <= dist[q[j] as int]->0,
            head < q.len() ==> forall|j: int| head <= j < q.len() ==> dist[q[j] as int]->0 <= dist[q[head as int] as int]->0 + 1,
            forall|i: int, t: int| 0 <= i < head && 0 <= t < adj[q[i] as int]@.len() ==>
                #[trigger] dist[adj[q[i] as int]@[t] as int] is Some
                && dist[adj[q[i] as int]@[t] as int]->0 <= dist[q[i] as int]->0 + 1,
            forall|v: int| 0 <= v < n && #[trigger] dist[v] is Some ==> reaches_in(adj@, source as int, v, dist[v]->0 as nat),
        decreases n - head,
    {
        proof { lemma_num_assigned_bound(dist@); }
        let u = q[head];
        let du = match dist[u] { Some(d) => d, None => 0 };
        assert(du <= head);
        let ghost q0 = q@;
        let ghost d0 = dist@;
        let mut t: usize = 0;
        while t < adj[u].len()
            invariant
                n == adj.len(),
                dist.len() == n,
                neighbours_in_range(adj@),
                0 <= source < n,
                dist[source as int] == Some(0usize),
                head < q.len(),
                q[head as int] == u,
                u < n,
                dist[u as int] == Some(du),
                du <= head,
                q.len() == num_assigned(dist@),
                q.len() <= n,
                q0.len() <= q.len(),
                forall|i: int| 0 <= i < q0.len() ==> q[i] == q0[i],
                forall|v: int| 0 <= v < n && d0[v] is Some ==> dist[v] == d0[v],
                forall|j: int| q0.len() <= j < q.len() ==> #[trigger] dist[q[j] as int] == Some((du + 1) as usize),
                forall|i: int| 0 <= i < q.len() ==> q[i] < n && #[trigger] dist[q[i] as int] is Some
                    && dist[q[i] as int]->0 <= i,
                forall|v: int| 0 <= v < n && #[trigger] dist[v] is Some ==> exists|i: int| 0 <= i < q.len() && q[i] == v,
                forall|i: int, j: int| 0 <= i <= j < q.len() ==> dist[q[i] as int]->0 <= dist[q[j] as int]->0,
                forall|j: int| head <= j < q.len() ==> dist[q[j] as int]->0 <= du + 1,
                forall|i: int, t2: int| 0 <= i < head && 0 <= t2 < adj[q[i] as int]@.len() ==>
                    #[trigger] dist[adj[q[i] as int]@[t2] as int] is Some
                    && dist[adj[q[i] as int]@[t2] as int]->0 <= dist[q[i] as int]->0 + 1,
                0 <= t <= adj[u as int]@.len(),
                forall|t2: int| 0 <= t2 < t ==> #[trigger] dist[adj[u as int]@[t2] as int] is Some
                    && dist[adj[u as int]@[t2] as int]->0 <= du + 1,
                forall|v: int| 0 <= v < n && #[trigger] dist[v] is Some ==> reaches_in(adj@, source as int, v, dist[v]->0 as nat),
            decreases adj[u as int]@.len() - t,
        {
            let v = adj[u][t];
            if dist[v].is_none() {
                proof {
                    lemma_num_assigned_update(dist@, v as int, (du + 1) as usize);
                    lemma_num_assigned_bound(dist@.update(v as int, Some((du + 1) as usize)));
                    lemma_reach_step(adj@, source as int, u as int, t as int, du as nat);
                }
                let ghost qb = q@;
                let ghost db = dist@;
                dist.set(v, Some(du + 1));
                q.push(v);
                proof {
                    assert(q[q.len() - 1] == v);
                    assert forall|w: int| 0 <= w < n && #[trigger] dist[w] is Some implies exists|i: int| 0 <= i < q.len() && q[i] == w by {
                        if w == v {
                            assert(q[q.len() - 1] == v);
                        } else {
                            assert(db[w] is Some);
                            let i = choose|i: int| 0 <= i < qb.len() && qb[i] == w;
                            assert(q[i] == w);
                        }
                    }
                }
            }
            t = t + 1;
        }
        head = head + 1;
    }
    proof {
        assert forall|u: int, t: int| 0 <= u < adj.len() && 0 <= t < adj[u]@.len() && dist[u] is Some
            implies #[trigger] dist[adj[u]@[t] as int] is Some
                && dist[adj[u]@[t] as int]->0 <= dist[u]->0 + 1 by {
            let i = choose|i: int| 0 <= i < q.len() && q[i] == u;
        }
        assert forall|v: int| 0 <= v < adj.len() implies is_bfs_distance(adj@, source as int, v, #[trigger] dist[v]) by {
            assert forall|j: nat| #[trigger] reaches_in(adj@, source as int, v, j) implies dist[v] is Some && dist[v]->0 <= j by {
                lemma_bfs_lower_bound(adj@, source as int, dist@, v, j);
            }
        }
    }
    dist
}

} // verus!
