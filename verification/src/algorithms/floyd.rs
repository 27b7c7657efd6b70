//! All-pairs shortest walk lengths by Floyd–Warshall on an unweighted graph,
//! read off for one source: an independent oracle for breadth-first search.

use vstd::prelude::*;
use vstd::set_lib::*;
use crate::algorithms::graph::{adj_edge, reaches_in, is_bfs_distance, lemma_reach_step};

verus! {

/// Table entry that stands for "no walk found".
pub open spec fn no_walk_mark() -> int {
    (usize::MAX / 4) as int
}

/// Entry `(i, j)` of a table stored as rows.
pub open spec fn entry(m: Seq<Vec<usize>>, i: int, j: int) -> int {
    m[i]@[j] as int
}

/// `m` has `n` rows of `n` entries.
pub open spec fn is_square(m: Seq<Vec<usize>>, n: int) -> bool {
    &&& m.len() == n
    &&& forall|i: int| 0 <= i < n ==> #[trigger] m[i]@.len() == n
}

/// What the distance table holds once every vertex below `k` has served as
/// an intermediate: entries are bounded by the sentinel, the diagonal is
/// zero, each edge costs at most one, each finite entry is the length of an
/// actual walk, and no detour through a vertex below `k` is shorter.
pub open spec fn fw_table(adj: Seq<Vec<usize>>, m: Seq<Vec<usize>>, k: int) -> bool {
    let n = adj.len() as int;
    &&& is_square(m, n)
    &&& forall|i: int, j: int| 0 <= i < n && 0 <= j < n ==> #[trigger] entry(m, i, j) <= no_walk_mark()
    &&& forall|i: int| 0 <= i < n ==> #[trigger] entry(m, i, i) == 0
    &&& forall|u: int, t: int|
        0 <= u < n && 0 <= t < adj[u]@.len() && adj[u]@[t] < n
            ==> #[trigger] entry(m, u, adj[u]@[t] as int) <= 1
    &&& forall|i: int, j: int|
        0 <= i < n && 0 <= j < n && #[trigger] entry(m, i, j) < no_walk_mark()
            ==> reaches_in(adj, i, j, entry(m, i, j) as nat)
    &&& forall|i: int, j: int, l: int|
        0 <= i < n && 0 <= j < n && 0 <= l < k
            ==> entry(m, i, j) <= #[trigger] entry(m, i, l) + #[trigger] entry(m, l, j)
}

/// Entry `(i, j)` after relaxing through vertex `k`.
pub open spec fn relaxed(m: Seq<Vec<usize>>, k: int, i: int, j: int) -> int {
    let via = entry(m, i, k) + entry(m, k, j);
    if via < entry(m, i, j) {
        via
    } else {
        entry(m, i, j)
    }
}

/// A walk `i ~> k` followed by a walk `k ~> j` is a walk `i ~> j`.
proof fn lemma_reach_concat(adj: Seq<Vec<usize>>, i: int, k: int, j: int, a: nat, b: nat)
    requires
        reaches_in(adj, i, k, a),
        reaches_in(adj, k, j, b),
    ensures
        reaches_in(adj, i, j, a + b),
    decreases b,
{
    if b > 0 {
        let u = choose|u: int| #[trigger] adj_edge(adj, u, j) && reaches_in(adj, k, u, (b - 1) as nat);
        lemma_reach_concat(adj, i, k, u, a, (b - 1) as nat);
        assert(adj_edge(adj, u, j) && reaches_in(adj, i, u, (a + b - 1) as nat));
    }
}

/// One round of relaxation through `k` keeps the table's properties and adds
/// `k` to the vertices that no detour can beat.
proof fn lemma_fw_round(adj: Seq<Vec<usize>>, m0: Seq<Vec<usize>>, m1: Seq<Vec<usize>>, k: int)
    requires
        0 <= k < adj.len(),
        fw_table(adj, m0, k),
        is_square(m1, adj.len() as int),
        forall|i: int, j: int|
            0 <= i < adj.len() && 0 <= j < adj.len() ==> #[trigger] entry(m1, i, j) == relaxed(m0, k, i, j),
    ensures
        fw_table(adj, m1, k + 1),
{
    let n = adj.len() as int;
    assert forall|i: int, j: int| 0 <= i < n && 0 <= j < n implies #[trigger] entry(m1, i, j) <= no_walk_mark()
        && entry(m1, i, j) <= entry(m0, i, j) by {
        assert(entry(m0, i, j) <= no_walk_mark());
    }
    assert forall|i: int| 0 <= i < n implies #[trigger] entry(m1, i, i) == 0 by {
        assert(entry(m0, i, i) == 0);
        assert(entry(m1, i, i) == relaxed(m0, k, i, i));
    }
    assert forall|u: int, t: int|
        0 <= u < n && 0 <= t < adj[u]@.len() && adj[u]@[t] < n
            implies #[trigger] entry(m1, u, adj[u]@[t] as int) <= 1 by {
        let v = adj[u]@[t] as int;
        assert(entry(m0, u, v) <= 1);
        assert(entry(m1, u, v) == relaxed(m0, k, u, v));
    }
    assert forall|i: int, j: int|
        0 <= i < n && 0 <= j < n && #[trigger] entry(m1, i, j) < no_walk_mark()
            implies reaches_in(adj, i, j, entry(m1, i, j) as nat) by {
        assert(entry(m1, i, j) == relaxed(m0, k, i, j));
        assert(entry(m0, i, j) <= no_walk_mark());
        let via = entry(m0, i, k) + entry(m0, k, j);
        if via < entry(m0, i, j) {
            assert(entry(m0, i, k) < no_walk_mark());
            assert(entry(m0, k, j) < no_walk_mark());
            lemma_reach_concat(adj, i, k, j, entry(m0, i, k) as nat, entry(m0, k, j) as nat);
        }
    }
    assert forall|i: int, j: int, l: int| 0 <= i < n && 0 <= j < n && 0 <= l < k + 1
        implies entry(m1, i, j) <= #[trigger] entry(m1, i, l) + #[trigger] entry(m1, l, j) by {
        assert(entry(m0, k, k) == 0);
        assert(entry(m1, i, j) == relaxed(m0, k, i, j));
        assert(entry(m1, i, l) == relaxed(m0, k, i, l));
        assert(entry(m1, l, j) == relaxed(m0, k, l, j));
        assert(entry(m0, i, k) >= 0 && entry(m0, k, j) >= 0 && entry(m0, k, l) >= 0 && entry(m0, l, k) >= 0);
        if l < k {
            assert(entry(m0, i, j) <= entry(m0, i, l) + entry(m0, l, j));
            assert(entry(m0, k, j) <= entry(m0, k, l) + entry(m0, l, j));
            assert(entry(m0, i, k) <= entry(m0, i, l) + entry(m0, l, k));
        }
    }
}

/// Vertices reachable from `s` by a walk of at most `k` edges.
pub open spec fn reach_set(adj: Seq<Vec<usize>>, s: int, k: nat) -> Set<int> {
    Set::new(|v: int| 0 <= v < adj.len() && exists|j: nat| j <= k && #[trigger] reaches_in(adj, s, v, j))
}

/// The reach sets are finite and bounded by the number of vertices.
proof fn lemma_reach_set_finite(adj: Seq<Vec<usize>>, s: int, k: nat)
    ensures
        reach_set(adj, s, k).finite(),
        reach_set(adj, s, k).len() <= adj.len(),
{
    lemma_int_range(0, adj.len() as int);
    assert(reach_set(adj, s, k).subset_of(set_int_range(0, adj.len() as int)));
    lemma_len_subset(reach_set(adj, s, k), set_int_range(0, adj.len() as int));
}

/// Once one more edge adds no vertex, no number of further edges does.
proof fn lemma_reach_set_stable(adj: Seq<Vec<usize>>, s: int, k: nat, m: nat)
    requires
        reach_set(adj, s, k) == reach_set(adj, s, k + 1),
        k <= m,
    ensures
        reach_set(adj, s, m) == reach_set(adj, s, k),
    decreases m - k,
{
    if m > k {
        lemma_reach_set_stable(adj, s, k, (m - 1) as nat);
        assert forall|v: int| #[trigger] reach_set(adj, s, m).contains(v) implies reach_set(adj, s, k).contains(v) by {
            let j = choose|j: nat| j <= m && #[trigger] reaches_in(adj, s, v, j);
            if j < m {
                assert(reach_set(adj, s, (m - 1) as nat).contains(v));
            } else {
                let u = choose|u: int| #[trigger] adj_edge(adj, u, v) && reaches_in(adj, s, u, (m - 1) as nat);
                assert(reach_set(adj, s, (m - 1) as nat).contains(u));
                assert(reach_set(adj, s, k).contains(u));
                let j2 = choose|j2: nat| j2 <= k && #[trigger] reaches_in(adj, s, u, j2);
                assert(adj_edge(adj, u, v) && reaches_in(adj, s, u, j2));
                assert(reaches_in(adj, s, v, j2 + 1));
                assert(reach_set(adj, s, k + 1).contains(v));
            }
        }
        assert forall|v: int| #[trigger] reach_set(adj, s, k).contains(v) implies reach_set(adj, s, m).contains(v) by {
            let j = choose|j: nat| j <= k && #[trigger] reaches_in(adj, s, v, j);
        }
        assert(reach_set(adj, s, m) =~= reach_set(adj, s, k));
    }
}

/// Until the reach sets stop growing, each step adds a vertex.
proof fn lemma_reach_set_grows(adj: Seq<Vec<usize>>, s: int, k: nat)
    requires
        0 <= s < adj.len(),
    ensures
        reach_set(adj, s, k).len() >= k + 1
            || exists|k2: nat| k2 < k && #[trigger] reach_set(adj, s, k2) == reach_set(adj, s, k2 + 1),
    decreases k,
{
    lemma_reach_set_finite(adj, s, k);
    if k == 0 {
        assert(reaches_in(adj, s, s, 0));
        assert(reach_set(adj, s, 0).contains(s));
        assert(set![s].subset_of(reach_set(adj, s, 0)));
        lemma_len_subset(set![s], reach_set(adj, s, 0));
    } else {
        let p = (k - 1) as nat;
        lemma_reach_set_grows(adj, s, p);
        lemma_reach_set_finite(adj, s, p);
        if reach_set(adj, s, p) == reach_set(adj, s, p + 1) {
            assert(p < k && reach_set(adj, s, p) == reach_set(adj, s, p + 1));
        } else {
            assert forall|v: int| #[trigger] reach_set(adj, s, p).contains(v) implies reach_set(adj, s, k).contains(v) by {
                let j = choose|j: nat| j <= p && #[trigger] reaches_in(adj, s, v, j);
            }
            assert(!(reach_set(adj, s, p) =~= reach_set(adj, s, k)));
            let x = choose|x: int| reach_set(adj, s, k).contains(x) && !reach_set(adj, s, p).contains(x);
            assert(reach_set(adj, s, p).insert(x).subset_of(reach_set(adj, s, k)));
            lemma_len_subset(reach_set(adj, s, p).insert(x), reach_set(adj, s, k));
        }
    }
}

/// Whatever a walk reaches, a walk of fewer edges than there are vertices
/// reaches too.
proof fn lemma_short_walk(adj: Seq<Vec<usize>>, s: int, v: int, j: nat)
    requires
        0 <= s < adj.len(),
        0 <= v < adj.len(),
        reaches_in(adj, s, v, j),
    ensures
        exists|j2: nat| j2 < adj.len() && #[trigger] reaches_in(adj, s, v, j2),
{
    let n = adj.len() as nat;
    lemma_reach_set_grows(adj, s, n);
    lemma_reach_set_finite(adj, s, n);
    let k2 = choose|k2: nat| k2 < n && #[trigger] reach_set(adj, s, k2) == reach_set(adj, s, k2 + 1);
    if j > k2 {
        lemma_reach_set_stable(adj, s, k2, j);
        assert(reach_set(adj, s, j).contains(v));
        assert(reach_set(adj, s, k2).contains(v));
        let j2 = choose|j2: nat| j2 <= k2 && #[trigger] reaches_in(adj, s, v, j2);
        assert(j2 < n && reaches_in(adj, s, v, j2));
    }
}

/// In a finished table, the entry from `s` bounds the length of every walk.
proof fn lemma_fw_lower_bound(adj: Seq<Vec<usize>>, m: Seq<Vec<usize>>, s: int, v: int, j: nat)
    requires
        fw_table(adj, m, adj.len() as int),
        0 <= s < adj.len(),
        0 <= v < adj.len(),
        reaches_in(adj, s, v, j),
    ensures
        entry(m, s, v) <= j,
    decreases j,
{
    if j == 0 {
        assert(entry(m, s, s) == 0);
    } else {
        let u = choose|u: int| #[trigger] adj_edge(adj, u, v) && reaches_in(adj, s, u, (j - 1) as nat);
        lemma_fw_lower_bound(adj, m, s, u, (j - 1) as nat);
        let t = choose|t: int| 0 <= t < adj[u]@.len() && adj[u]@[t] == v;
        assert(entry(m, u, adj[u]@[t] as int) <= 1);
        assert(entry(m, s, v) <= entry(m, s, u) + entry(m, u, v));
    }
}

/// The first table: zero on the diagonal, one along each edge between
/// vertices of the graph, the sentinel elsewhere.
fn initial_table(adj: &[Vec<usize>]) -> (d: Vec<Vec<usize>>)
    requires
        adj.len() < usize::MAX / 4,
    ensures
        fw_table(adj@, d@, 0),
{
    let n = adj.len();
    let inf: usize = usize::MAX / 4;
    let mut d: Vec<Vec<usize>> = Vec::new();
    let mut u: usize = 0;
    while u < n
        invariant
            n == adj.len(),
            inf == no_walk_mark(),
            u <= n,
            d.len() == u,
            forall|i: int| 0 <= i < u ==> #[trigger] d@[i]@.len() == n,
            forall|i: int, j: int| 0 <= i < u && 0 <= j < n ==> #[trigger] entry(d@, i, j) <= no_walk_mark(),
            forall|i: int| 0 <= i < u ==> #[trigger] entry(d@, i, i) == 0,
            forall|i: int, t: int|
                0 <= i < u && 0 <= t < adj@[i]@.len() && adj@[i]@[t] < n
                    ==> #[trigger] entry(d@, i, adj@[i]@[t] as int) <= 1,
            forall|i: int, j: int|
                0 <= i < u && 0 <= j < n && #[trigger] entry(d@, i, j) < no_walk_mark()
                    ==> reaches_in(adj@, i, j, entry(d@, i, j) as nat),
        decreases n - u,
    {
        let mut row: Vec<usize> = Vec::new();
        let mut j: usize = 0;
        while j < n
            invariant
                n == adj.len(),
                inf == no_walk_mark(),
                u < n,
                j <= n,
                row.len() == j,
                forall|jj: int| 0 <= jj < j ==> row@[jj] == if jj == u { 0usize } else { inf },
            decreases n - j,
        {
            if j == u {
                row.push(0);
            } else {
                row.push(inf);
            }
            j = j + 1;
        }
        proof {
            assert(reaches_in(adj@, u as int, u as int, 0));
        }
        let mut t: usize = 0;
        while t < adj[u].len()
            invariant
                n == adj.len(),
                inf == no_walk_mark(),
                u < n,
                row.len() == n,
                t <= adj@[u as int]@.len(),
                row@[u as int] == 0,
                forall|jj: int| 0 <= jj < n ==> #[trigger] row@[jj] <= inf,
                forall|t2: int| 0 <= t2 < t && adj@[u as int]@[t2] < n ==> #[trigger] row@[adj@[u as int]@[t2] as int] <= 1,
                forall|jj: int| 0 <= jj < n && #[trigger] row@[jj] < inf ==> reaches_in(adj@, u as int, jj, row@[jj] as nat),
            decreases adj@[u as int]@.len() - t,
        {
            let v = adj[u][t];
            if v < n && 1 < row[v] {
                proof {
                    lemma_reach_step(adj@, u as int, u as int, t as int, 0);
                }
                row.set(v, 1);
            }
            t = t + 1;
        }
        let ghost d0 = d@;
        let ghost r = row@;
        d.push(row);
        proof {
            assert(d@[u as int]@ == r);
            assert forall|i: int| 0 <= i < u implies #[trigger] d@[i] == d0[i] by {}
            assert forall|i: int, j: int| 0 <= i <= u && 0 <= j < n implies #[trigger] entry(d@, i, j) <= no_walk_mark() by {
                if i < u {
                    assert(entry(d@, i, j) == entry(d0, i, j));
                }
            }
            assert forall|i: int| 0 <= i <= u implies #[trigger] entry(d@, i, i) == 0 by {
                if i < u {
                    assert(entry(d@, i, i) == entry(d0, i, i));
                }
            }
            assert forall|i: int, t: int|
                0 <= i <= u && 0 <= t < adj@[i]@.len() && adj@[i]@[t] < n
                    implies #[trigger] entry(d@, i, adj@[i]@[t] as int) <= 1 by {
                if i < u {
                    assert(entry(d@, i, adj@[i]@[t] as int) == entry(d0, i, adj@[i]@[t] as int));
                }
            }
            assert forall|i: int, j: int|
                0 <= i <= u && 0 <= j < n && #[trigger] entry(d@, i, j) < no_walk_mark()
                    implies reaches_in(adj@, i, j, entry(d@, i, j) as nat) by {
                if i < u {
                    assert(entry(d@, i, j) == entry(d0, i, j));
                }
            }
        }
        u = u + 1;
    }
    d
}

/// A copy of one row of the table.
fn copy_row(row: &Vec<usize>) -> (out: Vec<usize>)
    ensures
        out@ == row@,
{
    let mut out: Vec<usize> = Vec::new();
    let mut j: usize = 0;
    while j < row.len()
        invariant
            j <= row.len(),
            out@ == row@.take(j as int),
        decreases row.len() - j,
    {
        out.push(row[j]);
        j = j + 1;
        assert(out@ =~= row@.take(j as int));
    }
    assert(row@.take(row.len() as int) =~= row@);
    out
}

/// Relaxes every entry of the table through vertex `k`.
fn relax_through(d: &mut Vec<Vec<usize>>, k: usize, Ghost(adj): Ghost<Seq<Vec<usize>>>)
    requires
        k < adj.len(),
        adj.len() < usize::MAX / 4,
        fw_table(adj, old(d)@, k as int),
    ensures
        fw_table(adj, final(d)@, k + 1),
{
    let n = d.len();
    let inf: usize = usize::MAX / 4;
    let ghost m0 = d@;
    let rowk = copy_row(&d[k]);
    let mut i: usize = 0;
    while i < n
        invariant
            n == adj.len(),
            inf == no_walk_mark(),
            k < n,
            i <= n,
            fw_table(adj, m0, k as int),
            rowk@ == m0[k as int]@,
            d.len() == n,
            forall|r: int| 0 <= r < n ==> #[trigger] d@[r]@.len() == n,
            forall|r: int| i <= r < n ==> #[trigger] d@[r]@ == m0[r]@,
            forall|r: int, j: int| 0 <= r < i && 0 <= j < n ==> #[trigger] entry(d@, r, j) == relaxed(m0, k as int, r, j),
        decreases n - i,
    {
        let dik = d[i][k];
        assert(dik == entry(m0, i as int, k as int));
        let mut row: Vec<usize> = Vec::new();
        let mut j: usize = 0;
        while j < n
            invariant
                n == adj.len(),
                inf == no_walk_mark(),
                k < n,
                i < n,
                j <= n,
                fw_table(adj, m0, k as int),
                rowk@ == m0[k as int]@,
                d.len() == n,
                d@[i as int]@ == m0[i as int]@,
                dik == entry(m0, i as int, k as int),
                row.len() == j,
                forall|jj: int| 0 <= jj < j ==> #[trigger] row@[jj] == relaxed(m0, k as int, i as int, jj),
            decreases n - j,
        {
            let cur = d[i][j];
            assert(cur == entry(m0, i as int, j as int));
            assert(rowk@[j as int] == entry(m0, k as int, j as int));
            assert(entry(m0, i as int, k as int) <= no_walk_mark());
            assert(entry(m0, k as int, j as int) <= no_walk_mark());
            let via = dik.saturating_add(rowk[j]);
            if via < cur {
                row.push(via);
            } else {
                row.push(cur);
            }
            j = j + 1;
        }
        let ghost db = d@;
        let ghost rw = row@;
        d.set(i, row);
        proof {
            assert(d@[i as int]@ == rw);
            assert forall|r: int| 0 <= r < n && r != i implies #[trigger] d@[r] == db[r] by {}
            assert forall|r: int, j: int| 0 <= r <= i && 0 <= j < n implies #[trigger] entry(d@, r, j) == relaxed(m0, k as int, r, j) by {
                if r < i {
                    assert(entry(d@, r, j) == entry(db, r, j));
                } else {
                    assert(entry(d@, r, j) == rw[j]);
                }
            }
        }
        i = i + 1;
    }
    proof {
        lemma_fw_round(adj, m0, d@, k as int);
    }
}

/// Unweighted single-source distances read off an all-pairs Floyd–Warshall
/// table: `dist[v]` is `Some(k)` when the fewest edges on a walk from
/// `source` to `v` is `k`, `None` when no walk exists. Neighbours outside the
/// graph are ignored.
pub fn fw_unweighted(adj: &[Vec<usize>], source: usize) -> (dist: Vec<Option<usize>>)
    requires
        source < adj.len() || adj.len() == 0,
        // the table has adj.len() squared entries, so this always holds in memory
        adj.len() < usize::MAX / 4,
    ensures
        dist.len() == adj.len(),
        forall|v: int| 0 <= v < adj.len() ==> is_bfs_distance(adj@, source as int, v, #[trigger] dist[v]),
{
    let n = adj.len();
    let inf: usize = usize::MAX / 4;
    let mut d = initial_table(adj);
    let mut k: usize = 0;
    while k < n
        invariant
            n == adj.len(),
            n < usize::MAX / 4,
            k <= n,
            fw_table(adj@, d@, k as int),
        decreases n - k,
    {
        relax_through(&mut d, k, Ghost(adj@));
        k = k + 1;
    }
    let mut dist: Vec<Option<usize>> = Vec::new();
    let mut v: usize = 0;
    while v < n
        invariant
            n == adj.len(),
            inf == no_walk_mark(),
            n < inf,
            v <= n,
            source < n || n == 0,
            fw_table(adj@, d@, n as int),
            dist.len() == v,
            forall|w: int| 0 <= w < v ==> is_bfs_distance(adj@, source as int, w, #[trigger] dist[w]),
        decreases n - v,
    {
        let x = d[source][v];
        assert(x == entry(d@, source as int, v as int));
        proof {
            if x < inf {
                assert forall|j: nat| j < x implies !#[trigger] reaches_in(adj@, source as int, v as int, j) by {
                    if reaches_in(adj@, source as int, v as int, j) {
                        lemma_fw_lower_bound(adj@, d@, source as int, v as int, j);
                    }
                }
            } else {
                assert forall|j: nat| !#[trigger] reaches_in(adj@, source as int, v as int, j) by {
                    if reaches_in(adj@, source as int, v as int, j) {
                        lemma_short_walk(adj@, source as int, v as int, j);
                        let j2 = choose|j2: nat| j2 < adj.len() && #[trigger] reaches_in(adj@, source as int, v as int, j2);
                        lemma_fw_lower_bound(adj@, d@, source as int, v as int, j2);
                    }
                }
            }
        }
        if x >= inf {
            dist.push(None);
        } else {
            dist.push(Some(x));
        }
        v = v + 1;
    }
    dist
}

/// An unweighted distance from a source to a vertex is unique.
pub proof fn lemma_bfs_distance_unique(adj: Seq<Vec<usize>>, s: int, v: int, d1: Option<usize>, d2: Option<usize>)
    requires
        is_bfs_distance(adj, s, v, d1),
        is_bfs_distance(adj, s, v, d2),
    ensures
        d1 == d2,
{
    match (d1, d2) {
        (Some(a), Some(b)) => {
            assert(reaches_in(adj, s, v, a as nat));
            assert(reaches_in(adj, s, v, b as nat));
        },
        (Some(a), None) => {
            assert(reaches_in(adj, s, v, a as nat));
        },
        (None, Some(b)) => {
            assert(reaches_in(adj, s, v, b as nat));
        },
        (None, None) => {},
    }
}

/// Breadth-first search and Floyd–Warshall agree: two tables of unweighted
/// distances over the same graph from the same source are equal.
pub proof fn lemma_bfs_agrees_with_floyd(
    adj: Seq<Vec<usize>>,
    source: int,
    by_bfs: Seq<Option<usize>>,
    by_floyd: Seq<Option<usize>>,
)
    requires
        by_bfs.len() == adj.len(),
        by_floyd.len() == adj.len(),
        forall|v: int| 0 <= v < adj.len() ==> is_bfs_distance(adj, source, v, #[trigger] by_bfs[v]),
        forall|v: int| 0 <= v < adj.len() ==> is_bfs_distance(adj, source, v, #[trigger] by_floyd[v]),
    ensures
        by_bfs == by_floyd,
{
    assert forall|v: int| 0 <= v < adj.len() implies by_bfs[v] == by_floyd[v] by {
        lemma_bfs_distance_unique(adj, source, v, by_bfs[v], by_floyd[v]);
    }
    assert(by_bfs =~= by_floyd);
}

} // verus!
