use vstd::prelude::*;

verus! {

/// Length of a longest common subsequence of `a[..i]` and `b[..j]`.
pub open spec fn lcs(a: Seq<i32>, b: Seq<i32>, i: nat, j: nat) -> nat
    decreases i + j,
{
    if i == 0 || j == 0 {
        0
    } else if a[i - 1] == b[j - 1] {
        lcs(a, b, (i - 1) as nat, (j - 1) as nat) + 1
    } else {
        let x = lcs(a, b, (i - 1) as nat, j);
        let y = lcs(a, b, i, (j - 1) as nat);
        if x >= y { x } else { y }
    }
}

/// A common subsequence is no longer than either prefix.
pub proof fn lemma_lcs_bounded(a: Seq<i32>, b: Seq<i32>, i: nat, j: nat)
    ensures
        lcs(a, b, i, j) <= i,
        lcs(a, b, i, j) <= j,
    decreases i + j,
{
    if i > 0 && j > 0 {
        lemma_lcs_bounded(a, b, (i - 1) as nat, (j - 1) as nat);
        lemma_lcs_bounded(a, b, (i - 1) as nat, j);
        lemma_lcs_bounded(a, b, i, (j - 1) as nat);
    }
}

/// Swapping the two sequences does not change the longest common subsequence.
pub proof fn lemma_lcs_symmetric(a: Seq<i32>, b: Seq<i32>, i: nat, j: nat)
    ensures
        lcs(a, b, i, j) == lcs(b, a, j, i),
    decreases i + j,
{
    if i > 0 && j > 0 {
        lemma_lcs_symmetric(a, b, (i - 1) as nat, (j - 1) as nat);
        lemma_lcs_symmetric(a, b, (i - 1) as nat, j);
        lemma_lcs_symmetric(a, b, i, (j - 1) as nat);
    }
}

/// `ia` and `ib` pick a common subsequence of `a[..i]` and `b[..j]`: two
/// strictly increasing index sequences of equal length, below `i` and `j`,
/// that select equal elements pairwise.
pub open spec fn common_in(a: Seq<i32>, b: Seq<i32>, ia: Seq<int>, ib: Seq<int>, i: int, j: int) -> bool {
    &&& ia.len() == ib.len()
    &&& forall|k: int| 0 <= k < ia.len() ==> 0 <= #[trigger] ia[k] < i && 0 <= ib[k] < j
    &&& forall|k: int, l: int| 0 <= k < l < ia.len() ==> #[trigger] ia[k] < #[trigger] ia[l] && ib[k] < ib[l]
    &&& forall|k: int| 0 <= k < ia.len() ==> a[#[trigger] ia[k]] == b[ib[k]]
}

/// Some common subsequence of `a[..i]` and `b[..j]` is `lcs(a, b, i, j)` long.
proof fn lemma_lcs_witness(a: Seq<i32>, b: Seq<i32>, i: nat, j: nat)
    requires
        i <= a.len(),
        j <= b.len(),
    ensures
        exists|ia: Seq<int>, ib: Seq<int>| #[trigger] common_in(a, b, ia, ib, i as int, j as int)
            && ia.len() == lcs(a, b, i, j),
    decreases i + j,
{
    if i == 0 || j == 0 {
        let e = Seq::<int>::empty();
        assert(common_in(a, b, e, e, i as int, j as int));
    } else if a[i - 1] == b[j - 1] {
        lemma_lcs_witness(a, b, (i - 1) as nat, (j - 1) as nat);
        let (ia, ib) = choose|ia: Seq<int>, ib: Seq<int>| #[trigger] common_in(a, b, ia, ib, i - 1, j - 1)
            && ia.len() == lcs(a, b, (i - 1) as nat, (j - 1) as nat);
        let ia2 = ia.push(i - 1);
        let ib2 = ib.push(j - 1);
        assert forall|k: int| 0 <= k < ia2.len() implies 0 <= #[trigger] ia2[k] < i && 0 <= ib2[k] < j by {
            if k < ia.len() {
                assert(ia2[k] == ia[k] && ib2[k] == ib[k]);
            }
        }
        assert forall|k: int, l: int| 0 <= k < l < ia2.len() implies #[trigger] ia2[k] < #[trigger] ia2[l] && ib2[k] < ib2[l] by {
            assert(ia2[k] == ia[k] && ib2[k] == ib[k]);
            if l < ia.len() {
                assert(ia2[l] == ia[l] && ib2[l] == ib[l]);
            }
        }
        assert forall|k: int| 0 <= k < ia2.len() implies a[#[trigger] ia2[k]] == b[ib2[k]] by {
            if k < ia.len() {
                assert(ia2[k] == ia[k] && ib2[k] == ib[k]);
            }
        }
        assert(common_in(a, b, ia2, ib2, i as int, j as int));
    } else {
        let x = lcs(a, b, (i - 1) as nat, j);
        let y = lcs(a, b, i, (j - 1) as nat);
        if x >= y {
            lemma_lcs_witness(a, b, (i - 1) as nat, j);
            let (ia, ib) = choose|ia: Seq<int>, ib: Seq<int>| #[trigger] common_in(a, b, ia, ib, i - 1, j as int)
                && ia.len() == x;
            assert(common_in(a, b, ia, ib, i as int, j as int));
        } else {
            lemma_lcs_witness(a, b, i, (j - 1) as nat);
            let (ia, ib) = choose|ia: Seq<int>, ib: Seq<int>| #[trigger] common_in(a, b, ia, ib, i as int, j - 1)
                && ia.len() == y;
            assert(common_in(a, b, ia, ib, i as int, j as int));
        }
    }
}

/// No common subsequence of `a[..i]` and `b[..j]` is longer than `lcs(a, b, i, j)`.
proof fn lemma_lcs_upper(a: Seq<i32>, b: Seq<i32>, i: nat, j: nat, ia: Seq<int>, ib: Seq<int>)
    requires
        i <= a.len(),
        j <= b.len(),
        common_in(a, b, ia, ib, i as int, j as int),
    ensures
        ia.len() <= lcs(a, b, i, j),
    decreases i + j,
{
    let n = ia.len();
    if n == 0 {
        return;
    }
    if i == 0 {
        assert(0 <= ia[0] < i);
        return;
    }
    if j == 0 {
        assert(0 <= ia[0] < i && 0 <= ib[0] < j);
        return;
    }
    let p = ia[n - 1];
    let q = ib[n - 1];
    assert(0 <= p < i && 0 <= q < j);
    if a[i - 1] == b[j - 1] {
        let ia1 = ia.drop_last();
        let ib1 = ib.drop_last();
        assert forall|k: int| 0 <= k < ia1.len() implies 0 <= #[trigger] ia1[k] < i - 1 && 0 <= ib1[k] < j - 1 by {
            assert(ia1[k] == ia[k] && ib1[k] == ib[k]);
            assert(ia[k] < ia[n - 1]);
            assert(0 <= ia[k] < i);
        }
        assert forall|k: int, l: int| 0 <= k < l < ia1.len() implies #[trigger] ia1[k] < #[trigger] ia1[l] && ib1[k] < ib1[l] by {
            assert(ia1[k] == ia[k] && ib1[k] == ib[k] && ia1[l] == ia[l] && ib1[l] == ib[l]);
        }
        assert forall|k: int| 0 <= k < ia1.len() implies a[#[trigger] ia1[k]] == b[ib1[k]] by {
            assert(ia1[k] == ia[k] && ib1[k] == ib[k]);
        }
        lemma_lcs_upper(a, b, (i - 1) as nat, (j - 1) as nat, ia1, ib1);
    } else if p < i - 1 {
        assert forall|k: int| 0 <= k < ia.len() implies 0 <= #[trigger] ia[k] < i - 1 && 0 <= ib[k] < j by {
            if k < n - 1 {
                assert(ia[k] < ia[n - 1]);
            }
        }
        lemma_lcs_upper(a, b, (i - 1) as nat, j, ia, ib);
    } else {
        assert(p == i - 1);
        assert(a[p] == b[q]);
        assert(q != j - 1);
        assert forall|k: int| 0 <= k < ia.len() implies 0 <= #[trigger] ia[k] < i && 0 <= ib[k] < j - 1 by {
            if k < n - 1 {
                assert(ia[k] < ia[n - 1] && ib[k] < ib[n - 1]);
            }
        }
        lemma_lcs_upper(a, b, i, (j - 1) as nat, ia, ib);
    }
}

/// `lcs` is the length of a longest common subsequence: some pair of
/// strictly increasing index sequences into `a` and `b` of that length
/// selects equal elements, and every such pair is no longer.
pub proof fn lemma_lcs_is_longest_common_subsequence(a: Seq<i32>, b: Seq<i32>)
    ensures
        exists|ia: Seq<int>, ib: Seq<int>| #[trigger] common_in(a, b, ia, ib, a.len() as int, b.len() as int)
            && ia.len() == lcs(a, b, a.len(), b.len()),
        forall|ia: Seq<int>, ib: Seq<int>| #[trigger] common_in(a, b, ia, ib, a.len() as int, b.len() as int)
            ==> ia.len() <= lcs(a, b, a.len(), b.len()),
{
    lemma_lcs_witness(a, b, a.len(), b.len());
    assert forall|ia: Seq<int>, ib: Seq<int>| #[trigger] common_in(a, b, ia, ib, a.len() as int, b.len() as int)
        implies ia.len() <= lcs(a, b, a.len(), b.len()) by {
        lemma_lcs_upper(a, b, a.len(), b.len(), ia, ib);
    }
}

/// Length of a longest common subsequence of `a` and `b`.
pub fn lcs_length(a: &[i32], b: &[i32]) -> (len: usize)
    ensures
        len == lcs(a@, b@, a@.len(), b@.len()),
        exists|ia: Seq<int>, ib: Seq<int>| #[trigger] common_in(a@, b@, ia, ib, a@.len() as int, b@.len() as int)
            && ia.len() == len,
        forall|ia: Seq<int>, ib: Seq<int>| #[trigger] common_in(a@, b@, ia, ib, a@.len() as int, b@.len() as int)
            ==> ia.len() <= len,
{
    let m = a.len();
    let n = b.len();
    let mut prev: Vec<usize> = Vec::new();
    while prev.len() <= n
        invariant
            prev@.len() <= n + 1,
            n == b@.len(),
            forall|j: int| 0 <= j < prev@.len() ==> prev@[j] == 0,
        decreases n + 1 - prev@.len(),
    {
        prev.push(0);
    }
    let mut i: usize = 0;
    while i < m
        invariant
            m == a@.len(),
            n == b@.len(),
            0 <= i <= m,
            prev@.len() == n + 1,
            forall|j: int| 0 <= j <= n ==> #[trigger] prev@[j] == lcs(a@, b@, i as nat, j as nat),
        decreases m - i,
    {
        let mut cur: Vec<usize> = Vec::new();
        cur.push(0);
        let mut j: usize = 0;
        while j < n
            invariant
                m == a@.len(),
                n == b@.len(),
                0 <= i < m,
                0 <= j <= n,
                prev@.len() == n + 1,
                cur@.len() == j + 1,
                forall|k: int| 0 <= k <= n ==> #[trigger] prev@[k] == lcs(a@, b@, i as nat, k as nat),
                forall|k: int| 0 <= k <= j ==> #[trigger] cur@[k] == lcs(a@, b@, (i + 1) as nat, k as nat),
            decreases n - j,
        {
            let v = if a[i] == b[j] {
                proof {
                    lemma_lcs_bounded(a@, b@, i as nat, j as nat);
                }
                prev[j] + 1
            } else {
                let x = prev[j + 1];
                let y = cur[j];
                if x >= y { x } else { y }
            };
            cur.push(v);
            j = j + 1;
        }
        prev = cur;
        i = i + 1;
    }
    proof {
        lemma_lcs_is_longest_common_subsequence(a@, b@);
    }
    prev[n]
}

/// Best total value of items among the first `i` whose weights fit in `c`,
/// each item taken at most once.
pub open spec fn knap_best(weights: Seq<u32>, values: Seq<u32>, i: nat, c: int) -> int
    decreases i,
{
    if i == 0 {
        0
    } else {
        let skip = knap_best(weights, values, (i - 1) as nat, c);
        if weights[i - 1] <= c {
            let take = knap_best(weights, values, (i - 1) as nat, c - weights[i - 1]) + values[i - 1];
            if take > skip { take } else { skip }
        } else {
            skip
        }
    }
}

/// Total weight of the items among the first `i` that `sel` takes.
pub open spec fn taken_weight(weights: Seq<u32>, sel: Seq<bool>, i: nat) -> int
    decreases i,
{
    if i == 0 {
        0
    } else {
        taken_weight(weights, sel, (i - 1) as nat) + if sel[i - 1] { weights[i - 1] as int } else { 0 }
    }
}

/// Total value of the items among the first `i` that `sel` takes.
pub open spec fn taken_value(values: Seq<u32>, sel: Seq<bool>, i: nat) -> int
    decreases i,
{
    if i == 0 {
        0
    } else {
        taken_value(values, sel, (i - 1) as nat) + if sel[i - 1] { values[i - 1] as int } else { 0 }
    }
}

/// `sel` says, item by item, whether to take it, and what it takes weighs
/// at most `c`.
pub open spec fn fits(weights: Seq<u32>, sel: Seq<bool>, c: int) -> bool {
    sel.len() == weights.len() && taken_weight(weights, sel, weights.len()) <= c
}

proof fn lemma_taken_nonneg(weights: Seq<u32>, sel: Seq<bool>, i: nat)
    ensures
        taken_weight(weights, sel, i) >= 0,
    decreases i,
{
    if i > 0 {
        lemma_taken_nonneg(weights, sel, (i - 1) as nat);
    }
}

proof fn lemma_taken_push(weights: Seq<u32>, values: Seq<u32>, sel: Seq<bool>, x: bool, i: nat)
    requires
        i <= sel.len(),
    ensures
        taken_weight(weights, sel.push(x), i) == taken_weight(weights, sel, i),
        taken_value(values, sel.push(x), i) == taken_value(values, sel, i),
    decreases i,
{
    if i > 0 {
        lemma_taken_push(weights, values, sel, x, (i - 1) as nat);
        assert(sel.push(x)[i - 1] == sel[i - 1]);
    }
}

/// Some choice among the first `i` items weighing at most `c` is worth
/// `knap_best(.., i, c)`.
proof fn lemma_knap_witness(weights: Seq<u32>, values: Seq<u32>, i: nat, c: int)
    requires
        i <= weights.len(),
        i <= values.len(),
        c >= 0,
    ensures
        exists|sel: Seq<bool>| sel.len() == i && #[trigger] taken_weight(weights, sel, i) <= c
            && taken_value(values, sel, i) == knap_best(weights, values, i, c),
    decreases i,
{
    if i == 0 {
        let e = Seq::<bool>::empty();
        assert(taken_weight(weights, e, 0) <= c);
    } else {
        let k = (i - 1) as nat;
        let skip = knap_best(weights, values, k, c);
        if weights[k as int] <= c && knap_best(weights, values, k, c - weights[k as int]) + values[k as int] > skip {
            lemma_knap_witness(weights, values, k, c - weights[k as int]);
            let sel = choose|sel: Seq<bool>| sel.len() == k && #[trigger] taken_weight(weights, sel, k) <= c - weights[k as int]
                && taken_value(values, sel, k) == knap_best(weights, values, k, c - weights[k as int]);
            lemma_taken_push(weights, values, sel, true, k);
            let s2 = sel.push(true);
            assert(taken_weight(weights, s2, i) <= c);
        } else {
            lemma_knap_witness(weights, values, k, c);
            let sel = choose|sel: Seq<bool>| sel.len() == k && #[trigger] taken_weight(weights, sel, k) <= c
                && taken_value(values, sel, k) == skip;
            lemma_taken_push(weights, values, sel, false, k);
            let s2 = sel.push(false);
            assert(taken_weight(weights, s2, i) <= c);
        }
    }
}

/// No choice among the first `i` items weighing at most `c` is worth more
/// than `knap_best(.., i, c)`.
proof fn lemma_knap_upper(weights: Seq<u32>, values: Seq<u32>, i: nat, c: int, sel: Seq<bool>)
    requires
        i <= weights.len(),
        i <= values.len(),
        i <= sel.len(),
        taken_weight(weights, sel, i) <= c,
    ensures
        taken_value(values, sel, i) <= knap_best(weights, values, i, c),
    decreases i,
{
    if i > 0 {
        let k = (i - 1) as nat;
        lemma_taken_nonneg(weights, sel, k);
        if sel[k as int] {
            lemma_knap_upper(weights, values, k, c - weights[k as int], sel);
        } else {
            lemma_knap_upper(weights, values, k, c, sel);
        }
    }
}

/// `knap_best` is the best 0/1 knapsack value: some choice of items whose
/// weights sum to at most the capacity is worth it, and no such choice is
/// worth more.
pub proof fn lemma_knap_best_is_optimal(weights: Seq<u32>, values: Seq<u32>, c: int)
    requires
        weights.len() == values.len(),
        c >= 0,
    ensures
        exists|sel: Seq<bool>| #[trigger] fits(weights, sel, c)
            && taken_value(values, sel, sel.len()) == knap_best(weights, values, weights.len(), c),
        forall|sel: Seq<bool>| #[trigger] fits(weights, sel, c)
            ==> taken_value(values, sel, sel.len()) <= knap_best(weights, values, weights.len(), c),
{
    lemma_knap_witness(weights, values, weights.len(), c);
    let sel = choose|sel: Seq<bool>| sel.len() == weights.len() && #[trigger] taken_weight(weights, sel, weights.len()) <= c
        && taken_value(values, sel, weights.len()) == knap_best(weights, values, weights.len(), c);
    assert(fits(weights, sel, c));
    assert forall|sel: Seq<bool>| #[trigger] fits(weights, sel, c)
        implies taken_value(values, sel, sel.len()) <= knap_best(weights, values, weights.len(), c) by {
        lemma_knap_upper(weights, values, weights.len(), c, sel);
    }
}

/// A larger capacity never lowers the best value.
pub proof fn lemma_knap_monotone_capacity(weights: Seq<u32>, values: Seq<u32>, i: nat, c1: int, c2: int)
    requires
        c1 <= c2,
    ensures
        knap_best(weights, values, i, c1) <= knap_best(weights, values, i, c2),
    decreases i,
{
    if i > 0 {
        lemma_knap_monotone_capacity(weights, values, (i - 1) as nat, c1, c2);
        lemma_knap_monotone_capacity(weights, values, (i - 1) as nat, c1 - weights[i - 1], c2 - weights[i - 1]);
    }
}

/// More items and more capacity never lower the best value.
pub proof fn lemma_knap_monotone(weights: Seq<u32>, values: Seq<u32>, i1: nat, c1: int, i2: nat, c2: int)
    requires
        i1 <= i2,
        c1 <= c2,
    ensures
        knap_best(weights, values, i1, c1) <= knap_best(weights, values, i2, c2),
    decreases i2 - i1,
{
    if i1 < i2 {
        lemma_knap_monotone(weights, values, i1, c1, (i2 - 1) as nat, c2);
    } else {
        lemma_knap_monotone_capacity(weights, values, i1, c1, c2);
    }
}

/// 0/1 knapsack by dynamic programming over capacities `0..=capacity`.
///
/// The two slices describe the same items, so they have the same length, and
/// the best value must fit in a `u32`.
pub fn knapsack_01(weights: &[u32], values: &[u32], capacity: u32) -> (best: u32)
    requires
        weights@.len() == values@.len(),
        (capacity as int) < usize::MAX,
        knap_best(weights@, values@, weights@.len(), capacity as int) <= u32::MAX,
    ensures
        best == knap_best(weights@, values@, weights@.len(), capacity as int),
        exists|sel: Seq<bool>| #[trigger] fits(weights@, sel, capacity as int)
            && taken_value(values@, sel, sel.len()) == best,
        forall|sel: Seq<bool>| #[trigger] fits(weights@, sel, capacity as int)
            ==> taken_value(values@, sel, sel.len()) <= best,
{
    proof {
        lemma_knap_best_is_optimal(weights@, values@, capacity as int);
    }
    let cap = capacity as usize;
    let mut dp: Vec<u32> = Vec::new();
    while dp.len() <= cap
        invariant
            dp@.len() <= cap + 1,
            forall|c: int| 0 <= c < dp@.len() ==> dp@[c] == 0,
        decreases cap + 1 - dp@.len(),
    {
        dp.push(0);
    }
    let mut i: usize = 0;
    while i < weights.len()
        invariant
            weights@.len() == values@.len(),
            cap == capacity,
            cap < usize::MAX,
            dp@.len() == cap + 1,
            0 <= i <= weights@.len(),
            knap_best(weights@, values@, weights@.len(), cap as int) <= u32::MAX,
            forall|c: int| 0 <= c <= cap ==> #[trigger] dp@[c] == knap_best(weights@, values@, i as nat, c),
        decreases weights@.len() - i,
    {
        let w = weights[i] as usize;
        let v = values[i];
        if w <= cap {
            let mut c: usize = cap + 1;
            while c > w
                invariant
                    weights@.len() == values@.len(),
                    0 <= i < weights@.len(),
                    w == weights@[i as int],
                    v == values@[i as int],
                    w <= cap,
                    cap == capacity,
                    cap < usize::MAX,
                    dp@.len() == cap + 1,
                    knap_best(weights@, values@, weights@.len(), cap as int) <= u32::MAX,
                    w <= c <= cap + 1,
                    forall|x: int| 0 <= x < c ==> #[trigger] dp@[x] == knap_best(weights@, values@, i as nat, x),
                    forall|x: int| c <= x <= cap ==> #[trigger] dp@[x] == knap_best(weights@, values@, (i + 1) as nat, x),
                decreases c,
            {
                c = c - 1;
                proof {
                    lemma_knap_monotone(weights@, values@, (i + 1) as nat, c as int, weights@.len(), cap as int);
                    assert(knap_best(weights@, values@, (i + 1) as nat, c as int)
                        >= knap_best(weights@, values@, i as nat, c - w) + v);
                }
                let cand = dp[c - w] + v;
                if cand > dp[c] {
                    dp.set(c, cand);
                }
            }
            proof {
                assert forall|x: int| 0 <= x <= cap implies #[trigger] dp@[x] == knap_best(weights@, values@, (i + 1) as nat, x) by {
                    if x < w {
                        assert(dp@[x] == knap_best(weights@, values@, i as nat, x));
                    }
                }
            }
        }
        i = i + 1;
    }
    dp[cap]
}

} // verus!
