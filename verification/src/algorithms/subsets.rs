//! Exhaustive search over item subsets encoded as bit masks: the oracles that
//! check the knapsack dynamic programme and greedy interval scheduling.

use vstd::prelude::*;
use crate::algorithms::dp::knap_best;

verus! {

/// Bit `j` of `x` is set.
pub open spec fn has_bit(x: u32, j: u32) -> bool {
    x & (1u32 << j) != 0u32
}

/// Number of masks over `n` items.
pub open spec fn mask_count(n: nat) -> int {
    (1u32 << (n as u32)) as int
}

/// Sum of `xs[j]` over the items `j < k` whose bit is set in `mask`.
pub open spec fn mask_sum(xs: Seq<u32>, mask: u32, k: nat) -> int
    decreases k,
{
    if k == 0 {
        0
    } else {
        mask_sum(xs, mask, (k - 1) as nat) + if has_bit(mask, (k - 1) as u32) {
            xs[k - 1] as int
        } else {
            0
        }
    }
}

/// Value of the subset `x` of the first `k` items if its weight fits in
/// `cap`, else zero.
pub open spec fn subset_score(weights: Seq<u32>, values: Seq<u32>, k: nat, cap: int, x: int) -> int {
    if mask_sum(weights, x as u32, k) <= cap {
        mask_sum(values, x as u32, k)
    } else {
        0
    }
}

/// Largest of zero and `f(x)` for `lo <= x < hi`.
pub open spec fn range_max(f: spec_fn(int) -> int, lo: int, hi: int) -> int
    decreases hi - lo,
{
    if hi <= lo {
        0
    } else {
        let r = range_max(f, lo, hi - 1);
        if f(hi - 1) > r {
            f(hi - 1)
        } else {
            r
        }
    }
}

/// Best value of a subset of the first `k` items whose weight fits in `cap`.
pub open spec fn subset_best(weights: Seq<u32>, values: Seq<u32>, k: nat, cap: int) -> int {
    range_max(|x: int| subset_score(weights, values, k, cap, x), 0, mask_count(k))
}

/// The running best over the first `m` masks, kept in a `u32` as the
/// search does: a better value replaces it, truncated to 32 bits.
pub open spec fn scan_best(weights: Seq<u32>, values: Seq<u32>, k: nat, cap: int, m: nat) -> u32
    decreases m,
{
    if m == 0 {
        0
    } else {
        let prev = scan_best(weights, values, k, cap, (m - 1) as nat);
        let x = (m - 1) as u32;
        if mask_sum(weights, x, k) <= cap && mask_sum(values, x, k) > prev {
            mask_sum(values, x, k) as u32
        } else {
            prev
        }
    }
}

/// Number of items the search looks at: at most sixteen.
pub open spec fn searched_items(len: nat) -> nat {
    if len < 16 {
        len
    } else {
        16
    }
}

proof fn lemma_range_max_nonneg(f: spec_fn(int) -> int, lo: int, hi: int)
    ensures
        range_max(f, lo, hi) >= 0,
    decreases hi - lo,
{
    if hi > lo {
        lemma_range_max_nonneg(f, lo, hi - 1);
    }
}

proof fn lemma_range_max_mono(f: spec_fn(int) -> int, lo: int, hi1: int, hi2: int)
    requires
        hi1 <= hi2,
    ensures
        range_max(f, lo, hi1) <= range_max(f, lo, hi2),
    decreases hi2 - hi1,
{
    if hi1 < hi2 {
        lemma_range_max_mono(f, lo, hi1, hi2 - 1);
        if hi2 - 1 < lo {
            lemma_range_max_nonneg(f, lo, hi1);
        }
    }
}

/// The maximum over a range is the larger of the maxima over its halves.
proof fn lemma_range_max_split(f: spec_fn(int) -> int, lo: int, mid: int, hi: int)
    requires
        lo <= mid <= hi,
    ensures
        range_max(f, lo, hi) == if range_max(f, lo, mid) > range_max(f, mid, hi) {
            range_max(f, lo, mid)
        } else {
            range_max(f, mid, hi)
        },
    decreases hi - mid,
{
    lemma_range_max_nonneg(f, lo, mid);
    if hi > mid {
        lemma_range_max_split(f, lo, mid, hi - 1);
    }
}

/// Shifting the range and the function together keeps the maximum.
proof fn lemma_range_max_shift(f: spec_fn(int) -> int, g: spec_fn(int) -> int, lo: int, hi: int, off: int)
    requires
        forall|x: int| lo <= x < hi ==> #[trigger] g(x) == f(x + off),
    ensures
        range_max(f, lo + off, hi + off) == range_max(g, lo, hi),
    decreases hi - lo,
{
    if hi > lo {
        lemma_range_max_shift(f, g, lo, hi - 1, off);
        assert(g(hi - 1) == f(hi - 1 + off));
    }
}

/// A function that is never positive has maximum zero.
proof fn lemma_range_max_zero(f: spec_fn(int) -> int, lo: int, hi: int)
    requires
        forall|x: int| lo <= x < hi ==> #[trigger] f(x) <= 0,
    ensures
        range_max(f, lo, hi) == 0,
    decreases hi - lo,
{
    if hi > lo {
        lemma_range_max_zero(f, lo, hi - 1);
    }
}

/// Adding `v` to every admitted value, where the first point is admitted,
/// adds `v` to the maximum.
proof fn lemma_range_max_plus(
    g: spec_fn(int) -> int,
    h: spec_fn(int) -> int,
    p: spec_fn(int) -> bool,
    v: int,
    m: int,
)
    requires
        m >= 1,
        v >= 0,
        p(0),
        forall|y: int| 0 <= y < m ==> #[trigger] h(y) >= 0,
        forall|y: int| 0 <= y < m && !p(y) ==> #[trigger] h(y) == 0,
        forall|y: int| 0 <= y < m ==> #[trigger] g(y) == if p(y) { h(y) + v } else { 0 },
    ensures
        range_max(g, 0, m) == range_max(h, 0, m) + v,
    decreases m,
{
    if m == 1 {
        assert(g(0) == h(0) + v);
        assert(range_max(g, 0, 0) == 0);
        assert(range_max(h, 0, 0) == 0);
    } else {
        lemma_range_max_plus(g, h, p, v, m - 1);
        lemma_range_max_nonneg(h, 0, m - 1);
        assert(g(m - 1) == if p(m - 1) { h(m - 1) + v } else { 0 });
        assert(h(m - 1) >= 0);
    }
}

/// The search's running best is the true maximum whenever that fits in 32 bits.
proof fn lemma_scan_is_max(weights: Seq<u32>, values: Seq<u32>, k: nat, cap: int, m: nat)
    requires
        range_max(|x: int| subset_score(weights, values, k, cap, x), 0, m as int) <= u32::MAX,
        m <= u32::MAX + 1,
    ensures
        scan_best(weights, values, k, cap, m) == range_max(|x: int| subset_score(weights, values, k, cap, x), 0, m as int),
    decreases m,
{
    let f = |x: int| subset_score(weights, values, k, cap, x);
    if m > 0 {
        lemma_range_max_mono(f, 0, m - 1, m as int);
        lemma_scan_is_max(weights, values, k, cap, (m - 1) as nat);
        lemma_range_max_nonneg(f, 0, m - 1);
        let x = (m - 1) as u32;
        assert(x as int == m - 1);
        assert(f(m - 1) == subset_score(weights, values, k, cap, m - 1));
    }
}

/// Facts about `1 << n` for the mask counts in use.
proof fn lemma_mask_count(n: nat)
    requires
        n < 31,
    ensures
        mask_count(n) >= 1,
        mask_count(n + 1) == 2 * mask_count(n),
        n <= 16 ==> mask_count(n) <= 65536,
        mask_count(0) == 1,
{
    let m = n as u32;
    assert(m < 31 ==> (1u32 << ((m + 1) as u32)) == 2 * (1u32 << m)) by (bit_vector);
    assert(m < 31 ==> (1u32 << m) >= 1) by (bit_vector);
    assert(m <= 16 ==> (1u32 << m) <= 65536) by (bit_vector);
    assert((1u32 << 0u32) == 1) by (bit_vector);
    assert((n + 1) as u32 == (m + 1) as u32);
}

/// Masks below `1 << k` and the same masks with bit `k` added agree on the
/// bits below `k`; only the second has bit `k`.
proof fn lemma_high_bit(y: u32, k: u32, j: u32)
    requires
        k < 31,
        y < (1u32 << k),
    ensures
        !has_bit(y, k),
        has_bit((y + (1u32 << k)) as u32, k),
        j < k ==> has_bit((y + (1u32 << k)) as u32, j) == has_bit(y, j),
{
    assert(k < 31 && y < (1u32 << k) ==> y & (1u32 << k) == 0u32) by (bit_vector);
    assert(k < 31 && y < (1u32 << k) ==> ((y + (1u32 << k)) as u32) & (1u32 << k) != 0u32) by (bit_vector);
    assert(k < 31 && y < (1u32 << k) && j < k ==> (((y + (1u32 << k)) as u32) & (1u32 << j) != 0u32) == (y & (1u32 << j) != 0u32)) by (bit_vector);
}

/// Adding bit `k` to a mask below `1 << k` leaves the sums over the first `j <= k` items alone.
proof fn lemma_mask_sum_low(xs: Seq<u32>, y: u32, k: u32, j: nat)
    requires
        k < 31,
        y < (1u32 << k),
        j <= k,
    ensures
        mask_sum(xs, (y + (1u32 << k)) as u32, j) == mask_sum(xs, y, j),
    decreases j,
{
    if j > 0 {
        lemma_mask_sum_low(xs, y, k, (j - 1) as nat);
        lemma_high_bit(y, k, (j - 1) as u32);
    }
}

/// Sums over masks lie between zero and `k` times the largest `u32`.
proof fn lemma_mask_sum_bounds(xs: Seq<u32>, mask: u32, k: nat)
    ensures
        0 <= mask_sum(xs, mask, k) <= k * 0xffff_ffff,
    decreases k,
{
    if k > 0 {
        lemma_mask_sum_bounds(xs, mask, (k - 1) as nat);
    }
}

/// Exhaustive search over all subsets of the first `k` items finds the same
/// best value as the knapsack recurrence.
proof fn lemma_subsets_match_recurrence(weights: Seq<u32>, values: Seq<u32>, k: nat, cap: int)
    requires
        k <= 16,
        k <= weights.len(),
        k <= values.len(),
        cap >= 0,
    ensures
        subset_best(weights, values, k, cap) == knap_best(weights, values, k, cap),
    decreases k,
{
    let f = |x: int| subset_score(weights, values, k, cap, x);
    if k == 0 {
        lemma_mask_count(0);
        assert(f(0) == 0);
        assert(range_max(f, 0, 0) == 0);
    } else {
        let p = (k - 1) as nat;
        let kk = p as u32;
        let big = mask_count(p);
        lemma_mask_count(p);
        assert(big == (1u32 << kk) as int);
        lemma_range_max_split(f, 0, big, 2 * big);
        // masks without bit p
        let f0 = |x: int| subset_score(weights, values, p, cap, x);
        assert forall|x: int| 0 <= x < big implies #[trigger] f0(x) == f(x + 0) by {
            let y = x as u32;
            assert(y < (1u32 << kk));
            lemma_high_bit(y, kk, 0);
            assert(mask_sum(weights, y, k) == mask_sum(weights, y, p));
            assert(mask_sum(values, y, k) == mask_sum(values, y, p));
        }
        lemma_range_max_shift(f, f0, 0, big, 0);
        lemma_subsets_match_recurrence(weights, values, p, cap);
        // masks with bit p
        let wk = weights[p as int] as int;
        let vk = values[p as int] as int;
        let g = |y: int| if mask_sum(weights, y as u32, p) + wk <= cap { mask_sum(values, y as u32, p) + vk } else { 0 };
        assert forall|y: int| 0 <= y < big implies #[trigger] g(y) == f(y + big) by {
            let yy = y as u32;
            assert(yy < (1u32 << kk));
            lemma_high_bit(yy, kk, 0);
            lemma_mask_sum_low(weights, yy, kk, p);
            lemma_mask_sum_low(values, yy, kk, p);
            assert(((y + big) as u32) == (yy + (1u32 << kk)) as u32);
        }
        lemma_range_max_shift(f, g, 0, big, big);
        if wk <= cap {
            let h = |y: int| subset_score(weights, values, p, cap - wk, y);
            let q = |y: int| mask_sum(weights, y as u32, p) <= cap - wk;
            assert forall|y: int| 0 <= y < big implies #[trigger] h(y) >= 0 by {
                lemma_mask_sum_bounds(values, y as u32, p);
            }
            assert(q(0)) by {
                assert(0u32 & (1u32 << 0u32) == 0u32) by (bit_vector);
                lemma_mask_sum_zero(weights, p);
            }
            lemma_range_max_plus(g, h, q, vk, big);
            lemma_subsets_match_recurrence(weights, values, p, cap - wk);
        } else {
            assert forall|y: int| 0 <= y < big implies #[trigger] g(y) <= 0 by {
                lemma_mask_sum_bounds(weights, y as u32, p);
            }
            lemma_range_max_zero(g, 0, big);
        }
        lemma_range_max_nonneg(f0, 0, big);
    }
}

/// The empty mask sums to zero.
proof fn lemma_mask_sum_zero(xs: Seq<u32>, k: nat)
    requires
        k <= 32,
    ensures
        mask_sum(xs, 0u32, k) == 0,
    decreases k,
{
    if k > 0 {
        lemma_mask_sum_zero(xs, (k - 1) as nat);
        let j = (k - 1) as u32;
        assert(j < 32 ==> 0u32 & (1u32 << j) == 0u32) by (bit_vector);
    }
}

/// Exhaustive 0/1 knapsack over the first (at most sixteen) items: tries every
/// subset as a bit mask and keeps the best value whose weight fits.
///
/// The best value is kept in a `u32`; when it fits there, it is the best
/// value of any subset of those items that fits in `capacity`.
pub fn exhaustive_knapsack(weights: &[u32], values: &[u32], capacity: u32) -> (best: u32)
    requires
        values@.len() >= searched_items(weights@.len()),
    ensures
        best == scan_best(weights@, values@, searched_items(weights@.len()), capacity as int,
            mask_count(searched_items(weights@.len())) as nat),
        subset_best(weights@, values@, searched_items(weights@.len()), capacity as int) <= u32::MAX
            ==> best == subset_best(weights@, values@, searched_items(weights@.len()), capacity as int),
{
    let n: usize = if weights.len() < 16 { weights.len() } else { 16 };
    let ghost k = n as nat;
    proof {
        lemma_mask_count(k);
    }
    let count: u32 = 1u32 << (n as u32);
    let mut best: u32 = 0;
    let mut mask: u32 = 0;
    while mask < count
        invariant
            n == searched_items(weights@.len()),
            n <= 16,
            n <= weights@.len(),
            n <= values@.len(),
            count as int == mask_count(k),
            k == n,
            count <= 65536,
            mask <= count,
            best == scan_best(weights@, values@, k, capacity as int, mask as nat),
        decreases count - mask,
    {
        let mut w: u64 = 0;
        let mut v: u64 = 0;
        let mut i: usize = 0;
        while i < n
            invariant
                n <= 16,
                n <= weights@.len(),
                n <= values@.len(),
                i <= n,
                w == mask_sum(weights@, mask, i as nat),
                v == mask_sum(values@, mask, i as nat),
            decreases n - i,
        {
            proof {
                lemma_mask_sum_bounds(weights@, mask, i as nat);
                lemma_mask_sum_bounds(values@, mask, i as nat);
            }
            if mask & (1u32 << (i as u32)) != 0 {
                w = w + weights[i] as u64;
                v = v + values[i] as u64;
            }
            i = i + 1;
        }
        if w <= capacity as u64 && v > best as u64 {
            best = v as u32;
        }
        mask = mask + 1;
    }
    proof {
        if subset_best(weights@, values@, k, capacity as int) <= u32::MAX {
            lemma_scan_is_max(weights@, values@, k, capacity as int, mask_count(k) as nat);
        }
    }
    best
}

/// The knapsack dynamic programme and exhaustive search over subsets agree:
/// for at most sixteen items, the best value of a subset that fits in the
/// capacity is the value of the knapsack recurrence.
pub proof fn lemma_knapsack_agrees_with_exhaustive(weights: Seq<u32>, values: Seq<u32>, capacity: u32)
    requires
        weights.len() == values.len(),
        weights.len() <= 16,
    ensures
        subset_best(weights, values, searched_items(weights.len()), capacity as int)
            == knap_best(weights, values, weights.len(), capacity as int),
{
    lemma_subsets_match_recurrence(weights, values, weights.len(), capacity as int);
}

/// The intervals among the first `k` whose bit is set in `mask`, in input order.
pub open spec fn picked(intervals: Seq<(i32, i32)>, mask: u32, k: nat) -> Seq<(i32, i32)>
    decreases k,
{
    if k == 0 {
        Seq::empty()
    } else {
        let p = picked(intervals, mask, (k - 1) as nat);
        if has_bit(mask, (k - 1) as u32) {
            p.push(intervals[k - 1])
        } else {
            p
        }
    }
}

/// Inserts `x` behind the last element, counted from the back, whose start
/// is at most that of `x`.
pub open spec fn insert_by_start(s: Seq<(i32, i32)>, x: (i32, i32)) -> Seq<(i32, i32)>
    decreases s.len(),
{
    if s.len() == 0 {
        seq![x]
    } else if s.last().0 <= x.0 {
        s.push(x)
    } else {
        insert_by_start(s.drop_last(), x).push(s.last())
    }
}

/// `s` sorted by start point, intervals with equal starts in input order.
pub open spec fn sort_by_start(s: Seq<(i32, i32)>) -> Seq<(i32, i32)>
    decreases s.len(),
{
    if s.len() == 0 {
        s
    } else {
        insert_by_start(sort_by_start(s.drop_last()), s.last())
    }
}

/// Each interval ends no later than the next one starts.
pub open spec fn chain_ok(s: Seq<(i32, i32)>) -> bool {
    forall|a: int| 0 < a < s.len() ==> (#[trigger] s[a - 1]).1 <= s[a].0
}

/// Size of the subset `x` of the first `k` intervals if, sorted by start,
/// its intervals follow one another; zero otherwise.
pub open spec fn interval_score(intervals: Seq<(i32, i32)>, k: nat, x: int) -> int {
    let c = sort_by_start(picked(intervals, x as u32, k));
    if chain_ok(c) {
        c.len() as int
    } else {
        0
    }
}

/// Largest subset of the first `k` intervals whose members, sorted by start,
/// follow one another.
pub open spec fn interval_subset_best(intervals: Seq<(i32, i32)>, k: nat) -> int {
    range_max(|x: int| interval_score(intervals, k, x), 0, mask_count(k))
}

/// Where the elements from `p` on start after `x` and the one before does
/// not, `x` goes in at `p`.
proof fn lemma_insert_at(s: Seq<(i32, i32)>, x: (i32, i32), p: int)
    requires
        0 <= p <= s.len(),
        forall|q: int| p <= q < s.len() ==> (#[trigger] s[q]).0 > x.0,
        p == 0 || s[p - 1].0 <= x.0,
    ensures
        insert_by_start(s, x) == s.take(p).push(x) + s.skip(p),
    decreases s.len(),
{
    if s.len() == p {
        assert(s.skip(p) =~= Seq::<(i32, i32)>::empty());
        assert(s.take(p) =~= s);
        if p == 0 {
            assert(s.take(p).push(x) + s.skip(p) =~= seq![x]);
        } else {
            assert(s.take(p).push(x) + s.skip(p) =~= s.push(x));
        }
    } else {
        lemma_insert_at(s.drop_last(), x, p);
        assert(s.drop_last().take(p) =~= s.take(p));
        assert((s.take(p).push(x) + s.drop_last().skip(p)).push(s.last()) =~= s.take(p).push(x) + s.skip(p));
    }
}

/// Inserts `x` into `out` as `insert_by_start` does.
fn insert_interval(out: &mut Vec<(i32, i32)>, x: (i32, i32))
    ensures
        final(out)@ == insert_by_start(old(out)@, x),
{
    let ghost before = out@;
    let len = out.len();
    out.push(x);
    let mut j: usize = len;
    while j > 0 && out[j - 1].0 > x.0
        invariant
            before.len() == len,
            out@.len() == len + 1,
            j <= len,
            forall|q: int| 0 <= q < j ==> #[trigger] out@[q] == before[q],
            forall|q: int| j < q <= len ==> #[trigger] out@[q] == before[q - 1],
            forall|q: int| j <= q < len ==> (#[trigger] before[q]).0 > x.0,
        decreases j,
    {
        let y = out[j - 1];
        out.set(j, y);
        j = j - 1;
    }
    out.set(j, x);
    proof {
        lemma_insert_at(before, x, j as int);
        assert(out@ =~= before.take(j as int).push(x) + before.skip(j as int));
    }
}

/// Sorts intervals by start point, keeping equal starts in input order.
fn sorted_by_start(s: &Vec<(i32, i32)>) -> (out: Vec<(i32, i32)>)
    ensures
        out@ == sort_by_start(s@),
{
    let mut out: Vec<(i32, i32)> = Vec::new();
    let mut i: usize = 0;
    assert(s@.take(0) =~= Seq::<(i32, i32)>::empty());
    while i < s.len()
        invariant
            i <= s@.len(),
            out@ == sort_by_start(s@.take(i as int)),
        decreases s@.len() - i,
    {
        insert_interval(&mut out, s[i]);
        assert(s@.take(i + 1).drop_last() =~= s@.take(i as int));
        i = i + 1;
    }
    assert(s@.take(s@.len() as int) =~= s@);
    out
}

/// Whether each interval ends no later than the next one starts.
fn follows_on(s: &Vec<(i32, i32)>) -> (ok: bool)
    ensures
        ok == chain_ok(s@),
{
    let mut i: usize = 1;
    while i < s.len()
        invariant
            1 <= i,
            forall|a: int| 0 < a < i && a < s@.len() ==> (#[trigger] s@[a - 1]).1 <= s@[a].0,
        decreases s@.len() - i,
    {
        if s[i - 1].1 > s[i].0 {
            return false;
        }
        i = i + 1;
    }
    true
}

/// Exhaustive interval scheduling over the first (at most sixteen)
/// intervals: tries every subset as a bit mask, sorts it by start point and
/// keeps the largest whose intervals follow one another.
pub fn exhaustive_oracle(intervals: &[(i32, i32)]) -> (best: usize)
    ensures
        best == interval_subset_best(intervals@, searched_items(intervals@.len())),
{
    let ghost f = |x: int| interval_score(intervals@, searched_items(intervals@.len()), x);
    let n = intervals.len();
    if n == 0 {
        proof {
            lemma_mask_count(0);
            assert(picked(intervals@, 0u32, 0) =~= Seq::<(i32, i32)>::empty());
            assert(f(0) == 0);
            assert(range_max(f, 0, 0) == 0);
        }
        return 0;
    }
    let n_small: usize = if n < 16 { n } else { 16 };
    let ghost k = n_small as nat;
    proof {
        lemma_mask_count(k);
    }
    let count: u32 = 1u32 << (n_small as u32);
    let mut best: usize = 0;
    let mut mask: u32 = 0;
    while mask < count
        invariant
            n == intervals@.len(),
            k == n_small,
            n_small == searched_items(intervals@.len()),
            n_small <= n,
            n_small <= 16,
            count as int == mask_count(k),
            count <= 65536,
            mask <= count,
            f == (|x: int| interval_score(intervals@, k, x)),
            best == range_max(f, 0, mask as int),
            best <= 16,
        decreases count - mask,
    {
        let mut chosen: Vec<(i32, i32)> = Vec::new();
        let mut i: usize = 0;
        while i < n_small
            invariant
                n_small <= n,
                n_small <= 16,
                n == intervals@.len(),
                i <= n_small,
                chosen@ == picked(intervals@, mask, i as nat),
                chosen@.len() <= i,
            decreases n_small - i,
        {
            if mask & (1u32 << (i as u32)) != 0 {
                chosen.push(intervals[i]);
            }
            i = i + 1;
        }
        let sorted = sorted_by_start(&chosen);
        proof {
            lemma_sort_len(chosen@);
        }
        let ok = follows_on(&sorted);
        proof {
            lemma_range_max_nonneg(f, 0, mask as int);
            assert(mask as u32 == mask);
            assert(f(mask as int) == interval_score(intervals@, k, mask as int));
        }
        if ok && sorted.len() > best {
            best = sorted.len();
        }
        mask = mask + 1;
    }
    best
}

/// Inserting adds one element.
proof fn lemma_insert_len(s: Seq<(i32, i32)>, x: (i32, i32))
    ensures
        insert_by_start(s, x).len() == s.len() + 1,
    decreases s.len(),
{
    if s.len() > 0 && s.last().0 > x.0 {
        lemma_insert_len(s.drop_last(), x);
    }
}

/// Sorting keeps the length.
proof fn lemma_sort_len(s: Seq<(i32, i32)>)
    ensures
        sort_by_start(s).len() == s.len(),
    decreases s.len(),
{
    if s.len() > 0 {
        lemma_sort_len(s.drop_last());
        lemma_insert_len(sort_by_start(s.drop_last()), s.last());
    }
}

} // verus!
