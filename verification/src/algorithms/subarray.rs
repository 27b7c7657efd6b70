use vstd::prelude::*;

verus! {

/// Sum of the elements `s[i..j)` (zero when the range is empty).
pub open spec fn range_sum(s: Seq<i32>, i: int, j: int) -> int
    decreases j - i,
{
    if j <= i {
        0
    } else {
        range_sum(s, i, j - 1) + s[j - 1]
    }
}

/// `m` is the largest sum of a non-empty contiguous range of `s`.
pub open spec fn is_max_subarray_sum(s: Seq<i32>, m: int) -> bool {
    &&& exists|i: int, j: int| 0 <= i < j <= s.len() && range_sum(s, i, j) == m
    &&& forall|i: int, j: int| 0 <= i < j <= s.len() ==> range_sum(s, i, j) <= m
}

/// Every contiguous range sum of `s` fits in an `i32`.
pub open spec fn range_sums_fit_i32(s: Seq<i32>) -> bool {
    forall|i: int, j: int|
        0 <= i < j <= s.len() ==> i32::MIN <= #[trigger] range_sum(s, i, j) <= i32::MAX
}

/// A one-element range sums to that element.
pub proof fn lemma_range_sum_single(s: Seq<i32>, i: int)
    requires
        0 <= i < s.len(),
    ensures
        range_sum(s, i, i + 1) == s[i],
{
    assert(range_sum(s, i, i) == 0);
}

/// The maximum subarray sum of a sequence is unique.
pub proof fn lemma_max_subarray_sum_unique(s: Seq<i32>, m1: int, m2: int)
    requires
        is_max_subarray_sum(s, m1),
        is_max_subarray_sum(s, m2),
    ensures
        m1 == m2,
{
    let (i1, j1) = choose|i: int, j: int| 0 <= i < j <= s.len() && range_sum(s, i, j) == m1;
    let (i2, j2) = choose|i: int, j: int| 0 <= i < j <= s.len() && range_sum(s, i, j) == m2;
    assert(range_sum(s, i1, j1) <= m2);
    assert(range_sum(s, i2, j2) <= m1);
}

/// The absolute value of a range sum is bounded by the range length times 2^31.
proof fn lemma_range_sum_bound(s: Seq<i32>, i: int, j: int)
    requires
        0 <= i <= j <= s.len(),
    ensures
        -(j - i) * 0x8000_0000 <= range_sum(s, i, j) <= (j - i) * 0x8000_0000,
    decreases j - i,
{
    if j > i {
        lemma_range_sum_bound(s, i, j - 1);
        assert(-(j - i) * 0x8000_0000 == -(j - 1 - i) * 0x8000_0000 - 0x8000_0000) by (nonlinear_arith);
        assert((j - i) * 0x8000_0000 == (j - 1 - i) * 0x8000_0000 + 0x8000_0000) by (nonlinear_arith);
    }
}

/// Maximum-sum contiguous non-empty subslice (Kadane's algorithm).
///
/// The slice must be non-empty, and every contiguous sum must fit in an
/// `i32` (the running sums are `i32`).
pub fn max_subarray(arr: &[i32]) -> (best: i32)
    requires
        arr.len() > 0,
        range_sums_fit_i32(arr@),
    ensures
        is_max_subarray_sum(arr@, best as int),
        forall|k: int| 0 <= k < arr.len() ==> arr[k] <= best,
{
    let ghost s = arr@;
    let mut best: i32 = arr[0];
    let mut cur: i32 = arr[0];
    let ghost mut ci: int = 0;
    let ghost mut bi: int = 0;
    let ghost mut bj: int = 1;
    proof { lemma_range_sum_single(s, 0); }
    let mut k: usize = 1;
    while k < arr.len()
        invariant
            s == arr@,
            1 <= k <= arr.len(),
            range_sums_fit_i32(s),
            0 <= ci < k,
            range_sum(s, ci, k as int) == cur,
            forall|i: int| 0 <= i < k ==> range_sum(s, i, k as int) <= cur,
            0 <= bi < bj <= k,
            range_sum(s, bi, bj) == best,
            forall|i: int, j: int| 0 <= i < j <= k ==> range_sum(s, i, j) <= best,
        decreases arr.len() - k,
    {
        let x = arr[k];
        assert(range_sum(s, ci, k + 1) == cur + x);
        proof { lemma_range_sum_single(s, k as int); }
        if x > cur + x {
            cur = x;
            proof { ci = k as int; }
        } else {
            cur = cur + x;
        }
        assert forall|i: int| 0 <= i < k + 1 implies #[trigger] range_sum(s, i, k + 1) <= cur by {
            if i < k {
                assert(range_sum(s, i, k + 1) == range_sum(s, i, k as int) + x);
            }
        }
        if cur > best {
            best = cur;
            proof {
                bi = ci;
                bj = k + 1;
            }
        }
        k = k + 1;
    }
    assert forall|j: int| 0 <= j < arr.len() implies arr[j] <= best by {
        lemma_range_sum_single(s, j);
    }
    best
}

/// Brute-force maximum subarray sum over every contiguous range, in `i64`.
pub fn quadratic_oracle(arr: &[i32]) -> (best: i64)
    requires
        arr.len() > 0,
        arr.len() <= u32::MAX,
    ensures
        is_max_subarray_sum(arr@, best as int),
{
    let ghost s = arr@;
    let n = arr.len();
    proof { lemma_range_sum_single(s, 0); }
    let mut best: i64 = arr[0] as i64;
    let ghost mut bi: int = 0;
    let ghost mut bj: int = 1;
    let mut i: usize = 0;
    while i < n
        invariant
            s == arr@,
            n == arr.len(),
            n <= u32::MAX,
            0 <= i <= n,
            0 <= bi < bj <= n,
            range_sum(s, bi, bj) == best,
            forall|a: int, b: int| 0 <= a < b <= n && a < i ==> range_sum(s, a, b) <= best,
        decreases n - i,
    {
        let mut sum: i64 = 0;
        let mut j: usize = i;
        while j < n
            invariant
                s == arr@,
                n == arr.len(),
                n <= u32::MAX,
                0 <= i <= j <= n,
                i < n,
                sum == range_sum(s, i as int, j as int),
                0 <= bi < bj <= n,
                range_sum(s, bi, bj) == best,
                forall|a: int, b: int| 0 <= a < b <= n && a < i ==> range_sum(s, a, b) <= best,
                forall|b: int| i < b <= j ==> range_sum(s, i as int, b) <= best,
            decreases n - j,
        {
            proof {
                lemma_range_sum_bound(s, i as int, j + 1);
                assert((j + 1 - i) * 0x8000_0000 <= 0x1_0000_0000int * 0x8000_0000) by (nonlinear_arith)
                    requires j + 1 - i <= 0x1_0000_0000int;
            }
            sum = sum + arr[j] as i64;
            if sum > best {
                best = sum;
                proof {
                    bi = i as int;
                    bj = j + 1;
                }
            }
            j = j + 1;
        }
        i = i + 1;
    }
    best
}

} // verus!
