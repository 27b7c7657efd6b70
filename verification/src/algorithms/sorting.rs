use vstd::prelude::*;
use vstd::slice::slice_to_vec;
use crate::algorithms::search::sorted_nondecreasing;

verus! {

broadcast use vstd::seq_lib::group_to_multiset_ensures;

/// `b` holds the same elements as `a`, with the same multiplicities.
pub open spec fn is_permutation_of(a: Seq<i32>, b: Seq<i32>) -> bool {
    a.to_multiset() =~= b.to_multiset()
}

/// In-place insertion sort by adjacent swaps.
pub fn insertion_sort(arr: &mut [i32])
    ensures
        final(arr)@.len() == old(arr)@.len(),
        sorted_nondecreasing(final(arr)@),
        is_permutation_of(old(arr)@, final(arr)@),
{
    let n = arr.len();
    let ghost orig = arr@;
    if n == 0 {
        return;
    }
    let mut i: usize = 1;
    while i < n
        invariant
            n == arr@.len(),
            1 <= i <= n,
            orig.len() == n,
            orig.to_multiset() =~= arr@.to_multiset(),
            forall|a: int, b: int| 0 <= a <= b < i ==> arr@[a] <= arr@[b],
        decreases n - i,
    {
        let mut j: usize = i;
        while j > 0 && arr[j - 1] > arr[j]
            invariant
                n == arr@.len(),
                1 <= i < n,
                0 <= j <= i,
                orig.to_multiset() =~= arr@.to_multiset(),
                forall|a: int, b: int| 0 <= a <= b < j ==> arr@[a] <= arr@[b],
                forall|a: int, b: int| j <= a <= b <= i ==> arr@[a] <= arr@[b],
                forall|a: int, b: int| 0 <= a < j && j < b <= i ==> arr@[a] <= arr@[b],
            decreases j,
        {
            let ghost before = arr@;
            let x = arr[j - 1];
            let y = arr[j];
            arr[j - 1] = y;
            arr[j] = x;
            proof {
                let mid = before.update(j - 1, y);
                assert(arr@ == mid.update(j as int, x));
                assert(mid.to_multiset() == before.to_multiset().insert(y).remove(x));
                assert(arr@.to_multiset() == mid.to_multiset().insert(x).remove(y));
                assert(arr@.to_multiset() =~= before.to_multiset());
            }
            j = j - 1;
        }
        i = i + 1;
    }
}

/// The slice is sorted in nondecreasing order.
pub fn is_sorted(arr: &[i32]) -> (res: bool)
    ensures
        res == sorted_nondecreasing(arr@),
{
    let n = arr.len();
    if n < 2 {
        return true;
    }
    let mut k: usize = 0;
    while k + 1 < n
        invariant
            n == arr.len(),
            n >= 2,
            0 <= k < n,
            forall|a: int, b: int| 0 <= a <= b <= k ==> arr@[a] <= arr@[b],
        decreases n - k,
    {
        if arr[k] > arr[k + 1] {
            return false;
        }
        k = k + 1;
    }
    true
}

/// Two sorted sequences with the same multiset of elements are equal.
pub proof fn lemma_sorted_same_multiset_equal(s1: Seq<i32>, s2: Seq<i32>)
    requires
        sorted_nondecreasing(s1),
        sorted_nondecreasing(s2),
        s1.to_multiset() =~= s2.to_multiset(),
    ensures
        s1 =~= s2,
    decreases s1.len(),
{
    assert(s1.len() == s1.to_multiset().len());
    assert(s2.len() == s2.to_multiset().len());
    if s1.len() > 0 {
        assert(s1.to_multiset().count(s1[0]) > 0);
        assert(s2.contains(s1[0]));
        let k2 = choose|k: int| 0 <= k < s2.len() && s2[k] == s1[0];
        assert(s2[0] <= s1[0]);
        assert(s1.to_multiset().count(s2[0]) > 0);
        assert(s1.contains(s2[0]));
        let k1 = choose|k: int| 0 <= k < s1.len() && s1[k] == s2[0];
        assert(s1[0] <= s2[0]);
        assert(s1.remove(0) =~= s1.drop_first());
        assert(s2.remove(0) =~= s2.drop_first());
        assert(s1.drop_first().to_multiset() =~= s2.drop_first().to_multiset());
        lemma_sorted_same_multiset_equal(s1.drop_first(), s2.drop_first());
        assert(s1 =~= seq![s1[0]] + s1.drop_first());
        assert(s2 =~= seq![s2[0]] + s2.drop_first());
    }
}

/// Two slices hold the same elements with the same multiplicities.
pub fn is_permutation(a: &[i32], b: &[i32]) -> (res: bool)
    ensures
        res == is_permutation_of(a@, b@),
{
    let ax = merge_sort(a);
    let bx = merge_sort(b);
    if ax.len() != bx.len() {
        proof {
            assert(a@.len() == a@.to_multiset().len());
            assert(b@.len() == b@.to_multiset().len());
        }
        return false;
    }
    let mut k: usize = 0;
    while k < ax.len()
        invariant
            ax@.len() == bx@.len(),
            0 <= k <= ax@.len(),
            sorted_nondecreasing(ax@),
            sorted_nondecreasing(bx@),
            is_permutation_of(a@, ax@),
            is_permutation_of(b@, bx@),
            forall|t: int| 0 <= t < k ==> ax@[t] == bx@[t],
        decreases ax@.len() - k,
    {
        if ax[k] != bx[k] {
            proof {
                if is_permutation_of(a@, b@) {
                    lemma_sorted_same_multiset_equal(ax@, bx@);
                }
            }
            return false;
        }
        k = k + 1;
    }
    assert(ax@ =~= bx@);
    true
}

/// Top-down merge sort. Returns a newly allocated sorted permutation of `arr`.
pub fn merge_sort(arr: &[i32]) -> (out: Vec<i32>)
    ensures
        out@.len() == arr@.len(),
        sorted_nondecreasing(out@),
        is_permutation_of(arr@, out@),
    decreases arr@.len(),
{
    if arr.len() <= 1 {
        return slice_to_vec(arr);
    }
    let mid = arr.len() / 2;
    let left = merge_sort(&arr[0..mid]);
    let right = merge_sort(&arr[mid..arr.len()]);
    proof {
        assert(arr@ =~= arr@.subrange(0, mid as int) + arr@.subrange(mid as int, arr@.len() as int));
        vstd::seq_lib::lemma_multiset_commutative(
            arr@.subrange(0, mid as int),
            arr@.subrange(mid as int, arr@.len() as int),
        );
        vstd::seq_lib::lemma_multiset_commutative(left@, right@);
    }
    merge(&left, &right)
}

/// Stable merge of two sorted slices.
pub fn merge(left: &[i32], right: &[i32]) -> (out: Vec<i32>)
    requires
        sorted_nondecreasing(left@),
        sorted_nondecreasing(right@),
        left@.len() + right@.len() <= usize::MAX,
    ensures
        sorted_nondecreasing(out@),
        out@.to_multiset() =~= (left@ + right@).to_multiset(),
        out@.len() == left@.len() + right@.len(),
{
    let mut out: Vec<i32> = Vec::with_capacity(left.len() + right.len());
    let mut i: usize = 0;
    let mut j: usize = 0;
    while i < left.len() && j < right.len()
        invariant
            0 <= i <= left@.len(),
            0 <= j <= right@.len(),
            sorted_nondecreasing(left@),
            sorted_nondecreasing(right@),
            out@.len() == i + j,
            sorted_nondecreasing(out@),
            out@.to_multiset() =~= (left@.subrange(0, i as int) + right@.subrange(0, j as int)).to_multiset(),
            out@.len() > 0 && i < left@.len() ==> out@.last() <= left@[i as int],
            out@.len() > 0 && j < right@.len() ==> out@.last() <= right@[j as int],
        decreases left@.len() + right@.len() - i - j,
    {
        if left[i] <= right[j] {
            let ghost prev = out@;
            out.push(left[i]);
            proof {
                assert(left@.subrange(0, i + 1) =~= left@.subrange(0, i as int).push(left@[i as int]));
                vstd::seq_lib::lemma_multiset_commutative(left@.subrange(0, i as int), right@.subrange(0, j as int));
                vstd::seq_lib::lemma_multiset_commutative(left@.subrange(0, i + 1), right@.subrange(0, j as int));
            }
            i += 1;
        } else {
            out.push(right[j]);
            proof {
                assert(right@.subrange(0, j + 1) =~= right@.subrange(0, j as int).push(right@[j as int]));
                vstd::seq_lib::lemma_multiset_commutative(left@.subrange(0, i as int), right@.subrange(0, j as int));
                vstd::seq_lib::lemma_multiset_commutative(left@.subrange(0, i as int), right@.subrange(0, j + 1));
            }
            j += 1;
        }
    }
    let ghost mid = out@;
    out.extend_from_slice(&left[i..left.len()]);
    let ghost mid2 = out@;
    out.extend_from_slice(&right[j..right.len()]);
    proof {
        let ls = left@.subrange(i as int, left@.len() as int);
        let rs = right@.subrange(j as int, right@.len() as int);
        assert(out@ =~= mid + ls + rs);
        assert(left@ =~= left@.subrange(0, i as int) + ls);
        assert(right@ =~= right@.subrange(0, j as int) + rs);
        vstd::seq_lib::lemma_multiset_commutative(mid + ls, rs);
        vstd::seq_lib::lemma_multiset_commutative(mid, ls);
        vstd::seq_lib::lemma_multiset_commutative(left@.subrange(0, i as int), right@.subrange(0, j as int));
        vstd::seq_lib::lemma_multiset_commutative(left@.subrange(0, i as int), ls);
        vstd::seq_lib::lemma_multiset_commutative(right@.subrange(0, j as int), rs);
        vstd::seq_lib::lemma_multiset_commutative(left@, right@);
        assert forall|a: int, b: int| 0 <= a <= b < out@.len() implies out@[a] <= out@[b] by {
            if b >= mid.len() && a < mid.len() {
                if b < mid.len() + ls.len() {
                    assert(out@[b] == left@[i + b - mid.len()]);
                } else {
                    assert(out@[b] == right@[j + b - mid.len() - ls.len()]);
                }
            } else if a >= mid.len() + ls.len() || b < mid.len() {
            } else if b < mid.len() + ls.len() {
            } else {
                // a in the left tail, b in the right tail: one of them is empty
                assert(i == left@.len() || j == right@.len());
            }
        }
    }
    out
}

} // verus!
