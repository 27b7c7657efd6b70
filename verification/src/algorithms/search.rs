use vstd::prelude::*;

verus! {

/// A sequence is sorted in nondecreasing order.
pub open spec fn sorted_nondecreasing(s: Seq<i32>) -> bool {
    forall|i: int, j: int| 0 <= i <= j < s.len() ==> s[i] <= s[j]
}

/// Binary search on a sorted nondecreasing slice.
///
/// Returns `Some(i)` with `arr[i] == target` if found, otherwise `None`.
/// If the target appears multiple times, any matching index is acceptable.
/// On an unsorted slice a returned index still points at `target`.
pub fn binary_search(arr: &[i32], target: i32) -> (res: Option<usize>)
    ensures
        res matches Some(i) ==> i < arr.len() && arr[i as int] == target,
        sorted_nondecreasing(arr@) ==> (res is None <==> !arr@.contains(target)),
{
    let mut lo: usize = 0;
    let mut hi: usize = arr.len();
    while lo < hi
        invariant
            lo <= hi <= arr.len(),
            sorted_nondecreasing(arr@) ==> forall|k: int|
                0 <= k < arr.len() && arr[k] == target ==> lo <= k < hi,
        decreases hi - lo,
    {
        let mid = lo + (hi - lo) / 2;
        if arr[mid] == target {
            return Some(mid);
        }
        if arr[mid] < target {
            lo = mid + 1;
        } else {
            hi = mid;
        }
    }
    None
}

} // verus!
