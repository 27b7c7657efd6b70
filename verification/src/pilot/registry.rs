//! Which instances have a harness adapter, and of which family: seven
//! instances per family, `<family prefix>_001` to `<family prefix>_007`.

use vstd::prelude::*;
use crate::harness::BehaviorError;
use crate::text::{chars_of, string_from_chars, push_all, string_push};

verus! {

/// The algorithm families with a harness adapter.
#[derive(Debug, Clone, Copy, PartialEq, Eq, Structural)]
pub enum Family {
    /// `arrays_binary_search`.
    BinarySearch,
    /// `arrays_max_subarray`.
    MaxSubarray,
    /// `sorting_insertion_sort`.
    InsertionSort,
    /// `sorting_merge_sort`.
    MergeSort,
    /// `graph_dijkstra`.
    Dijkstra,
    /// `graph_bfs_shortest_path`.
    BfsShortestPath,
    /// `greedy_interval_scheduling`.
    IntervalScheduling,
    /// `greedy_coin_change_canonical`.
    CoinChange,
    /// `dp_longest_common_subsequence`.
    Lcs,
    /// `dp_knapsack_01`.
    Knapsack,
    /// `trees_bst_insert`.
    BstInsert,
    /// `trees_lowest_common_ancestor`.
    Lca,
}

/// `id` is `prefix` followed by `_001` to `_007`.
pub open spec fn numbered(id: Seq<char>, prefix: Seq<char>) -> bool {
    &&& id.len() == prefix.len() + 4
    &&& id.take(prefix.len() as int) == prefix
    &&& id[prefix.len() as int] == '_'
    &&& id[prefix.len() + 1int] == '0'
    &&& id[prefix.len() + 2int] == '0'
    &&& '1' <= id[prefix.len() + 3int] <= '7'
}

/// The family whose adapter serves instance `id`, if any.
pub open spec fn registered(id: Seq<char>) -> Option<Family> {
    if numbered(id, "arrays_binary_search"@) {
        Some(Family::BinarySearch)
    } else if numbered(id, "arrays_max_subarray"@) {
        Some(Family::MaxSubarray)
    } else if numbered(id, "sorting_insertion_sort"@) {
        Some(Family::InsertionSort)
    } else if numbered(id, "sorting_merge_sort"@) {
        Some(Family::MergeSort)
    } else if numbered(id, "graph_dijkstra"@) {
        Some(Family::Dijkstra)
    } else if numbered(id, "graph_bfs_shortest_path"@) {
        Some(Family::BfsShortestPath)
    } else if numbered(id, "greedy_interval_scheduling"@) {
        Some(Family::IntervalScheduling)
    } else if numbered(id, "greedy_coin_change_canonical"@) {
        Some(Family::CoinChange)
    } else if numbered(id, "dp_longest_common_subsequence"@) {
        Some(Family::Lcs)
    } else if numbered(id, "dp_knapsack_01"@) {
        Some(Family::Knapsack)
    } else if numbered(id, "trees_bst_insert"@) {
        Some(Family::BstInsert)
    } else if numbered(id, "trees_lowest_common_ancestor"@) {
        Some(Family::Lca)
    } else {
        None
    }
}

/// Whether `id` is `prefix` followed by `_001` to `_007`.
fn is_numbered(id: &[char], prefix: &str) -> (b: bool)
    ensures
        b == numbered(id@, prefix@),
{
    let p = chars_of(prefix);
    let n = p.len();
    if id.len() < 4 || id.len() - 4 != n {
        return false;
    }
    let mut i: usize = 0;
    while i < n
        invariant
            id@.len() == n + 4,
            p@ == prefix@,
            n == p@.len(),
            i <= n,
            forall|j: int| 0 <= j < i ==> id@[j] == p@[j],
        decreases n - i,
    {
        if id[i] != p[i] {
            proof {
                assert(id@.take(n as int)[i as int] != p@[i as int]);
            }
            return false;
        }
        i = i + 1;
    }
    proof {
        assert(id@.take(n as int) =~= p@);
    }
    id[n] == '_' && id[n + 1] == '0' && id[n + 2] == '0' && '1' <= id[n + 3] && id[n + 3] <= '7'
}

/// The family of the adapter registered for `instance_id`; an unknown
/// instance is refused with `UnknownInstance` and the id.
pub fn family_of(instance_id: &str) -> (res: Result<Family, BehaviorError>)
    ensures
        match res {
            Ok(f) => registered(instance_id@) == Some(f),
            Err(BehaviorError::UnknownInstance(id)) => registered(instance_id@) is None && id@ == instance_id@,
            Err(_) => false,
        },
{
    let cs = chars_of(instance_id);
    let id = cs.as_slice();
    if is_numbered(id, "arrays_binary_search") {
        Ok(Family::BinarySearch)
    } else if is_numbered(id, "arrays_max_subarray") {
        Ok(Family::MaxSubarray)
    } else if is_numbered(id, "sorting_insertion_sort") {
        Ok(Family::InsertionSort)
    } else if is_numbered(id, "sorting_merge_sort") {
        Ok(Family::MergeSort)
    } else if is_numbered(id, "graph_dijkstra") {
        Ok(Family::Dijkstra)
    } else if is_numbered(id, "graph_bfs_shortest_path") {
        Ok(Family::BfsShortestPath)
    } else if is_numbered(id, "greedy_interval_scheduling") {
        Ok(Family::IntervalScheduling)
    } else if is_numbered(id, "greedy_coin_change_canonical") {
        Ok(Family::CoinChange)
    } else if is_numbered(id, "dp_longest_common_subsequence") {
        Ok(Family::Lcs)
    } else if is_numbered(id, "dp_knapsack_01") {
        Ok(Family::Knapsack)
    } else if is_numbered(id, "trees_bst_insert") {
        Ok(Family::BstInsert)
    } else if is_numbered(id, "trees_lowest_common_ancestor") {
        Ok(Family::Lca)
    } else {
        Err(BehaviorError::UnknownInstance(string_from_chars(id)))
    }
}


/// The id prefix of the `k`-th family, the families in the order of their
/// prefixes.
pub open spec fn family_prefix(k: int) -> Seq<char> {
    if k == 0 {
        "arrays_binary_search"@
    } else if k == 1 {
        "arrays_max_subarray"@
    } else if k == 2 {
        "dp_knapsack_01"@
    } else if k == 3 {
        "dp_longest_common_subsequence"@
    } else if k == 4 {
        "graph_bfs_shortest_path"@
    } else if k == 5 {
        "graph_dijkstra"@
    } else if k == 6 {
        "greedy_coin_change_canonical"@
    } else if k == 7 {
        "greedy_interval_scheduling"@
    } else if k == 8 {
        "sorting_insertion_sort"@
    } else if k == 9 {
        "sorting_merge_sort"@
    } else if k == 10 {
        "trees_bst_insert"@
    } else {
        "trees_lowest_common_ancestor"@
    }
}

/// The digit `'1'` to `'7'` that numbers the `d`-th instance of a family.
pub open spec fn ordinal_char(d: int) -> char {
    if d == 0 {
        '1'
    } else if d == 1 {
        '2'
    } else if d == 2 {
        '3'
    } else if d == 3 {
        '4'
    } else if d == 4 {
        '5'
    } else if d == 5 {
        '6'
    } else {
        '7'
    }
}

/// The id of the `d`-th instance of the `k`-th family.
pub open spec fn instance_name(k: int, d: int) -> Seq<char> {
    family_prefix(k) + "_00"@ + seq![ordinal_char(d)]
}

proof fn reveal_prefixes()
    ensures
        family_prefix(0).len() == 20 && family_prefix(1).len() == 19 && family_prefix(2).len() == 14
            && family_prefix(3).len() == 29 && family_prefix(4).len() == 23 && family_prefix(5).len() == 14
            && family_prefix(6).len() == 28 && family_prefix(7).len() == 26 && family_prefix(8).len() == 22
            && family_prefix(9).len() == 18 && family_prefix(10).len() == 16 && family_prefix(11).len() == 28,
        family_prefix(2)[0] == 'd' && family_prefix(5)[0] == 'g' && family_prefix(6)[0] == 'g'
            && family_prefix(11)[0] == 't',
        "_00"@ == seq!['_', '0', '0'],
{
    reveal_strlit("arrays_binary_search");
    reveal_strlit("arrays_max_subarray");
    reveal_strlit("dp_knapsack_01");
    reveal_strlit("dp_longest_common_subsequence");
    reveal_strlit("graph_bfs_shortest_path");
    reveal_strlit("graph_dijkstra");
    reveal_strlit("greedy_coin_change_canonical");
    reveal_strlit("greedy_interval_scheduling");
    reveal_strlit("sorting_insertion_sort");
    reveal_strlit("sorting_merge_sort");
    reveal_strlit("trees_bst_insert");
    reveal_strlit("trees_lowest_common_ancestor");
    reveal_strlit("_00");
}

/// The `d`-th id of the `k`-th family is registered.
proof fn lemma_name_registered(k: int, d: int)
    requires
        0 <= k < 12,
        0 <= d < 7,
    ensures
        registered(instance_name(k, d)) is Some,
{
    reveal_prefixes();
    let p = family_prefix(k);
    let id = instance_name(k, d);
    assert(id.take(p.len() as int) =~= p);
    assert(id[p.len() as int] == '_');
    assert(id[p.len() + 1int] == '0');
    assert(id[p.len() + 2int] == '0');
    assert(id[p.len() + 3int] == ordinal_char(d));
    assert(numbered(id, p));
}

/// Every registered id is the id of one of the seven instances of a family.
proof fn lemma_registered_named(id: Seq<char>)
    requires
        registered(id) is Some,
    ensures
        exists|k: int, d: int| 0 <= k < 12 && 0 <= d < 7 && id == instance_name(k, d),
{
    reveal_prefixes();
    let k: int = if numbered(id, family_prefix(0)) {
        0
    } else if numbered(id, family_prefix(1)) {
        1
    } else if numbered(id, family_prefix(2)) {
        2
    } else if numbered(id, family_prefix(3)) {
        3
    } else if numbered(id, family_prefix(4)) {
        4
    } else if numbered(id, family_prefix(5)) {
        5
    } else if numbered(id, family_prefix(6)) {
        6
    } else if numbered(id, family_prefix(7)) {
        7
    } else if numbered(id, family_prefix(8)) {
        8
    } else if numbered(id, family_prefix(9)) {
        9
    } else if numbered(id, family_prefix(10)) {
        10
    } else {
        11
    };
    assert(numbered(id, family_prefix(k)));
    let p = family_prefix(k);
    let c = id[p.len() + 3int];
    let d: int = if c == '1' { 0 } else if c == '2' { 1 } else if c == '3' { 2 } else if c == '4' { 3 }
        else if c == '5' { 4 } else if c == '6' { 5 } else { 6 };
    assert(ordinal_char(d) == c);
    assert(id =~= instance_name(k, d)) by {
        assert(id.take(p.len() as int) == p);
        assert forall|j: int| 0 <= j < id.len() implies id[j] == instance_name(k, d)[j] by {
            if j < p.len() {
                assert(id.take(p.len() as int)[j] == id[j]);
            }
        }
    }
}

/// Ids of two different slots differ.
proof fn lemma_names_distinct(k1: int, d1: int, k2: int, d2: int)
    requires
        0 <= k1 < 12 && 0 <= d1 < 7,
        0 <= k2 < 12 && 0 <= d2 < 7,
        k1 != k2 || d1 != d2,
    ensures
        instance_name(k1, d1) != instance_name(k2, d2),
{
    reveal_prefixes();
    let a = instance_name(k1, d1);
    let b = instance_name(k2, d2);
    if k1 == k2 {
        assert(a[a.len() - 1] != b[b.len() - 1]);
    } else if family_prefix(k1).len() == family_prefix(k2).len() {
        assert(a[0] == family_prefix(k1)[0]);
        assert(b[0] == family_prefix(k2)[0]);
        assert(a[0] != b[0]);
    } else {
        assert(a.len() != b.len());
    }
}

/// The prefix of the `k`-th family.
fn prefix_at(k: usize) -> (s: &'static str)
    requires
        k < 12,
    ensures
        s@ == family_prefix(k as int),
{
    if k == 0 {
        "arrays_binary_search"
    } else if k == 1 {
        "arrays_max_subarray"
    } else if k == 2 {
        "dp_knapsack_01"
    } else if k == 3 {
        "dp_longest_common_subsequence"
    } else if k == 4 {
        "graph_bfs_shortest_path"
    } else if k == 5 {
        "graph_dijkstra"
    } else if k == 6 {
        "greedy_coin_change_canonical"
    } else if k == 7 {
        "greedy_interval_scheduling"
    } else if k == 8 {
        "sorting_insertion_sort"
    } else if k == 9 {
        "sorting_merge_sort"
    } else if k == 10 {
        "trees_bst_insert"
    } else {
        "trees_lowest_common_ancestor"
    }
}

/// The digit numbering the `d`-th instance of a family.
fn ordinal(d: usize) -> (c: char)
    requires
        d < 7,
    ensures
        c == ordinal_char(d as int),
{
    if d == 0 {
        '1'
    } else if d == 1 {
        '2'
    } else if d == 2 {
        '3'
    } else if d == 3 {
        '4'
    } else if d == 4 {
        '5'
    } else if d == 5 {
        '6'
    } else {
        '7'
    }
}

/// Every instance id with an adapter, in sorted order: the seven of each
/// family, the families by prefix. The list holds each registered id once
/// and nothing else.
pub fn registered_instances() -> (ids: Vec<String>)
    ensures
        ids@.len() == 84,
        forall|i: int| 0 <= i < 84 ==> (#[trigger] ids@[i])@ == instance_name(i / 7, i % 7),
        forall|i: int| 0 <= i < ids@.len() ==> registered((#[trigger] ids@[i])@) is Some,
        forall|id: Seq<char>| registered(id) is Some
            ==> exists|i: int| 0 <= i < ids@.len() && (#[trigger] ids@[i])@ == id,
        forall|i: int, j: int| 0 <= i < j < ids@.len() ==> (#[trigger] ids@[i])@ != (#[trigger] ids@[j])@,
{
    let mut ids: Vec<String> = Vec::new();
    let mut i: usize = 0;
    while i < 84
        invariant
            i <= 84,
            ids@.len() == i,
            forall|j: int| 0 <= j < i ==> (#[trigger] ids@[j])@ == instance_name(j / 7, j % 7),
        decreases 84 - i,
    {
        let k = i / 7;
        let d = i % 7;
        let mut s = string_from_chars(&chars_of(prefix_at(k)));
        push_all(&mut s, "_00");
        string_push(&mut s, ordinal(d));
        ids.push(s);
        i = i + 1;
    }
    proof {
        assert forall|a: int| 0 <= a < ids@.len() implies registered((#[trigger] ids@[a])@) is Some by {
            lemma_name_registered(a / 7, a % 7);
        }
        assert forall|id: Seq<char>| registered(id) is Some
            implies exists|a: int| 0 <= a < ids@.len() && (#[trigger] ids@[a])@ == id by {
            lemma_registered_named(id);
            let (k, d) = choose|k: int, d: int| 0 <= k < 12 && 0 <= d < 7 && id == instance_name(k, d);
            let a = 7 * k + d;
            assert(a / 7 == k && a % 7 == d) by (nonlinear_arith)
                requires a == 7 * k + d, 0 <= d < 7, 0 <= k;
            assert(ids@[a]@ == id);
        }
        assert forall|a: int, b: int| 0 <= a < b < ids@.len() implies (#[trigger] ids@[a])@ != (#[trigger] ids@[b])@ by {
            assert(a / 7 != b / 7 || a % 7 != b % 7) by (nonlinear_arith)
                requires 0 <= a < b;
            lemma_names_distinct(a / 7, a % 7, b / 7, b % 7);
        }
    }
    ids
}

} // verus!
