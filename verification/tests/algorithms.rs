use cta_bench::algorithms::bellman_ford::bellman_ford;
use cta_bench::algorithms::coins::{coin_change_canonical, dp_min_coins_sum};
use cta_bench::algorithms::dijkstra::{dijkstra, Edge};
use cta_bench::algorithms::dp::{knapsack_01, lcs_length};
use cta_bench::algorithms::floyd::fw_unweighted;
use cta_bench::algorithms::graph::bfs_shortest_path;
use cta_bench::algorithms::subsets::{exhaustive_knapsack, exhaustive_oracle};
use cta_bench::algorithms::greedy::{interval_scheduling, sort_by_end};
use cta_bench::algorithms::search::binary_search;
use cta_bench::algorithms::sorting::{insertion_sort, is_permutation, is_sorted, merge, merge_sort};
use cta_bench::algorithms::subarray::{max_subarray, quadratic_oracle};
use cta_bench::algorithms::trees::{bst_insert, brute_lca, build, contains, inorder, lca_bst, path_to, Tree};

#[test]
fn binary_search_finds_and_misses() {
    let arr = [1, 3, 3, 5, 9];
    let i = binary_search(&arr, 5).unwrap();
    assert_eq!(arr[i], 5);
    assert_eq!(binary_search(&arr, 4), None);
    assert_eq!(binary_search(&[], 4), None);
    let j = binary_search(&arr, 3).unwrap();
    assert!(j == 1 || j == 2);
}

#[test]
fn max_subarray_matches_quadratic_oracle() {
    let arr = [-2, 1, -3, 4, -1, 2, 1, -5, 4];
    assert_eq!(max_subarray(&arr), 6);
    assert_eq!(quadratic_oracle(&arr), 6);
    assert_eq!(max_subarray(&[-3, -1, -2]), -1);
    assert_eq!(quadratic_oracle(&[-3, -1, -2]), -1);
    assert_eq!(max_subarray(&[7]), 7);
}

#[test]
fn sorts_sort_and_permute() {
    let mut a = [5, -1, 3, 3, 0];
    insertion_sort(&mut a);
    assert_eq!(a, [-1, 0, 3, 3, 5]);
    let m = merge_sort(&[4, 2, 2, 9, -7, 0]);
    assert_eq!(m, vec![-7, 0, 2, 2, 4, 9]);
    assert!(is_sorted(&m));
    assert!(!is_sorted(&[2, 1]));
    assert!(is_permutation(&[1, 2, 2], &[2, 1, 2]));
    assert!(!is_permutation(&[1, 2, 2], &[2, 1, 1]));
    assert_eq!(merge(&[1, 4], &[2, 3, 5]), vec![1, 2, 3, 4, 5]);
    assert_eq!(merge_sort(&[]), Vec::<i32>::new());
}

#[test]
fn dijkstra_shortest_distances() {
    let edges = [
        Edge { src: 0, dst: 1, weight: 4 },
        Edge { src: 0, dst: 2, weight: 1 },
        Edge { src: 2, dst: 1, weight: 2 },
        Edge { src: 1, dst: 3, weight: 5 },
    ];
    assert_eq!(dijkstra(5, 0, &edges), vec![Some(0), Some(3), Some(1), Some(8), None]);
}

#[test]
fn dijkstra_agrees_with_bellman_ford_on_a_dag() {
    let triples = [(0u32, 1u32, 4u32), (0, 2, 1), (2, 1, 2), (1, 3, 5), (2, 3, 9), (3, 4, 0)];
    let edges: Vec<Edge> = triples
        .iter()
        .map(|&(u, v, w)| Edge { src: u as usize, dst: v as usize, weight: w })
        .collect();
    let d = dijkstra(6, 0, &edges);
    let b = bellman_ford(6, 0, &triples);
    assert_eq!(d, b);
    assert_eq!(b, vec![Some(0), Some(3), Some(1), Some(8), Some(8), None]);
}

#[test]
fn bellman_ford_zero_weight_cycle() {
    let triples = [(0u32, 1u32, 0u32), (1, 0, 0), (1, 2, 3)];
    assert_eq!(bellman_ford(3, 1, &triples), vec![Some(0), Some(0), Some(3)]);
}

#[test]
fn bfs_levels() {
    let adj = vec![vec![1, 2], vec![3], vec![3], vec![], vec![0]];
    assert_eq!(bfs_shortest_path(&adj, 0), vec![Some(0), Some(1), Some(1), Some(2), None]);
    assert_eq!(bfs_shortest_path(&adj, 9), vec![None, None, None, None, None]);
}

#[test]
fn interval_scheduling_counts_compatible() {
    assert_eq!(interval_scheduling(&[(1, 3), (2, 5), (4, 7), (6, 9)]), 2);
    assert_eq!(interval_scheduling(&[(0, 1), (1, 2), (2, 3)]), 3);
    assert_eq!(interval_scheduling(&[]), 0);
    assert_eq!(sort_by_end(&[(5, 9), (1, 2), (0, 2)]), vec![(1, 2), (0, 2), (5, 9)]);
    // Equal ends keep input order, so a zero-length interval ending at 5
    // seen first is taken instead of (1, 5).
    assert_eq!(interval_scheduling(&[(5, 5), (1, 5)]), 1);
    assert_eq!(interval_scheduling(&[(1, 5), (5, 5)]), 2);
}

#[test]
fn coin_change_greedy_and_dp() {
    let counts = coin_change_canonical(&[1, 5, 10, 25], 63);
    assert_eq!(counts, vec![3, 0, 1, 2]);
    let paid: u32 = counts.iter().zip([1u32, 5, 10, 25].iter()).map(|(c, d)| c * d).sum();
    assert_eq!(paid, 63);
    assert_eq!(dp_min_coins_sum(&[1, 5, 10, 25], 63), Some(6));
    assert_eq!(coin_change_canonical(&[0, 3], 7), vec![0, 2]);
    assert_eq!(dp_min_coins_sum(&[4, 6], 7), None);
    assert_eq!(dp_min_coins_sum(&[1, 3, 4], 6), Some(2));
    assert_eq!(coin_change_canonical(&[1, 3, 4], 6), vec![2, 0, 1]);
    assert_eq!(dp_min_coins_sum(&[], 0), Some(0));
}

#[test]
fn lcs_and_knapsack() {
    assert_eq!(lcs_length(&[1, 2, 3, 4, 1], &[3, 4, 1, 2, 1, 3]), 3);
    assert_eq!(lcs_length(&[3, 4, 1, 2, 1, 3], &[1, 2, 3, 4, 1]), 3);
    assert_eq!(lcs_length(&[], &[1]), 0);
    assert_eq!(knapsack_01(&[1, 3, 4, 5], &[1, 4, 5, 7], 7), 9);
    assert_eq!(knapsack_01(&[2, 3], &[5, 6], 0), 0);
    assert_eq!(knapsack_01(&[0, 2], &[3, 5], 1), 3);
}

#[test]
fn bst_insert_and_lca() {
    let t = build(Tree::Nil, &[5, 3, 8, 1, 4, 7, 9, 3]);
    let mut io = Vec::new();
    inorder(&t, &mut io);
    assert_eq!(io, vec![1, 3, 4, 5, 7, 8, 9]);
    let t = bst_insert(t, 6);
    let mut io2 = Vec::new();
    inorder(&t, &mut io2);
    assert_eq!(io2, vec![1, 3, 4, 5, 6, 7, 8, 9]);
    assert!(contains(&t, 6));
    assert!(!contains(&t, 2));
    assert_eq!(lca_bst(&t, 1, 4), Some(3));
    assert_eq!(lca_bst(&t, 4, 1), Some(3));
    assert_eq!(lca_bst(&t, 6, 9), Some(8));
    assert_eq!(lca_bst(&t, 1, 9), Some(5));
    assert_eq!(brute_lca(&t, 6, 9), Some(8));
    assert_eq!(brute_lca(&t, 1, 4), Some(3));
    assert_eq!(brute_lca(&t, 2, 4), None);
    assert_eq!(path_to(&t, 6), Some(vec![5, 8, 7, 6]));
    assert_eq!(path_to(&t, 2), None);
    assert_eq!(lca_bst(&Tree::Nil, 1, 2), None);
}

#[test]
fn floyd_matches_bfs() {
    let adj = vec![vec![1, 2], vec![3], vec![3], vec![], vec![0]];
    let expected = vec![Some(0), Some(1), Some(1), Some(2), None];
    assert_eq!(fw_unweighted(&adj, 0), expected);
    assert_eq!(bfs_shortest_path(&adj, 0), expected);
    assert_eq!(fw_unweighted(&adj, 4), vec![Some(1), Some(2), Some(2), Some(3), Some(0)]);
    assert_eq!(fw_unweighted(&adj, 4), bfs_shortest_path(&adj, 4));
    // neighbours outside the graph are skipped
    let odd = vec![vec![1, 7], vec![0]];
    assert_eq!(fw_unweighted(&odd, 1), vec![Some(1), Some(0)]);
    assert_eq!(fw_unweighted(&[], 0), Vec::<Option<usize>>::new());
    let cycle = vec![vec![1], vec![2], vec![3], vec![0]];
    assert_eq!(fw_unweighted(&cycle, 2), vec![Some(2), Some(3), Some(0), Some(1)]);
}

#[test]
fn exhaustive_knapsack_matches_dp() {
    let w = [2, 3, 4, 5];
    let v = [3, 4, 5, 6];
    assert_eq!(exhaustive_knapsack(&w, &v, 5), 7);
    assert_eq!(knapsack_01(&w, &v, 5), 7);
    assert_eq!(exhaustive_knapsack(&w, &v, 0), 0);
    assert_eq!(exhaustive_knapsack(&[], &[], 10), 0);
    assert_eq!(exhaustive_knapsack(&[10], &[99], 9), 0);
    assert_eq!(exhaustive_knapsack(&[10], &[99], 10), 99);
    // only the first sixteen items are searched
    let w20 = [1u32; 20];
    let v20: Vec<u32> = (1..=20).collect();
    assert_eq!(exhaustive_knapsack(&w20, &v20, 20), (1..=16).sum::<u32>());
    assert_eq!(knapsack_01(&w20, &v20, 20), (1..=20).sum::<u32>());
}

#[test]
fn exhaustive_oracle_matches_greedy() {
    let iv = [(1, 4), (3, 5), (0, 6), (5, 7), (3, 9), (5, 9), (6, 10), (8, 11), (8, 12), (2, 14), (12, 16)];
    assert_eq!(exhaustive_oracle(&iv), 4);
    assert_eq!(interval_scheduling(&iv), 4);
    assert_eq!(exhaustive_oracle(&[]), 0);
    assert_eq!(exhaustive_oracle(&[(1, 2)]), 1);
    assert_eq!(exhaustive_oracle(&[(1, 3), (2, 4)]), 1);
    assert_eq!(exhaustive_oracle(&[(1, 3), (3, 4)]), 2);
    // zero-length intervals: the two kinds of search part ways
    assert_eq!(exhaustive_oracle(&[(5, 5), (1, 5)]), 2);
    assert_eq!(interval_scheduling(&[(5, 5), (1, 5)]), 1);
}

#[test]
fn bst_insert_keeps_a_present_key_and_is_idempotent() {
    let t = build(Tree::Nil, &[5, 2, 8, 1, 9]);
    let mut before = Vec::new();
    inorder(&t, &mut before);
    let same = bst_insert(build(Tree::Nil, &[5, 2, 8, 1, 9]), 8);
    assert_eq!(same, t);
    let once = bst_insert(build(Tree::Nil, &[5, 2, 8, 1, 9]), 6);
    let twice = bst_insert(bst_insert(build(Tree::Nil, &[5, 2, 8, 1, 9]), 6), 6);
    assert_eq!(once, twice);
    let mut after = Vec::new();
    inorder(&once, &mut after);
    assert_eq!(before, vec![1, 2, 5, 8, 9]);
    assert_eq!(after, vec![1, 2, 5, 6, 8, 9]);
}

#[test]
fn interval_scheduling_keeps_input_order_among_equal_ends() {
    assert_eq!(interval_scheduling(&[(5, 5), (1, 5)]), 1);
    assert_eq!(interval_scheduling(&[(1, 5), (5, 5)]), 2);
    assert_eq!(sort_by_end(&[(3, 9), (5, 5), (1, 5)]), vec![(5, 5), (1, 5), (3, 9)]);
}
