use cta_bench::harness::BehaviorError;
use cta_bench::pilot::registry::{family_of, registered_instances, Family};
use cta_bench::algorithms::dijkstra::{dijkstra, Edge};
use cta_bench::algorithms::bellman_ford::bellman_ford;
use cta_bench::pilot::families::checks_of;
use cta_bench::pilot::adapters::{run_adapter, GeneratorParams};
use cta_bench::pilot::families::{
    run_binary_search, run_bfs_shortest_path, run_bst_insert, run_coin_change, run_insertion_sort,
    run_dijkstra_trials, run_interval_scheduling, run_knapsack, run_lca, run_lcs, run_max_subarray, run_merge_sort,
};

fn names(v: &[&str]) -> Vec<String> {
    v.iter().map(|s| s.to_string()).collect()
}

#[test]
fn binary_search_is_clean() {
    let checks = names(&["success_index_in_bounds", "success_points_to_target", "failure_if_absent"]);
    let rep = run_binary_search("arrays_binary_search_001", 42, 50, &checks, 0, 32, -100, 100).unwrap();
    assert_eq!(rep.trials_run, 50);
    assert!(!rep.any_falsified(), "{rep:?}");
}

#[test]
fn insertion_sort_is_clean() {
    let checks = names(&["output_is_sorted", "output_is_permutation_of_input", "length_preserved"]);
    let rep = run_insertion_sort("sorting_insertion_sort_001", 17, 50, &checks, 0, 32, -100, 100).unwrap();
    assert!(!rep.any_falsified(), "{rep:?}");
}

#[test]
fn unknown_oracle_is_rejected() {
    let checks = names(&["this_oracle_does_not_exist"]);
    let err = run_binary_search("arrays_binary_search_001", 1, 1, &checks, 0, 1, 0, 0).unwrap_err();
    assert!(matches!(err, BehaviorError::UnknownOracleCheck(_)));
}

#[test]
fn first_unknown_oracle_is_named() {
    let checks = names(&["failure_if_absent", "bogus_one", "bogus_two"]);
    match run_binary_search("arrays_binary_search_001", 1, 1, &checks, 0, 1, 0, 0) {
        Err(BehaviorError::UnknownOracleCheck(name)) => assert_eq!(name, "bogus_one"),
        other => panic!("unexpected {other:?}"),
    }
}

#[test]
fn repeated_check_names_count_once() {
    let checks = names(&["failure_if_absent", "success_index_in_bounds", "failure_if_absent"]);
    let rep = run_binary_search("arrays_binary_search_002", 7, 9, &checks, 0, 8, -5, 5).unwrap();
    assert_eq!(rep.oracle_stats.len(), 3);
    assert_eq!(rep.oracle_stats[0].trials_evaluated, 9);
    assert_eq!(rep.oracle_stats[1].trials_evaluated, 9);
    assert_eq!(rep.oracle_stats[2].trials_evaluated, 0);
    assert_eq!(rep.oracle_stats[2].name, "failure_if_absent");
}

#[test]
fn report_carries_instance_and_seed() {
    let checks = names(&["output_sorted_nondecreasing"]);
    let rep = run_merge_sort("sorting_merge_sort_003", 99, 4, &checks, 0, 16, -3, 3).unwrap();
    assert_eq!(rep.instance_id, "sorting_merge_sort_003");
    assert_eq!(rep.seed, 99);
    assert_eq!(rep.trials_run, 4);
    assert!(!rep.any_falsified());
}

#[test]
fn every_clean_family_is_clean() {
    let bfs = run_bfs_shortest_path(
        "graph_bfs_shortest_path_001",
        3,
        20,
        &names(&["dist_length_matches_n", "dist_source_is_zero", "dist_matches_fw_unweighted", "unreachable_iff_no_path"]),
        1,
        8,
        4,
    )
    .unwrap();
    assert!(!bfs.any_falsified(), "{bfs:?}");
    let knap = run_knapsack(
        "dp_knapsack_01_001",
        5,
        20,
        &names(&["result_matches_exhaustive_oracle", "result_nonnegative", "result_zero_when_capacity_zero_and_weights_positive"]),
        0,
        8,
        0,
        15,
        0,
        20,
        0,
        50,
    )
    .unwrap();
    assert!(!knap.any_falsified(), "{knap:?}");
    let bst = run_bst_insert(
        "trees_bst_insert_001",
        11,
        20,
        &names(&["output_inorder_strictly_ascending", "output_contains_inserted_key", "output_contains_all_input_keys"]),
        0,
        16,
        -20,
        20,
    )
    .unwrap();
    assert!(!bst.any_falsified(), "{bst:?}");
    let lca = run_lca(
        "trees_lowest_common_ancestor_001",
        13,
        20,
        &names(&["returned_key_in_tree", "both_queries_in_subtree_at_returned_key", "result_matches_brute_lca_oracle"]),
        2,
        16,
        -50,
        50,
    )
    .unwrap();
    assert!(!lca.any_falsified(), "{lca:?}");
    let lcs = run_lcs(
        "dp_longest_common_subsequence_001",
        17,
        20,
        &names(&["result_bounded_by_min_length", "result_matches_dp_oracle", "result_symmetric"]),
        0,
        12,
        0,
        6,
    )
    .unwrap();
    assert!(!lcs.any_falsified(), "{lcs:?}");
    let ms = run_max_subarray(
        "arrays_max_subarray_001",
        19,
        20,
        &names(&["result_matches_quadratic_oracle", "result_at_least_max_element", "result_finite"]),
        1,
        32,
        -50,
        50,
    )
    .unwrap();
    assert!(!ms.any_falsified(), "{ms:?}");
}

#[test]
fn interval_and_coin_families_run() {
    let iv = run_interval_scheduling(
        "greedy_interval_scheduling_001",
        23,
        20,
        &names(&["result_matches_exhaustive_oracle", "result_at_most_input_length", "result_nonnegative"]),
        0,
        8,
        0,
        30,
    )
    .unwrap();
    assert_eq!(iv.trials_run, 20);
    assert!(!iv.any_falsified(), "{iv:?}");
    let systems = vec![vec![1, 5, 10, 25], vec![1, 2, 5]];
    let coins = run_coin_change(
        "greedy_coin_change_canonical_001",
        29,
        20,
        &names(&["counts_length_matches_denoms", "weighted_sum_equals_amount", "sum_matches_dp_oracle"]),
        &systems,
        0,
        100,
    )
    .unwrap();
    assert!(!coins.any_falsified(), "{coins:?}");
}

#[test]
fn non_canonical_coin_system_is_blamed_on_the_dp_check() {
    // With coins 1, 3 and 4, six is paid greedily as 4 + 1 + 1 but needs
    // only 3 + 3.
    let systems = vec![vec![1, 3, 4]];
    let rep = run_coin_change(
        "greedy_coin_change_canonical_002",
        0,
        1,
        &names(&["counts_length_matches_denoms", "weighted_sum_equals_amount", "sum_matches_dp_oracle"]),
        &systems,
        6,
        6,
    )
    .unwrap();
    assert_eq!(rep.falsifications.len(), 1);
    let f = &rep.falsifications[0];
    assert_eq!(f.oracle_check, "sum_matches_dp_oracle");
    assert_eq!(f.input_repr, "denoms=[1, 3, 4],amount=6");
    assert_eq!(f.observed, "3");
    assert_eq!(f.expected, "2");
    assert_eq!(rep.oracle_stats[2].violations, 1);
    assert_eq!(rep.oracle_stats[0].violations, 0);
}

#[test]
fn unpayable_amount_is_blamed_on_both_fallible_checks() {
    let systems = vec![vec![2, 5]];
    let rep = run_coin_change(
        "greedy_coin_change_canonical_003",
        0,
        1,
        &names(&["counts_length_matches_denoms", "weighted_sum_equals_amount", "sum_matches_dp_oracle"]),
        &systems,
        3,
        3,
    )
    .unwrap();
    assert_eq!(rep.falsifications.len(), 2);
    assert_eq!(rep.falsifications[0].oracle_check, "weighted_sum_equals_amount");
    assert_eq!(rep.falsifications[0].observed, "2");
    assert_eq!(rep.falsifications[0].expected, "3");
    assert_eq!(rep.falsifications[1].oracle_check, "sum_matches_dp_oracle");
    assert_eq!(rep.falsifications[1].observed, "dp unreachable");
}

#[test]
fn dijkstra_trials_are_clean() {
    let graphs = vec![
        (5usize, vec![(0u32, 1u32, 4u32), (0, 2, 1), (2, 1, 2), (1, 3, 5)], 0usize),
        (3, vec![], 2),
        (4, vec![(0, 1, 7), (1, 2, 0), (2, 3, 9)], 1),
    ];
    let checks = names(&[
        "length_equals_n",
        "source_distance_is_zero",
        "distances_agree_with_brute_force_bellman_ford",
        "none_iff_unreachable",
        "length_equals_n",
    ]);
    let r = run_dijkstra_trials("graph_dijkstra_001", 9, &checks, &graphs).unwrap();
    assert_eq!(r.trials_run, 3);
    assert_eq!(r.seed, 9);
    assert!(!r.any_falsified());
    assert_eq!(r.oracle_stats.len(), 5);
    assert_eq!(r.oracle_stats[0].trials_evaluated, 3);
    assert_eq!(r.oracle_stats[4].trials_evaluated, 0);
    let again = run_dijkstra_trials("graph_dijkstra_001", 9, &checks, &graphs).unwrap();
    assert_eq!(format!("{r:?}"), format!("{again:?}"));
    match run_dijkstra_trials("graph_dijkstra_001", 9, &names(&["length_equals_n", "bogus", "other"]), &graphs) {
        Err(BehaviorError::UnknownOracleCheck(n)) => assert_eq!(n, "bogus"),
        other => panic!("unexpected {other:?}"),
    }
}

#[test]
fn knapsack_bound_counts_only_drawn_items() {
    let big = u32::MAX / 2;
    let r = run_knapsack(
        "dp_knapsack_01_001",
        3,
        10,
        &names(&["result_matches_exhaustive_oracle"]),
        1,
        2,
        1,
        5,
        0,
        big,
        0,
        10,
    )
    .unwrap();
    assert!(!r.any_falsified());
}

#[test]
fn adapters_registered_by_family() {
    assert_eq!(family_of("arrays_binary_search_001").unwrap(), Family::BinarySearch);
    assert_eq!(family_of("graph_dijkstra_007").unwrap(), Family::Dijkstra);
    assert_eq!(family_of("trees_lowest_common_ancestor_003").unwrap(), Family::Lca);
    match family_of("graph_dijkstra_008") {
        Err(BehaviorError::UnknownInstance(id)) => assert_eq!(id, "graph_dijkstra_008"),
        other => panic!("unexpected {other:?}"),
    }
    assert!(family_of("graph_dijkstra_01").is_err());
}

#[test]
fn dijkstra_agrees_with_bellman_ford() {
    // thirty fixed DAGs of one to eight vertices, weights in 0..=50
    let mut graphs = Vec::new();
    for t in 0..30usize {
        let n = 1 + t % 8;
        let mut edges = Vec::new();
        for u in 0..n {
            for v in (u + 1)..n {
                if (u * 7 + v * 13 + t) % 20 < 7 {
                    edges.push((u as u32, v as u32, (((u + v + t) * 17) % 51) as u32));
                }
            }
        }
        graphs.push((n, edges, t % n));
    }
    for (n, edges, source) in &graphs {
        let as_edges: Vec<Edge> =
            edges.iter().map(|&(u, v, w)| Edge { src: u as usize, dst: v as usize, weight: w }).collect();
        let d = dijkstra(*n, *source, &as_edges);
        assert_eq!(d, bellman_ford(*n, *source, edges));
        assert_eq!(d.len(), *n);
        assert_eq!(d[*source], Some(0));
    }
    let checks = names(&[
        "length_equals_n",
        "source_distance_is_zero",
        "distances_agree_with_brute_force_bellman_ford",
        "none_iff_unreachable",
    ]);
    let rep = run_dijkstra_trials("graph_dijkstra_001", 2026, &checks, &graphs).unwrap();
    assert_eq!(rep.trials_run, 30);
    assert!(!rep.any_falsified(), "{rep:?}");
}

#[test]
fn dijkstra_from_a_source_outside_the_graph_reaches_nothing() {
    assert_eq!(dijkstra(3, 7, &[]), vec![None, None, None]);
    let edges = [Edge { src: 0, dst: 1, weight: 2 }];
    assert_eq!(dijkstra(2, 2, &edges), vec![None, None]);
}

#[test]
fn registry_reports_pilot_instances() {
    let keys = registered_instances();
    assert!(keys.iter().any(|k| k == "arrays_binary_search_001"));
    assert!(keys.iter().any(|k| k == "sorting_insertion_sort_001"));
    assert!(keys.iter().any(|k| k == "graph_dijkstra_001"));
    // seven instances in each of the twelve families
    let mut families: Vec<Family> = keys.iter().map(|k| family_of(k).unwrap()).collect();
    families.dedup();
    assert_eq!(families.len(), 12);
    assert_eq!(keys.len(), 84);
    let mut sorted = keys.clone();
    sorted.sort();
    assert_eq!(sorted, keys);
}

#[test]
fn each_family_lists_its_oracle_checks() {
    assert_eq!(
        checks_of(Family::Dijkstra),
        vec!["length_equals_n", "source_distance_is_zero", "distances_agree_with_brute_force_bellman_ford", "none_iff_unreachable"]
    );
    assert_eq!(checks_of(Family::BinarySearch)[2], "failure_if_absent");
    assert_eq!(checks_of(Family::Lca).len(), 3);
}

#[test]
fn adapter_runs_dispatch_by_generator_and_repeat() {
    let checks = names(&["output_is_sorted", "length_preserved"]);
    let params = GeneratorParams::InsertionSort { min_len: 0, max_len: 6, value_min: -5, value_max: 5 };
    let a = run_adapter("sorting_insertion_sort_001", 11, 12, &checks, &params).unwrap();
    let b = run_adapter("sorting_insertion_sort_001", 11, 12, &checks, &params).unwrap();
    assert_eq!(a.trials_run, 12);
    assert!(!a.any_falsified());
    assert_eq!(format!("{a:?}"), format!("{b:?}"));
    let graphs = GeneratorParams::Dijkstra { graphs: vec![(2, vec![(0, 1, 3)], 0), (1, vec![], 0)] };
    let d = run_adapter("graph_dijkstra_001", 3, 99, &names(&["none_iff_unreachable"]), &graphs).unwrap();
    assert_eq!(d.trials_run, 2);
    match run_adapter("sorting_insertion_sort_001", 11, 12, &names(&["nope"]), &params) {
        Err(BehaviorError::UnknownOracleCheck(n)) => assert_eq!(n, "nope"),
        other => panic!("unexpected {other:?}"),
    }
}
