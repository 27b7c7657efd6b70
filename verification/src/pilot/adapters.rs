//! One adapter run for any family: the generator parameters of the
//! instance's family select the family's trial loop.

use vstd::prelude::*;
use crate::harness::{all_known, BehaviorError, HarnessReport};
use crate::pilot::registry::Family;
use crate::pilot::families::{
    blames_only, clean_outcome, config_names, dijkstra_graph_ok, family_checks, magnitude_bound, outcome_view,
    refused, tallied_report, lemma_clean_outcome_determined, run_binary_search, run_bfs_shortest_path,
    run_bst_insert, run_coin_change, run_dijkstra_trials, run_insertion_sort, run_interval_scheduling, run_knapsack,
    run_lca, run_lcs, run_max_subarray, run_merge_sort,
};

verus! {

/// The input generator of a harness run, by family, with its parameters.
#[derive(Debug)]
pub enum GeneratorParams {
    /// Sorted arrays with a target.
    BinarySearch { min_len: usize, max_len: usize, value_min: i32, value_max: i32 },
    /// Integer arrays.
    MaxSubarray { min_len: usize, max_len: usize, value_min: i32, value_max: i32 },
    /// Integer arrays.
    InsertionSort { min_len: usize, max_len: usize, value_min: i32, value_max: i32 },
    /// Integer arrays.
    MergeSort { min_len: usize, max_len: usize, value_min: i32, value_max: i32 },
    /// Weighted DAGs `(n, edges, source)`, drawn by the caller (their edges
    /// are kept with a probability).
    Dijkstra { graphs: Vec<(usize, Vec<(u32, u32, u32)>, usize)> },
    /// Adjacency lists.
    BfsShortestPath { min_n: usize, max_n: usize, max_out_degree: usize },
    /// Interval lists.
    IntervalScheduling { min_len: usize, max_len: usize, coord_min: i32, coord_max: i32 },
    /// Coin systems and amounts.
    CoinChange { systems: Vec<Vec<u32>>, amount_min: u32, amount_max: u32 },
    /// Pairs of integer arrays.
    Lcs { min_len: usize, max_len: usize, value_min: i32, value_max: i32 },
    /// Knapsack instances.
    Knapsack { min_items: usize, max_items: usize, w_min: u32, w_max: u32, v_min: u32, v_max: u32, c_min: u32, c_max: u32 },
    /// BST key sequences.
    BstInsert { min_size: usize, max_size: usize, key_min: i32, key_max: i32 },
    /// BSTs with two query keys.
    Lca { min_size: usize, max_size: usize, key_min: i32, key_max: i32 },
}

/// The family whose generator `p` is.
pub open spec fn params_family(p: GeneratorParams) -> Family {
    match p {
        GeneratorParams::BinarySearch { .. } => Family::BinarySearch,
        GeneratorParams::MaxSubarray { .. } => Family::MaxSubarray,
        GeneratorParams::InsertionSort { .. } => Family::InsertionSort,
        GeneratorParams::MergeSort { .. } => Family::MergeSort,
        GeneratorParams::Dijkstra { .. } => Family::Dijkstra,
        GeneratorParams::BfsShortestPath { .. } => Family::BfsShortestPath,
        GeneratorParams::IntervalScheduling { .. } => Family::IntervalScheduling,
        GeneratorParams::CoinChange { .. } => Family::CoinChange,
        GeneratorParams::Lcs { .. } => Family::Lcs,
        GeneratorParams::Knapsack { .. } => Family::Knapsack,
        GeneratorParams::BstInsert { .. } => Family::BstInsert,
        GeneratorParams::Lca { .. } => Family::Lca,
    }
}

/// The parameters a family's trial loop accepts (an empty range cannot be
/// sampled; sums must fit the result types).
pub open spec fn params_ok(p: GeneratorParams) -> bool {
    match p {
        GeneratorParams::BinarySearch { value_min, value_max, .. } => value_min <= value_max,
        GeneratorParams::MaxSubarray { max_len, value_min, value_max, .. } =>
            (value_min <= value_max || max_len == 0)
                && ((max_len as int) * magnitude_bound(value_min, value_max) <= i32::MAX
                    || 256 * magnitude_bound(value_min, value_max) <= i32::MAX),
        GeneratorParams::InsertionSort { max_len, value_min, value_max, .. } => value_min <= value_max || max_len == 0,
        GeneratorParams::MergeSort { max_len, value_min, value_max, .. } => value_min <= value_max || max_len == 0,
        GeneratorParams::Dijkstra { graphs } => graphs@.len() <= u32::MAX
            && forall|t: int| 0 <= t < graphs@.len() ==> dijkstra_graph_ok(#[trigger] graphs@[t]),
        GeneratorParams::BfsShortestPath { .. } => true,
        GeneratorParams::IntervalScheduling { max_len, coord_min, coord_max, .. } =>
            (coord_min <= coord_max && coord_max < i32::MAX) || max_len == 0,
        GeneratorParams::CoinChange { systems, amount_min, amount_max } =>
            systems@.len() > 0 && amount_min <= amount_max && (amount_max as int) < usize::MAX,
        GeneratorParams::Lcs { max_len, value_min, value_max, .. } => value_min <= value_max || max_len == 0,
        GeneratorParams::Knapsack { max_items, w_min, w_max, v_min, v_max, c_min, c_max, .. } =>
            c_min <= c_max && (max_items == 0 || (w_min <= w_max && v_min <= v_max))
                && (if max_items < 12 { max_items as int } else { 12 }) * (v_max as int) <= u32::MAX
                && (c_max as int) < usize::MAX,
        GeneratorParams::BstInsert { key_min, key_max, .. } => key_min <= key_max,
        GeneratorParams::Lca { max_size, key_min, key_max, .. } => key_min <= key_max || max_size == 0,
    }
}

/// Families whose every oracle check holds of the reference algorithm on
/// every input, so that no run of theirs finds a falsification.
pub open spec fn is_clean_family(f: Family) -> bool {
    f != Family::IntervalScheduling && f != Family::CoinChange
}

/// The checks of a family that can be falsified.
pub open spec fn fallible_checks(f: Family) -> Seq<Seq<char>> {
    if f == Family::IntervalScheduling {
        seq!["result_matches_exhaustive_oracle"@]
    } else if f == Family::CoinChange {
        seq!["weighted_sum_equals_amount"@, "sum_matches_dp_oracle"@]
    } else {
        Seq::empty()
    }
}

/// The number of trials a run makes: one per drawn graph for Dijkstra,
/// else the configured count.
pub open spec fn trials_of(p: GeneratorParams, num_trials: u32) -> u32 {
    match p {
        GeneratorParams::Dijkstra { graphs } => graphs@.len() as u32,
        _ => num_trials,
    }
}

/// What an adapter run gives: for a clean family, a report with no
/// falsification (`clean_outcome`); otherwise a tallied report whose
/// falsifications blame only the fallible checks; unknown checks refused
/// either way.
pub open spec fn adapter_outcome(
    res: Result<HarnessReport, BehaviorError>,
    p: GeneratorParams,
    config: Seq<Seq<char>>,
    instance_id: Seq<char>,
    seed: u64,
    num_trials: u32,
) -> bool {
    let f = params_family(p);
    if is_clean_family(f) {
        clean_outcome(res, config, family_checks(f), instance_id, seed, trials_of(p, num_trials))
    } else {
        match res {
            Ok(r) => all_known(config, family_checks(f))
                && tallied_report(r, instance_id, seed, num_trials, config)
                && blames_only(r, config, fallible_checks(f)),
            Err(e) => refused(config, family_checks(f), e),
        }
    }
}

/// Runs the adapter of the family of `params` (see `adapter_outcome`).
pub fn run_adapter(
    instance_id: &str,
    seed: u64,
    num_trials: u32,
    oracle_checks: &Vec<String>,
    params: &GeneratorParams,
) -> (res: Result<HarnessReport, BehaviorError>)
    requires
        params_ok(*params),
    ensures
        adapter_outcome(res, *params, config_names(oracle_checks@), instance_id@, seed, num_trials),
{
    match params {
        GeneratorParams::BinarySearch { min_len, max_len, value_min, value_max } =>
            run_binary_search(instance_id, seed, num_trials, oracle_checks, *min_len, *max_len, *value_min, *value_max),
        GeneratorParams::MaxSubarray { min_len, max_len, value_min, value_max } =>
            run_max_subarray(instance_id, seed, num_trials, oracle_checks, *min_len, *max_len, *value_min, *value_max),
        GeneratorParams::InsertionSort { min_len, max_len, value_min, value_max } =>
            run_insertion_sort(instance_id, seed, num_trials, oracle_checks, *min_len, *max_len, *value_min, *value_max),
        GeneratorParams::MergeSort { min_len, max_len, value_min, value_max } =>
            run_merge_sort(instance_id, seed, num_trials, oracle_checks, *min_len, *max_len, *value_min, *value_max),
        GeneratorParams::Dijkstra { graphs } => run_dijkstra_trials(instance_id, seed, oracle_checks, graphs),
        GeneratorParams::BfsShortestPath { min_n, max_n, max_out_degree } =>
            run_bfs_shortest_path(instance_id, seed, num_trials, oracle_checks, *min_n, *max_n, *max_out_degree),
        GeneratorParams::IntervalScheduling { min_len, max_len, coord_min, coord_max } =>
            run_interval_scheduling(instance_id, seed, num_trials, oracle_checks, *min_len, *max_len, *coord_min, *coord_max),
        GeneratorParams::CoinChange { systems, amount_min, amount_max } =>
            run_coin_change(instance_id, seed, num_trials, oracle_checks, systems, *amount_min, *amount_max),
        GeneratorParams::Lcs { min_len, max_len, value_min, value_max } =>
            run_lcs(instance_id, seed, num_trials, oracle_checks, *min_len, *max_len, *value_min, *value_max),
        GeneratorParams::Knapsack { min_items, max_items, w_min, w_max, v_min, v_max, c_min, c_max } =>
            run_knapsack(
                instance_id, seed, num_trials, oracle_checks, *min_items, *max_items, *w_min, *w_max, *v_min, *v_max,
                *c_min, *c_max,
            ),
        GeneratorParams::BstInsert { min_size, max_size, key_min, key_max } =>
            run_bst_insert(instance_id, seed, num_trials, oracle_checks, *min_size, *max_size, *key_min, *key_max),
        GeneratorParams::Lca { min_size, max_size, key_min, key_max } =>
            run_lca(instance_id, seed, num_trials, oracle_checks, *min_size, *max_size, *key_min, *key_max),
    }
}

/// Adapter runs are deterministic: two runs of a clean family's adapter
/// with the same configuration (instance, seed, trial count, checks and
/// generator) give the same outcome: the same report counters and no
/// falsification, or the same refused check.
pub proof fn lemma_adapter_runs_agree(
    a: Result<HarnessReport, BehaviorError>,
    b: Result<HarnessReport, BehaviorError>,
    p: GeneratorParams,
    config: Seq<Seq<char>>,
    instance_id: Seq<char>,
    seed: u64,
    num_trials: u32,
)
    requires
        is_clean_family(params_family(p)),
        adapter_outcome(a, p, config, instance_id, seed, num_trials),
        adapter_outcome(b, p, config, instance_id, seed, num_trials),
    ensures
        outcome_view(a) == outcome_view(b),
{
    lemma_clean_outcome_determined(a, b, config, family_checks(params_family(p)), instance_id, seed,
        trials_of(p, num_trials));
}

} // verus!
