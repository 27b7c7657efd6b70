//! One trial loop per algorithm family. Each rejects unknown oracle checks
//! first, then draws `num_trials` inputs from the ChaCha20 stream seeded
//! with `seed`, runs the reference implementation and records every
//! configured check once per trial.

use vstd::prelude::*;
use crate::harness::{all_known, require_known_oracles, BehaviorError, HarnessReport, OracleCheckStats, OracleState};
use crate::generators::{seeded_rng, sorted_int_vec_with_target, int_vec, adj_list, knapsack_instance, bst_key_sequence, bst_with_two_keys, pair_int_vec, interval_vec, canonical_coin_system};
use crate::algorithms::greedy::{interval_scheduling, is_chain, is_max_chain_len, sorted_by_end};
use crate::algorithms::subsets::exhaustive_oracle;
use crate::algorithms::coins::{coin_change_canonical, dp_min_coins_sum, greedy_coins, paid_from, lemma_greedy_change_total, lemma_rest_nonneg};
use crate::algorithms::trees::{Tree, bst_insert, build, inorder, contains, lca_bst, brute_lca, lemma_inorder_keys, lemma_bst_inorder_ascending, lemma_lca_agrees_with_brute, lemma_split_key_in_range};
use crate::algorithms::dp::{knapsack_01, knap_best, lcs_length, lemma_lcs_bounded, lemma_lcs_symmetric};
use crate::algorithms::subarray::{max_subarray, quadratic_oracle, range_sum};
use crate::algorithms::subsets::{exhaustive_knapsack, lemma_knapsack_agrees_with_exhaustive, searched_items};
use crate::algorithms::graph::{bfs_shortest_path, is_bfs_distance, reaches_in};
use crate::algorithms::floyd::{fw_unweighted, lemma_bfs_agrees_with_floyd};
use crate::algorithms::search::{binary_search, sorted_nondecreasing};
use crate::algorithms::sorting::{insertion_sort, merge_sort, is_sorted, is_permutation, is_permutation_of};
use crate::pilot::trials::{is_first, checked_at, check_names, all_ok, record_trial, lemma_checked_are_firsts, failed_at, failed_named};
use crate::render::{option_text, signed, unsigned_text, signed_text, option_parts, i32_list_text, i32_set_text, distances_text, u32_list_text};
use crate::text::push_all;
use crate::pilot::registry::Family;
use crate::lean::decimal;
use crate::render::weighted_distances_text;
use crate::algorithms::dijkstra::{Edge, dijkstra, max_weight, walk_weight, is_shortest_distance};
use crate::algorithms::bellman_ford::{bellman_ford, triple_edge, triple_edges, triples_in_range, lemma_dijkstra_agrees_with_bellman_ford};

verus! {

/// The configured check names, as plain text.
pub open spec fn config_names(oracle_checks: Seq<String>) -> Seq<Seq<char>> {
    oracle_checks.map_values(|s: String| s@)
}

/// The error a run gives when a configured check is not one it knows: the
/// first such name.
pub open spec fn refused(config: Seq<Seq<char>>, known: Seq<Seq<char>>, e: BehaviorError) -> bool {
    match e {
        BehaviorError::UnknownOracleCheck(name) => exists|i: int| 0 <= i < config.len()
            && config[i] == name@
            && !known.contains(name@)
            && all_known(config.take(i), known),
        _ => false,
    }
}

/// A finished run in which no check was ever falsified: every first
/// occurrence of a configured name was evaluated on each trial, a repeated
/// name never.
pub open spec fn clean_report(r: HarnessReport, instance_id: Seq<char>, seed: u64, num_trials: u32, names: Seq<Seq<char>>) -> bool {
    &&& r.instance_id@ == instance_id
    &&& r.seed == seed
    &&& r.trials_run == num_trials
    &&& r.oracle_stats@.len() == names.len()
    &&& forall|i: int| 0 <= i < names.len() ==> (#[trigger] r.oracle_stats@[i]).name@ == names[i]
        && r.oracle_stats@[i].trials_evaluated == (if is_first(names, i) { num_trials } else { 0u32 })
        && r.oracle_stats@[i].violations == 0
    &&& r.falsifications@.len() == 0
}

/// The outcome of a family run whose checks never fail, as each such
/// family's `ensures` states it: a clean report when every configured check
/// is known, else the refusal of the first unknown one.
pub open spec fn clean_outcome(
    res: Result<HarnessReport, BehaviorError>,
    config: Seq<Seq<char>>,
    known: Seq<Seq<char>>,
    instance_id: Seq<char>,
    seed: u64,
    num_trials: u32,
) -> bool {
    match res {
        Ok(r) => all_known(config, known) && clean_report(r, instance_id, seed, num_trials, config),
        Err(e) => refused(config, known, e),
    }
}

/// A run's outcome as plain values: the report's instance, seed, trial
/// count, per-check name and counters and number of falsifications; or the
/// name an unknown check was refused with.
pub open spec fn outcome_view(res: Result<HarnessReport, BehaviorError>)
    -> Result<(Seq<char>, u64, u32, Seq<(Seq<char>, u32, u32)>, nat), Option<Seq<char>>>
{
    match res {
        Ok(r) => Ok((r.instance_id@, r.seed, r.trials_run,
            r.oracle_stats@.map_values(|s: OracleCheckStats| (s.name@, s.trials_evaluated, s.violations)),
            r.falsifications@.len())),
        Err(BehaviorError::UnknownOracleCheck(n)) => Err(Some(n@)),
        Err(_) => Err(None),
    }
}

/// A run of a family whose checks never fail is a function of its
/// configuration and seed: two runs with the same configured checks,
/// instance, seed and trial count give the same outcome. Every family whose
/// `ensures` is `clean_outcome` (binary search, both sorts, breadth-first
/// search, knapsack, search-tree insertion, lowest common ancestor, longest
/// common subsequence, maximum subarray, and Dijkstra over given graphs) is
/// such a family.
pub proof fn lemma_clean_outcome_determined(
    a: Result<HarnessReport, BehaviorError>,
    b: Result<HarnessReport, BehaviorError>,
    config: Seq<Seq<char>>,
    known: Seq<Seq<char>>,
    instance_id: Seq<char>,
    seed: u64,
    num_trials: u32,
)
    requires
        clean_outcome(a, config, known, instance_id, seed, num_trials),
        clean_outcome(b, config, known, instance_id, seed, num_trials),
    ensures
        outcome_view(a) == outcome_view(b),
{
    match (a, b) {
        (Ok(ra), Ok(rb)) => {
            let sa = ra.oracle_stats@.map_values(|s: OracleCheckStats| (s.name@, s.trials_evaluated, s.violations));
            let sb = rb.oracle_stats@.map_values(|s: OracleCheckStats| (s.name@, s.trials_evaluated, s.violations));
            assert forall|i: int| 0 <= i < sa.len() implies sa[i] == sb[i] by {
                assert(ra.oracle_stats@[i].name@ == config[i]);
                assert(rb.oracle_stats@[i].name@ == config[i]);
            }
            assert(sa =~= sb);
        },
        (Ok(ra), Err(eb)) => {
            let i = choose|i: int| 0 <= i < config.len() && config[i] == eb->UnknownOracleCheck_0@
                && !known.contains(eb->UnknownOracleCheck_0@) && all_known(config.take(i), known);
            assert(known.contains(config[i]));
        },
        (Err(ea), Ok(rb)) => {
            let i = choose|i: int| 0 <= i < config.len() && config[i] == ea->UnknownOracleCheck_0@
                && !known.contains(ea->UnknownOracleCheck_0@) && all_known(config.take(i), known);
            assert(known.contains(config[i]));
        },
        (Err(ea), Err(eb)) => {
            let na = ea->UnknownOracleCheck_0@;
            let nb = eb->UnknownOracleCheck_0@;
            let i = choose|i: int| 0 <= i < config.len() && config[i] == na
                && !known.contains(na) && all_known(config.take(i), known);
            let j = choose|j: int| 0 <= j < config.len() && config[j] == nb
                && !known.contains(nb) && all_known(config.take(j), known);
            if i < j {
                assert(config.take(j)[i] == config[i]);
                assert(known.contains(config.take(j)[i]));
            } else if j < i {
                assert(config.take(i)[j] == config[j]);
                assert(known.contains(config.take(i)[j]));
            }
        },
    }
}

/// The counters after `t` trials of a run that has seen no falsification.
pub open spec fn spotless_after(st: OracleState, names: Seq<Seq<char>>, t: int) -> bool {
    &&& st.well_formed()
    &&& st.names() == names
    &&& st.counts().len() == names.len()
    &&& forall|i: int| 0 <= i < names.len() ==> (#[trigger] st.counts()[i]).0 == (if is_first(names, i) { t } else { 0 })
        && st.counts()[i].1 == 0
    &&& st.records().len() == 0
}

/// A trial whose checks cover every configured name and all held keeps a
/// run spotless.
proof fn lemma_spotless_step(
    before: OracleState,
    after: OracleState,
    names: Seq<Seq<char>>,
    checks: Seq<(&str, Result<(), (String, String)>)>,
    t: int,
)
    requires
        spotless_after(before, names, t),
        all_ok(checks),
        forall|k: int| 0 <= k < names.len() ==> check_names(checks).contains(#[trigger] names[k]),
        after.well_formed(),
        after.names() == before.names(),
        after.counts().len() == before.counts().len(),
        forall|i: int| 0 <= i < before.counts().len() ==> (#[trigger] after.counts()[i]).0
            == before.counts()[i].0 + (if checked_at(check_names(checks), before.names(), i) { 1int } else { 0int }),
        after.records() == before.records(),
        forall|i: int| 0 <= i < before.counts().len() ==> (#[trigger] after.counts()[i]).1 == before.counts()[i].1,
    ensures
        spotless_after(after, names, t + 1),
{
    assert forall|i: int| 0 <= i < names.len() implies (#[trigger] after.counts()[i]).0
        == (if is_first(names, i) { t + 1 } else { 0 }) && after.counts()[i].1 == 0 by {
        lemma_checked_are_firsts(check_names(checks), names, i);
    }
}

/// The report of a spotless run is clean.
fn finish_clean(st: OracleState, names: Ghost<Seq<Seq<char>>>, seed: u64, num_trials: u32, instance_id: &str) -> (r: HarnessReport)
    requires
        spotless_after(st, names@, num_trials as int),
    ensures
        clean_report(r, instance_id@, seed, num_trials, names@),
{
    let r = st.finalize(seed, num_trials, instance_id);
    proof {
        assert forall|i: int| 0 <= i < names@.len() implies (#[trigger] r.oracle_stats@[i]).name@ == names@[i]
            && r.oracle_stats@[i].trials_evaluated == (if is_first(names@, i) { num_trials } else { 0u32 })
            && r.oracle_stats@[i].violations == 0 by {
            assert(r.oracle_stats@.map_values(|s: OracleCheckStats| s.name@)[i] == r.oracle_stats@[i].name@);
            assert(r.oracle_stats@.map_values(|s: OracleCheckStats| (s.trials_evaluated, s.violations))[i]
                == (r.oracle_stats@[i].trials_evaluated, r.oracle_stats@[i].violations));
        }
        assert(r.falsifications@.map_values(|f: crate::harness::Falsification| (f.oracle_check@, f.input_repr@, f.observed@, f.expected@, f.trial)).len()
            == r.falsifications@.len());
    }
    r
}

/// Starts a run: checks the configured names against `known` and, when
/// all are known, returns a fresh state.
fn start_run(oracle_checks: &Vec<String>, known: &Vec<&str>) -> (res: Result<OracleState, BehaviorError>)
    ensures
        match res {
            Ok(st) => all_known(config_names(oracle_checks@), known@.map_values(|s: &str| s@))
                && spotless_after(st, config_names(oracle_checks@), 0),
            Err(e) => refused(config_names(oracle_checks@), known@.map_values(|s: &str| s@), e),
        },
{
    match require_known_oracles(oracle_checks.as_slice(), known.as_slice()) {
        Err(e) => {
            proof {
                if e is UnknownOracleCheck {
                    let name = e->UnknownOracleCheck_0;
                    let i = choose|i: int| 0 <= i < oracle_checks@.len()
                        && oracle_checks@[i]@ == name@
                        && !known@.map_values(|s: &str| s@).contains(name@)
                        && all_known(oracle_checks@.take(i).map_values(|s: String| s@), known@.map_values(|s: &str| s@));
                    assert(config_names(oracle_checks@)[i] == name@);
                    assert(config_names(oracle_checks@).take(i) =~= oracle_checks@.take(i).map_values(|s: String| s@));
                }
            }
            Err(e)
        },
        Ok(_) => {
            let st = OracleState::new(oracle_checks.as_slice());
            proof {
                st.lemma_counts_match_names();
                assert forall|i: int| 0 <= i < config_names(oracle_checks@).len() implies (#[trigger] st.counts()[i]).0
                    == (if is_first(config_names(oracle_checks@), i) { 0int } else { 0 }) && st.counts()[i].1 == 0 by {
                    assert(st.counts()[i] == (0u32, 0u32));
                }
            }
            Ok(st)
        },
    }
}

/// `true` when `x` occurs in `v`.
fn occurs(v: &[i32], x: i32) -> (b: bool)
    ensures
        b == v@.contains(x),
{
    let mut k: usize = 0;
    while k < v.len()
        invariant
            k <= v@.len(),
            forall|j: int| 0 <= j < k ==> v@[j] != x,
        decreases v@.len() - k,
    {
        if v[k] == x {
            return true;
        }
        k = k + 1;
    }
    false
}

/// The check names of the binary search family.
pub open spec fn binary_search_checks() -> Seq<Seq<char>> {
    seq!["success_index_in_bounds"@, "success_points_to_target"@, "failure_if_absent"@]
}

/// The binary search family: sorted vectors with a target that is present
/// about half the time. The search always lands on the target when it
/// answers, and answers exactly when the target is present, so no check is
/// ever falsified.
pub fn run_binary_search(
    instance_id: &str,
    seed: u64,
    num_trials: u32,
    oracle_checks: &Vec<String>,
    min_len: usize,
    max_len: usize,
    value_min: i32,
    value_max: i32,
) -> (res: Result<HarnessReport, BehaviorError>)
    requires
        value_min <= value_max,
    ensures
        clean_outcome(res, config_names(oracle_checks@), binary_search_checks(), instance_id@, seed, num_trials),
{
    let known: Vec<&str> = vec!["success_index_in_bounds", "success_points_to_target", "failure_if_absent"];
    assert(known@.map_values(|s: &str| s@) =~= binary_search_checks());
    let ghost names = config_names(oracle_checks@);
    let mut st = match start_run(oracle_checks, &known) {
        Ok(st) => st,
        Err(e) => return Err(e),
    };
    let mut rng = seeded_rng(seed);
    let mut trial: u32 = 0;
    while trial < num_trials
        invariant
            trial <= num_trials,
            value_min <= value_max,
            all_known(names, binary_search_checks()),
            spotless_after(st, names, trial as int),
        decreases num_trials - trial,
    {
        let (arr, target) = sorted_int_vec_with_target(&mut rng, min_len, max_len, value_min, value_max);
        let result = binary_search(arr.as_slice(), target);
        let mut input_repr = String::new();
        push_all(&mut input_repr, "arr.len()=");
        push_all(&mut input_repr, unsigned_text(arr.len() as u64).as_str());
        push_all(&mut input_repr, ",target=");
        push_all(&mut input_repr, signed_text(target as i64).as_str());
        let present = occurs(arr.as_slice(), target);
        let in_bounds: Result<(), (String, String)> = match result {
            Some(i) => if i >= arr.len() {
                let mut obs = String::new();
                push_all(&mut obs, "index=");
                push_all(&mut obs, unsigned_text(i as u64).as_str());
                let mut exp = String::new();
                push_all(&mut exp, "index<");
                push_all(&mut exp, unsigned_text(arr.len() as u64).as_str());
                Err((obs, exp))
            } else {
                Ok(())
            },
            None => Ok(()),
        };
        let points: Result<(), (String, String)> = match result {
            Some(i) => if i < arr.len() && arr[i] != target {
                let mut obs = String::new();
                push_all(&mut obs, "arr[");
                push_all(&mut obs, unsigned_text(i as u64).as_str());
                push_all(&mut obs, "]=");
                push_all(&mut obs, signed_text(arr[i] as i64).as_str());
                let mut exp = String::new();
                push_all(&mut exp, "arr[i]=");
                push_all(&mut exp, signed_text(target as i64).as_str());
                Err((obs, exp))
            } else {
                Ok(())
            },
            None => Ok(()),
        };
        let absent: Result<(), (String, String)> = if !present && result.is_some() {
            let inner = match result {
                Some(i) => Some(unsigned_text(i as u64)),
                None => None,
            };
            let mut obs = String::new();
            push_all(&mut obs, "returned ");
            push_all(&mut obs, option_parts(inner).as_str());
            let mut exp = String::new();
            push_all(&mut exp, "None when target absent");
            Err((obs, exp))
        } else if present && result.is_none() {
            let mut obs = String::new();
            push_all(&mut obs, "None");
            let mut exp = String::new();
            push_all(&mut exp, "Some(_) when target present");
            Err((obs, exp))
        } else {
            Ok(())
        };
        let checks: Vec<(&str, Result<(), (String, String)>)> = vec![
            ("success_index_in_bounds", in_bounds),
            ("success_points_to_target", points),
            ("failure_if_absent", absent),
        ];
        let ghost cv = checks@;
        let ghost before = st;
        proof {
            reveal_strlit("success_index_in_bounds");
            reveal_strlit("success_points_to_target");
            reveal_strlit("failure_if_absent");
            assert(check_names(cv) =~= binary_search_checks());
            assert(cv[0].0@.len() == 23 && cv[1].0@.len() == 24 && cv[2].0@.len() == 17);
            assert(all_ok(cv));
            assert forall|i: int| 0 <= i < st.counts().len() implies (#[trigger] st.counts()[i]).0 < u32::MAX by {
                if is_first(names, i) {} else {}
            }
        }
        record_trial(&mut st, trial, input_repr.as_str(), checks);
        proof {
            lemma_spotless_step(before, st, names, cv, trial as int);
        }
        trial = trial + 1;
    }
    Ok(finish_clean(st, Ghost(names), seed, num_trials, instance_id))
}


/// A string holding `t`.
fn text(t: &str) -> (out: String)
    ensures
        out@ == t@,
{
    let mut out = String::new();
    push_all(&mut out, t);
    out
}

/// The check names of the insertion sort family.
pub open spec fn insertion_sort_checks() -> Seq<Seq<char>> {
    seq!["output_is_sorted"@, "output_is_permutation_of_input"@, "length_preserved"@]
}

/// The check names of the merge sort family.
pub open spec fn merge_sort_checks() -> Seq<Seq<char>> {
    seq!["output_sorted_nondecreasing"@, "output_permutation_of_input"@, "output_length_matches_input"@]
}

/// The outcomes of one sorting trial: sortedness, same multiset, same length.
fn sorting_outcomes(input: &Vec<i32>, out: &Vec<i32>)
    -> (r: (Result<(), (String, String)>, Result<(), (String, String)>, Result<(), (String, String)>))
    ensures
        r.0 is Ok <==> sorted_nondecreasing(out@),
        r.1 is Ok <==> is_permutation_of(input@, out@),
        r.2 is Ok <==> out@.len() == input@.len(),
{
    let sorted = if is_sorted(out.as_slice()) {
        Ok(())
    } else {
        Err((i32_list_text(out.as_slice()), text("nondecreasing")))
    };
    let perm = if is_permutation(input.as_slice(), out.as_slice()) {
        Ok(())
    } else {
        Err((text("multiset differs"), text("same multiset")))
    };
    let len = if out.len() == input.len() {
        Ok(())
    } else {
        Err((unsigned_text(out.len() as u64), unsigned_text(input.len() as u64)))
    };
    (sorted, perm, len)
}

/// The sorting families: random vectors, sorted by insertion sort
/// (`merge` false) or merge sort (`merge` true).
fn run_sorting(
    merge: bool,
    instance_id: &str,
    seed: u64,
    num_trials: u32,
    oracle_checks: &Vec<String>,
    min_len: usize,
    max_len: usize,
    value_min: i32,
    value_max: i32,
) -> (res: Result<HarnessReport, BehaviorError>)
    requires
        value_min <= value_max || max_len == 0,
    ensures
        match res {
            Ok(r) => all_known(config_names(oracle_checks@), if merge { merge_sort_checks() } else { insertion_sort_checks() })
                && clean_report(r, instance_id@, seed, num_trials, config_names(oracle_checks@)),
            Err(e) => refused(config_names(oracle_checks@), if merge { merge_sort_checks() } else { insertion_sort_checks() }, e),
        },
{
    let known: Vec<&str> = if merge {
        vec!["output_sorted_nondecreasing", "output_permutation_of_input", "output_length_matches_input"]
    } else {
        vec!["output_is_sorted", "output_is_permutation_of_input", "length_preserved"]
    };
    let ghost kn = if merge { merge_sort_checks() } else { insertion_sort_checks() };
    assert(known@.map_values(|s: &str| s@) =~= kn);
    let ghost names = config_names(oracle_checks@);
    let mut st = match start_run(oracle_checks, &known) {
        Ok(st) => st,
        Err(e) => return Err(e),
    };
    let mut rng = seeded_rng(seed);
    let mut trial: u32 = 0;
    while trial < num_trials
        invariant
            trial <= num_trials,
            value_min <= value_max || max_len == 0,
            kn == (if merge { merge_sort_checks() } else { insertion_sort_checks() }),
            all_known(names, kn),
            spotless_after(st, names, trial as int),
        decreases num_trials - trial,
    {
        let input = int_vec(&mut rng, min_len, max_len, value_min, value_max);
        let out = if merge {
            merge_sort(input.as_slice())
        } else {
            let mut scratch = input.clone();
            assert(scratch@ =~= input@);
            insertion_sort(scratch.as_mut_slice());
            scratch
        };
        let mut input_repr = text("len=");
        push_all(&mut input_repr, unsigned_text(input.len() as u64).as_str());
        let (sorted, perm, len) = sorting_outcomes(&input, &out);
        let checks: Vec<(&str, Result<(), (String, String)>)> = if merge {
            vec![
                ("output_length_matches_input", len),
                ("output_sorted_nondecreasing", sorted),
                ("output_permutation_of_input", perm),
            ]
        } else {
            vec![
                ("output_is_sorted", sorted),
                ("output_is_permutation_of_input", perm),
                ("length_preserved", len),
            ]
        };
        let ghost cv = checks@;
        let ghost before = st;
        proof {
            reveal_strlit("output_is_sorted");
            reveal_strlit("output_is_permutation_of_input");
            reveal_strlit("length_preserved");
            reveal_strlit("output_sorted_nondecreasing");
            reveal_strlit("output_permutation_of_input");
            reveal_strlit("output_length_matches_input");
            if merge {
                assert(cv[0].0@.len() == 27 && cv[1].0@.len() == 27 && cv[2].0@.len() == 27);
                assert(cv[0].0@[7] != cv[1].0@[7] && cv[0].0@[7] != cv[2].0@[7] && cv[1].0@[7] != cv[2].0@[7]);
                assert forall|k: int| 0 <= k < names.len() implies check_names(cv).contains(#[trigger] names[k]) by {
                    assert(kn.contains(names[k]));
                    let t = choose|t: int| 0 <= t < kn.len() && kn[t] == names[k];
                    if t == 0 { assert(check_names(cv)[1] == names[k]); }
                    else if t == 1 { assert(check_names(cv)[2] == names[k]); }
                    else { assert(check_names(cv)[0] == names[k]); }
                }
            } else {
                assert(cv[0].0@.len() == 16 && cv[1].0@.len() == 30 && cv[2].0@.len() == 16);
                assert(cv[0].0@[0] != cv[2].0@[0]);
                assert(check_names(cv) =~= kn);
            }
            assert(all_ok(cv));
            assert forall|i: int| 0 <= i < st.counts().len() implies (#[trigger] st.counts()[i]).0 < u32::MAX by {
                if is_first(names, i) {} else {}
            }
        }
        record_trial(&mut st, trial, input_repr.as_str(), checks);
        proof {
            lemma_spotless_step(before, st, names, cv, trial as int);
        }
        trial = trial + 1;
    }
    Ok(finish_clean(st, Ghost(names), seed, num_trials, instance_id))
}

/// The insertion sort family: the output is always sorted, a permutation
/// of the input and as long, so no check is ever falsified.
pub fn run_insertion_sort(
    instance_id: &str,
    seed: u64,
    num_trials: u32,
    oracle_checks: &Vec<String>,
    min_len: usize,
    max_len: usize,
    value_min: i32,
    value_max: i32,
) -> (res: Result<HarnessReport, BehaviorError>)
    requires
        value_min <= value_max || max_len == 0,
    ensures
        clean_outcome(res, config_names(oracle_checks@), insertion_sort_checks(), instance_id@, seed, num_trials),
{
    run_sorting(false, instance_id, seed, num_trials, oracle_checks, min_len, max_len, value_min, value_max)
}

/// The merge sort family: as for insertion sort, no check is ever
/// falsified.
pub fn run_merge_sort(
    instance_id: &str,
    seed: u64,
    num_trials: u32,
    oracle_checks: &Vec<String>,
    min_len: usize,
    max_len: usize,
    value_min: i32,
    value_max: i32,
) -> (res: Result<HarnessReport, BehaviorError>)
    requires
        value_min <= value_max || max_len == 0,
    ensures
        clean_outcome(res, config_names(oracle_checks@), merge_sort_checks(), instance_id@, seed, num_trials),
{
    run_sorting(true, instance_id, seed, num_trials, oracle_checks, min_len, max_len, value_min, value_max)
}


/// Whether two distance tables are equal.
fn same_distances(a: &Vec<Option<usize>>, b: &Vec<Option<usize>>) -> (r: bool)
    ensures
        r == (a@ == b@),
{
    if a.len() != b.len() {
        return false;
    }
    let mut k: usize = 0;
    while k < a.len()
        invariant
            a@.len() == b@.len(),
            k <= a@.len(),
            forall|j: int| 0 <= j < k ==> a@[j] == b@[j],
        decreases a@.len() - k,
    {
        let same = match (a[k], b[k]) {
            (Some(x), Some(y)) => x == y,
            (None, None) => true,
            _ => false,
        };
        if !same {
            return false;
        }
        k = k + 1;
    }
    assert(a@ =~= b@);
    true
}

/// `Some(d)` or `None` of a distance.
fn distance_text(d: Option<usize>) -> (out: String)
    ensures
        out@ == option_text(match d { Some(x) => Some(decimal(x as nat)), None => None }),
{
    match d {
        Some(x) => option_parts(Some(unsigned_text(x as u64))),
        None => option_parts(None),
    }
}

/// Whether two weighted distance lists are equal.
fn same_weighted_distances(a: &Vec<Option<u64>>, b: &Vec<Option<u64>>) -> (r: bool)
    ensures
        r == (a@ == b@),
{
    if a.len() != b.len() {
        return false;
    }
    let mut k: usize = 0;
    while k < a.len()
        invariant
            a@.len() == b@.len(),
            k <= a@.len(),
            forall|j: int| 0 <= j < k ==> a@[j] == b@[j],
        decreases a@.len() - k,
    {
        let same = match (a[k], b[k]) {
            (Some(x), Some(y)) => x == y,
            (None, None) => true,
            _ => false,
        };
        if !same {
            return false;
        }
        k = k + 1;
    }
    assert(a@ =~= b@);
    true
}

/// `Some(d)` or `None` of a weighted distance.
fn weighted_distance_text(d: Option<u64>) -> (out: String)
    ensures
        out@ == option_text(match d { Some(x) => Some(decimal(x as nat)), None => None }),
{
    match d {
        Some(x) => option_parts(Some(unsigned_text(x))),
        None => option_parts(None),
    }
}

/// The edges `(u, v, w)` as [`Edge`]s.
fn as_edges(t: &Vec<(u32, u32, u32)>) -> (out: Vec<Edge>)
    ensures
        out@ == triple_edges(t@),
{
    let mut out: Vec<Edge> = Vec::new();
    let mut k: usize = 0;
    while k < t.len()
        invariant
            k <= t@.len(),
            out@ == triple_edges(t@.take(k as int)),
        decreases t@.len() - k,
    {
        let (u, v, w) = t[k];
        out.push(Edge { src: u as usize, dst: v as usize, weight: w });
        proof {
            assert(triple_edges(t@.take(k + 1)) =~= triple_edges(t@.take(k as int)).push(triple_edge(t@[k as int])));
        }
        k = k + 1;
    }
    proof {
        assert(t@.take(t@.len() as int) =~= t@);
    }
    out
}

/// The check names of the Dijkstra family.
pub open spec fn dijkstra_checks() -> Seq<Seq<char>> {
    seq!["length_equals_n"@, "source_distance_is_zero"@, "distances_agree_with_brute_force_bellman_ford"@, "none_iff_unreachable"@]
}

/// A trial graph of the Dijkstra family fits the algorithms: the source and
/// every endpoint are vertices below `n`, and `n` maximal weights fit in a
/// `u64`.
pub open spec fn dijkstra_graph_ok(g: (usize, Vec<(u32, u32, u32)>, usize)) -> bool {
    &&& g.2 < g.0
    &&& triples_in_range(g.1@, g.0 as int)
    &&& g.0 * max_weight() <= u64::MAX
}

/// The Dijkstra family over the trial graphs `graphs` (one per trial, each
/// `(n, edges, source)`, drawn by the caller from the run's seed): on each,
/// Dijkstra's distances must have length `n`, be zero at the source, agree
/// with Bellman–Ford's, and be `None` exactly where Bellman–Ford's are. Both
/// compute the shortest distances, so no check is ever falsified.
pub fn run_dijkstra_trials(
    instance_id: &str,
    seed: u64,
    oracle_checks: &Vec<String>,
    graphs: &Vec<(usize, Vec<(u32, u32, u32)>, usize)>,
) -> (res: Result<HarnessReport, BehaviorError>)
    requires
        graphs@.len() <= u32::MAX,
        forall|t: int| 0 <= t < graphs@.len() ==> dijkstra_graph_ok(#[trigger] graphs@[t]),
    ensures
        clean_outcome(res, config_names(oracle_checks@), dijkstra_checks(), instance_id@, seed, graphs@.len() as u32),
{
    let known: Vec<&str> = vec!["length_equals_n", "source_distance_is_zero", "distances_agree_with_brute_force_bellman_ford", "none_iff_unreachable"];
    assert(known@.map_values(|s: &str| s@) =~= dijkstra_checks());
    let ghost names = config_names(oracle_checks@);
    let mut st = match start_run(oracle_checks, &known) {
        Ok(st) => st,
        Err(e) => return Err(e),
    };
    let num_trials = graphs.len() as u32;
    let mut trial: u32 = 0;
    while trial < num_trials
        invariant
            num_trials == graphs@.len(),
            trial <= num_trials,
            forall|t: int| 0 <= t < graphs@.len() ==> dijkstra_graph_ok(#[trigger] graphs@[t]),
            all_known(names, dijkstra_checks()),
            spotless_after(st, names, trial as int),
        decreases num_trials - trial,
    {
        let g = &graphs[trial as usize];
        proof {
            assert(dijkstra_graph_ok(graphs@[trial as int]));
        }
        let n = g.0;
        let source = g.2;
        let edges = as_edges(&g.1);
        proof {
            assert forall|i: int| 0 <= i < edges@.len() implies #[trigger] edges@[i].src < n && edges@[i].dst < n by {
                assert(edges@[i] == triple_edge(g.1@[i]));
                assert(g.1@[i].0 < n && g.1@[i].1 < n);
            }
        }
        let d = dijkstra(n, source, edges.as_slice());
        let b = bellman_ford(n, source, g.1.as_slice());
        proof {
            lemma_dijkstra_agrees_with_bellman_ford(g.1@, source as int, n as int, d@, b@);
            assert(walk_weight(edges@, source as int, source as int, 0, 0));
            assert(is_shortest_distance(edges@, source as int, source as int, d@[source as int]));
            if d@[source as int] is None {
                assert(false);
            } else {
                let x = d@[source as int]->0;
                assert(x <= 0);
            }
        }
        let mut input_repr = text("n=");
        push_all(&mut input_repr, unsigned_text(n as u64).as_str());
        push_all(&mut input_repr, ",|E|=");
        push_all(&mut input_repr, unsigned_text(g.1.len() as u64).as_str());
        push_all(&mut input_repr, ",src=");
        push_all(&mut input_repr, unsigned_text(source as u64).as_str());
        let len: Result<(), (String, String)> = if d.len() == n {
            Ok(())
        } else {
            Err((unsigned_text(d.len() as u64), unsigned_text(n as u64)))
        };
        let at_source = if source < d.len() { Some(d[source]) } else { None };
        let zero: Result<(), (String, String)> = match at_source {
            Some(Some(0)) => Ok(()),
            _ => {
                let inner = match at_source {
                    Some(x) => Some(weighted_distance_text(x)),
                    None => None,
                };
                Err((option_parts(inner), text("Some(Some(0))")))
            },
        };
        let agree: Result<(), (String, String)> = if same_weighted_distances(&d, &b) {
            Ok(())
        } else {
            Err((weighted_distances_text(d.as_slice()), weighted_distances_text(b.as_slice())))
        };
        let mut none: Result<(), (String, String)> = Ok(());
        let mut v: usize = 0;
        while v < n
            invariant
                n == d@.len(),
                n == b@.len(),
                d@ == b@,
                v <= n,
                none is Ok,
            decreases n - v,
        {
            if d[v].is_none() != b[v].is_none() {
                none = Err((weighted_distance_text(d[v]), weighted_distance_text(b[v])));
                break;
            }
            v = v + 1;
        }
        let checks: Vec<(&str, Result<(), (String, String)>)> = vec![
            ("length_equals_n", len),
            ("source_distance_is_zero", zero),
            ("distances_agree_with_brute_force_bellman_ford", agree),
            ("none_iff_unreachable", none),
        ];
        let ghost cv = checks@;
        let ghost before = st;
        proof {
            reveal_strlit("length_equals_n");
            reveal_strlit("source_distance_is_zero");
            reveal_strlit("distances_agree_with_brute_force_bellman_ford");
            reveal_strlit("none_iff_unreachable");
            assert(check_names(cv) =~= dijkstra_checks());
            assert(cv[0].0@.len() == 15 && cv[1].0@.len() == 23 && cv[2].0@.len() == 45 && cv[3].0@.len() == 20);
            assert(all_ok(cv));
            assert forall|i: int| 0 <= i < st.counts().len() implies (#[trigger] st.counts()[i]).0 < u32::MAX by {
                if is_first(names, i) {} else {}
            }
        }
        record_trial(&mut st, trial, input_repr.as_str(), checks);
        proof {
            lemma_spotless_step(before, st, names, cv, trial as int);
        }
        trial = trial + 1;
    }
    Ok(finish_clean(st, Ghost(names), seed, num_trials, instance_id))
}

/// The check names of the breadth-first search family.
pub open spec fn bfs_checks() -> Seq<Seq<char>> {
    seq!["dist_length_matches_n"@, "dist_source_is_zero"@, "dist_matches_fw_unweighted"@, "unreachable_iff_no_path"@]
}

/// The breadth-first search family: random graphs of at most 64 vertices
/// with sorted, loop-free neighbour lists. Breadth-first search and the
/// Floyd–Warshall table both give the unweighted distances, so they agree
/// and no check is ever falsified.
pub fn run_bfs_shortest_path(
    instance_id: &str,
    seed: u64,
    num_trials: u32,
    oracle_checks: &Vec<String>,
    min_n: usize,
    max_n: usize,
    max_out_degree: usize,
) -> (res: Result<HarnessReport, BehaviorError>)
    ensures
        clean_outcome(res, config_names(oracle_checks@), bfs_checks(), instance_id@, seed, num_trials),
{
    let known: Vec<&str> = vec!["dist_length_matches_n", "dist_source_is_zero", "dist_matches_fw_unweighted", "unreachable_iff_no_path"];
    assert(known@.map_values(|s: &str| s@) =~= bfs_checks());
    let ghost names = config_names(oracle_checks@);
    let mut st = match start_run(oracle_checks, &known) {
        Ok(st) => st,
        Err(e) => return Err(e),
    };
    let mut rng = seeded_rng(seed);
    let lo = if min_n < 1 { 1 } else { min_n };
    let mut trial: u32 = 0;
    while trial < num_trials
        invariant
            trial <= num_trials,
            all_known(names, bfs_checks()),
            spotless_after(st, names, trial as int),
        decreases num_trials - trial,
    {
        let (adj, source) = adj_list(&mut rng, lo, max_n, max_out_degree);
        let d = bfs_shortest_path(adj.as_slice(), source);
        let f = fw_unweighted(adj.as_slice(), source);
        let n = adj.len();
        proof {
            lemma_bfs_agrees_with_floyd(adj@, source as int, d@, f@);
            assert(reaches_in(adj@, source as int, source as int, 0));
            assert(is_bfs_distance(adj@, source as int, source as int, d@[source as int]));
        }
        let mut input_repr = text("n=");
        push_all(&mut input_repr, unsigned_text(n as u64).as_str());
        push_all(&mut input_repr, ",src=");
        push_all(&mut input_repr, unsigned_text(source as u64).as_str());
        let len: Result<(), (String, String)> = if d.len() == n {
            Ok(())
        } else {
            Err((unsigned_text(d.len() as u64), unsigned_text(n as u64)))
        };
        let at_source = if source < d.len() { Some(d[source]) } else { None };
        let zero: Result<(), (String, String)> = match at_source {
            Some(Some(0)) => Ok(()),
            _ => {
                let inner = match at_source {
                    Some(x) => Some(distance_text(x)),
                    None => None,
                };
                Err((option_parts(inner), text("Some(Some(0))")))
            },
        };
        let agree: Result<(), (String, String)> = if same_distances(&d, &f) {
            Ok(())
        } else {
            Err((distances_text(d.as_slice()), distances_text(f.as_slice())))
        };
        let mut none: Result<(), (String, String)> = Ok(());
        let mut v: usize = 0;
        while v < n
            invariant
                n == d@.len(),
                n == f@.len(),
                d@ == f@,
                v <= n,
                none is Ok,
            decreases n - v,
        {
            if d[v].is_none() != f[v].is_none() {
                none = Err((distance_text(d[v]), distance_text(f[v])));
                break;
            }
            v = v + 1;
        }
        let checks: Vec<(&str, Result<(), (String, String)>)> = vec![
            ("dist_length_matches_n", len),
            ("dist_source_is_zero", zero),
            ("dist_matches_fw_unweighted", agree),
            ("unreachable_iff_no_path", none),
        ];
        let ghost cv = checks@;
        let ghost before = st;
        proof {
            reveal_strlit("dist_length_matches_n");
            reveal_strlit("dist_source_is_zero");
            reveal_strlit("dist_matches_fw_unweighted");
            reveal_strlit("unreachable_iff_no_path");
            assert(check_names(cv) =~= bfs_checks());
            assert(cv[0].0@.len() == 21 && cv[1].0@.len() == 19 && cv[2].0@.len() == 26 && cv[3].0@.len() == 23);
            assert(all_ok(cv));
            assert forall|i: int| 0 <= i < st.counts().len() implies (#[trigger] st.counts()[i]).0 < u32::MAX by {
                if is_first(names, i) {} else {}
            }
        }
        record_trial(&mut st, trial, input_repr.as_str(), checks);
        proof {
            lemma_spotless_step(before, st, names, cv, trial as int);
        }
        trial = trial + 1;
    }
    Ok(finish_clean(st, Ghost(names), seed, num_trials, instance_id))
}


/// The best knapsack value is at most `i` times the largest value.
proof fn lemma_knap_bounded(weights: Seq<u32>, values: Seq<u32>, i: nat, c: int, v_max: u32)
    requires
        i <= values.len(),
        i <= weights.len(),
        forall|k: int| 0 <= k < values.len() ==> #[trigger] values[k] <= v_max,
    ensures
        0 <= knap_best(weights, values, i, c) <= i * v_max,
    decreases i,
{
    if i > 0 {
        lemma_knap_bounded(weights, values, (i - 1) as nat, c, v_max);
        lemma_knap_bounded(weights, values, (i - 1) as nat, c - weights[i - 1], v_max);
        assert(values[i - 1] <= v_max);
        assert((i - 1) * v_max + v_max == i * v_max) by (nonlinear_arith);
    }
}

/// With no capacity and positive weights nothing fits.
proof fn lemma_knap_nothing_fits(weights: Seq<u32>, values: Seq<u32>, i: nat)
    requires
        i <= weights.len(),
        forall|k: int| 0 <= k < weights.len() ==> #[trigger] weights[k] > 0,
    ensures
        knap_best(weights, values, i, 0) == 0,
    decreases i,
{
    if i > 0 {
        lemma_knap_nothing_fits(weights, values, (i - 1) as nat);
        assert(weights[i - 1] > 0);
    }
}

/// The check names of the knapsack family.
pub open spec fn knapsack_checks() -> Seq<Seq<char>> {
    seq!["result_matches_exhaustive_oracle"@, "result_nonnegative"@, "result_zero_when_capacity_zero_and_weights_positive"@]
}

/// The knapsack family: at most twelve items. The dynamic programme and the
/// exhaustive search over subsets give the same best value, and with no
/// capacity and positive weights that value is zero, so no check is ever
/// falsified. The values of twelve items must sum within `u32`, and the
/// capacity must index a table.
pub fn run_knapsack(
    instance_id: &str,
    seed: u64,
    num_trials: u32,
    oracle_checks: &Vec<String>,
    min_items: usize,
    max_items: usize,
    w_min: u32,
    w_max: u32,
    v_min: u32,
    v_max: u32,
    c_min: u32,
    c_max: u32,
) -> (res: Result<HarnessReport, BehaviorError>)
    requires
        c_min <= c_max,
        max_items == 0 || (w_min <= w_max && v_min <= v_max),
        (if max_items < 12 { max_items as int } else { 12 }) * (v_max as int) <= u32::MAX,
        (c_max as int) < usize::MAX,
    ensures
        clean_outcome(res, config_names(oracle_checks@), knapsack_checks(), instance_id@, seed, num_trials),
{
    let known: Vec<&str> = vec!["result_matches_exhaustive_oracle", "result_nonnegative", "result_zero_when_capacity_zero_and_weights_positive"];
    assert(known@.map_values(|s: &str| s@) =~= knapsack_checks());
    let ghost names = config_names(oracle_checks@);
    let mut st = match start_run(oracle_checks, &known) {
        Ok(st) => st,
        Err(e) => return Err(e),
    };
    let mut rng = seeded_rng(seed);
    let capped = if max_items < 12 { max_items } else { 12 };
    let mut trial: u32 = 0;
    while trial < num_trials
        invariant
            trial <= num_trials,
            c_min <= c_max,
            capped <= 12,
            capped == 0 || (w_min <= w_max && v_min <= v_max),
            capped * (v_max as int) <= u32::MAX,
            (c_max as int) < usize::MAX,
            all_known(names, knapsack_checks()),
            spotless_after(st, names, trial as int),
        decreases num_trials - trial,
    {
        let (weights, values, cap) = knapsack_instance(&mut rng, min_items, capped, w_min, w_max, v_min, v_max, c_min, c_max);
        proof {
            lemma_knap_bounded(weights@, values@, weights@.len(), cap as int, v_max);
            assert(weights@.len() <= capped);
            assert(weights@.len() * v_max <= capped * v_max) by (nonlinear_arith)
                requires weights@.len() <= capped;
            lemma_knapsack_agrees_with_exhaustive(weights@, values@, cap);
            assert(searched_items(weights@.len()) == weights@.len());
        }
        let out = knapsack_01(weights.as_slice(), values.as_slice(), cap);
        let exh = exhaustive_knapsack(weights.as_slice(), values.as_slice(), cap);
        let mut input_repr = text("n=");
        push_all(&mut input_repr, unsigned_text(weights.len() as u64).as_str());
        push_all(&mut input_repr, ",cap=");
        push_all(&mut input_repr, unsigned_text(cap as u64).as_str());
        let matches: Result<(), (String, String)> = if out == exh {
            Ok(())
        } else {
            Err((unsigned_text(out as u64), unsigned_text(exh as u64)))
        };
        let mut all_positive = true;
        let mut k: usize = 0;
        while k < weights.len()
            invariant
                k <= weights@.len(),
                all_positive == forall|j: int| 0 <= j < k ==> #[trigger] weights@[j] > 0,
            decreases weights@.len() - k,
        {
            if weights[k] == 0 {
                all_positive = false;
            }
            k = k + 1;
        }
        proof {
            if all_positive {
                lemma_knap_nothing_fits(weights@, values@, weights@.len());
            }
        }
        let zero: Result<(), (String, String)> = if cap == 0 && all_positive && out != 0 {
            Err((unsigned_text(out as u64), text("0 when capacity=0 and weights positive")))
        } else {
            Ok(())
        };
        let checks: Vec<(&str, Result<(), (String, String)>)> = vec![
            ("result_matches_exhaustive_oracle", matches),
            ("result_nonnegative", Ok(())),
            ("result_zero_when_capacity_zero_and_weights_positive", zero),
        ];
        let ghost cv = checks@;
        let ghost before = st;
        proof {
            reveal_strlit("result_matches_exhaustive_oracle");
            reveal_strlit("result_nonnegative");
            reveal_strlit("result_zero_when_capacity_zero_and_weights_positive");
            assert(check_names(cv) =~= knapsack_checks());
            assert(cv[0].0@.len() == 32 && cv[1].0@.len() == 18 && cv[2].0@.len() == 51);
            assert(all_ok(cv));
            assert forall|i: int| 0 <= i < st.counts().len() implies (#[trigger] st.counts()[i]).0 < u32::MAX by {
                if is_first(names, i) {} else {}
            }
        }
        record_trial(&mut st, trial, input_repr.as_str(), checks);
        proof {
            lemma_spotless_step(before, st, names, cv, trial as int);
        }
        trial = trial + 1;
    }
    Ok(finish_clean(st, Ghost(names), seed, num_trials, instance_id))
}


/// Whether every entry of `a` occurs in `b`.
fn covers(a: &Vec<i32>, b: &Vec<i32>) -> (r: bool)
    ensures
        r == forall|i: int| 0 <= i < a@.len() ==> b@.contains(#[trigger] a@[i]),
{
    let mut k: usize = 0;
    while k < a.len()
        invariant
            k <= a@.len(),
            forall|i: int| 0 <= i < k ==> b@.contains(#[trigger] a@[i]),
        decreases a@.len() - k,
    {
        if !occurs(b.as_slice(), a[k]) {
            return false;
        }
        k = k + 1;
    }
    true
}

/// The distinct entries of `v` in increasing order, for display.
fn sorted_distinct(v: &Vec<i32>) -> (out: Vec<i32>)
    ensures
        forall|i: int, j: int| 0 <= i < j < out@.len() ==> out@[i] < out@[j],
        forall|x: i32| out@.contains(x) <==> v@.contains(x),
{
    let sorted = merge_sort(v.as_slice());
    let ghost sv = sorted@;
    let mut out: Vec<i32> = Vec::new();
    let mut k: usize = 0;
    while k < sorted.len()
        invariant
            k <= sv.len(),
            sv == sorted@,
            sorted_nondecreasing(sv),
            is_permutation_of(v@, sv),
            forall|i: int, j: int| 0 <= i < j < out@.len() ==> out@[i] < out@[j],
            k == 0 <==> out@.len() == 0,
            k > 0 ==> out@.last() == sv[k - 1],
            forall|x: i32| out@.contains(x) <==> sv.take(k as int).contains(x),
        decreases sv.len() - k,
    {
        let ghost before = out@;
        if k == 0 || sorted[k - 1] != sorted[k] {
            out.push(sorted[k]);
            proof {
                if k > 0 {
                    assert(sv[k - 1] <= sv[k as int]);
                    assert forall|i: int, j: int| 0 <= i < j < out@.len() implies out@[i] < out@[j] by {
                        if j == out@.len() - 1 && i < j {
                            if i < before.len() - 1 {
                                assert(before[i] < before[before.len() - 1]);
                            }
                        } else {
                            assert(out@[i] == before[i] && out@[j] == before[j]);
                        }
                    }
                }
            }
        }
        proof {
            let t0 = sv.take(k as int);
            let t1 = sv.take(k + 1);
            assert(t1 =~= t0.push(sv[k as int]));
            assert forall|x: i32| out@.contains(x) <==> t1.contains(x) by {
                if out@.contains(x) {
                    let i = choose|i: int| 0 <= i < out@.len() && out@[i] == x;
                    if i < before.len() {
                        assert(before[i] == x);
                        assert(before.contains(x));
                        assert(t0.contains(x));
                        let j = choose|j: int| 0 <= j < t0.len() && t0[j] == x;
                        assert(t1[j] == x);
                    } else {
                        assert(t1[k as int] == x);
                    }
                }
                if t1.contains(x) {
                    let j = choose|j: int| 0 <= j < t1.len() && t1[j] == x;
                    if j < k {
                        assert(t0[j] == x);
                        assert(t0.contains(x));
                        assert(before.contains(x));
                        let i = choose|i: int| 0 <= i < before.len() && before[i] == x;
                        assert(out@[i] == x);
                    } else if out@.len() > before.len() {
                        assert(out@[out@.len() - 1] == x);
                    } else {
                        assert(before.last() == x);
                        assert(out@[before.len() - 1] == x);
                    }
                }
            }
        }
        k = k + 1;
    }
    proof {
        assert(sv.take(sv.len() as int) =~= sv);
        sv.to_multiset_ensures();
        v@.to_multiset_ensures();
        assert(sv.to_multiset() =~= v@.to_multiset());
        assert forall|x: i32| sv.contains(x) <==> v@.contains(x) by {
            assert(sv.contains(x) <==> sv.to_multiset().count(x) > 0);
            assert(v@.contains(x) <==> v@.to_multiset().count(x) > 0);
        }
    }
    out
}

/// Whether consecutive entries strictly increase.
fn strictly_ascending(v: &Vec<i32>) -> (r: bool)
    ensures
        r == forall|i: int| 0 <= i < v@.len() - 1 ==> #[trigger] v@[i] < v@[i + 1],
{
    let mut k: usize = 1;
    while k < v.len()
        invariant
            1 <= k,
            k <= v@.len() || v@.len() == 0,
            forall|i: int| 0 <= i < k - 1 && i < v@.len() - 1 ==> #[trigger] v@[i] < v@[i + 1],
        decreases v@.len() - k,
    {
        if v[k - 1] >= v[k] {
            return false;
        }
        k = k + 1;
    }
    true
}

/// The check names of the search-tree insertion family.
pub open spec fn bst_insert_checks() -> Seq<Seq<char>> {
    seq!["output_inorder_strictly_ascending"@, "output_contains_inserted_key"@, "output_contains_all_input_keys"@]
}

/// The search-tree insertion family: a tree built from random keys, then
/// one more key inserted. The in-order reading of a search tree strictly
/// increases and holds exactly its keys, so no check is ever falsified.
pub fn run_bst_insert(
    instance_id: &str,
    seed: u64,
    num_trials: u32,
    oracle_checks: &Vec<String>,
    min_size: usize,
    max_size: usize,
    key_min: i32,
    key_max: i32,
) -> (res: Result<HarnessReport, BehaviorError>)
    requires
        key_min <= key_max,
    ensures
        clean_outcome(res, config_names(oracle_checks@), bst_insert_checks(), instance_id@, seed, num_trials),
{
    let known: Vec<&str> = vec!["output_inorder_strictly_ascending", "output_contains_inserted_key", "output_contains_all_input_keys"];
    assert(known@.map_values(|s: &str| s@) =~= bst_insert_checks());
    let ghost names = config_names(oracle_checks@);
    let mut st = match start_run(oracle_checks, &known) {
        Ok(st) => st,
        Err(e) => return Err(e),
    };
    let mut rng = seeded_rng(seed);
    let mut trial: u32 = 0;
    while trial < num_trials
        invariant
            trial <= num_trials,
            key_min <= key_max,
            all_known(names, bst_insert_checks()),
            spotless_after(st, names, trial as int),
        decreases num_trials - trial,
    {
        let (existing, new_key) = bst_key_sequence(&mut rng, min_size, max_size, key_min, key_max);
        let base = build(Tree::Nil, existing.as_slice());
        let after = bst_insert(base, new_key);
        let mut io: Vec<i32> = Vec::new();
        inorder(&after, &mut io);
        let mut all_keys = existing.clone();
        assert(all_keys@ =~= existing@);
        all_keys.push(new_key);
        proof {
            assert(io@ =~= after.inorder());
            lemma_inorder_keys(after);
            lemma_bst_inorder_ascending(after);
            assert(Tree::Nil.keys() =~= Set::<i32>::empty());
            assert(after.keys() =~= existing@.to_set().insert(new_key));
        }
        let mut input_repr = text("|keys|=");
        push_all(&mut input_repr, unsigned_text(existing.len() as u64).as_str());
        push_all(&mut input_repr, ",new=");
        push_all(&mut input_repr, signed_text(new_key as i64).as_str());
        let asc: Result<(), (String, String)> = if strictly_ascending(&io) {
            Ok(())
        } else {
            Err((i32_list_text(io.as_slice()), text("strictly ascending")))
        };
        let has: Result<(), (String, String)> = if occurs(io.as_slice(), new_key) {
            Ok(())
        } else {
            let mut exp = signed_text(new_key as i64);
            push_all(&mut exp, " present");
            Err((text("missing"), exp))
        };
        let both_ways = covers(&io, &all_keys) && covers(&all_keys, &io);
        proof {
            assert forall|i: int| 0 <= i < io@.len() implies all_keys@.contains(#[trigger] io@[i]) by {
                assert(io@.contains(io@[i]));
                assert(after.keys().contains(io@[i]));
                if io@[i] != new_key {
                    assert(existing@.to_set().contains(io@[i]));
                    let j = choose|j: int| 0 <= j < existing@.len() && existing@[j] == io@[i];
                    assert(all_keys@[j] == io@[i]);
                } else {
                    assert(all_keys@[existing@.len() as int] == new_key);
                }
            }
            assert forall|i: int| 0 <= i < all_keys@.len() implies io@.contains(#[trigger] all_keys@[i]) by {
                if i < existing@.len() {
                    assert(existing@.contains(existing@[i]));
                    assert(after.keys().contains(all_keys@[i]));
                } else {
                    assert(after.keys().contains(new_key));
                }
            }
            assert(after.keys().contains(new_key));
        }
        let all: Result<(), (String, String)> = if both_ways {
            Ok(())
        } else {
            Err((i32_set_text(sorted_distinct(&io).as_slice()), i32_set_text(sorted_distinct(&all_keys).as_slice())))
        };
        let checks: Vec<(&str, Result<(), (String, String)>)> = vec![
            ("output_inorder_strictly_ascending", asc),
            ("output_contains_inserted_key", has),
            ("output_contains_all_input_keys", all),
        ];
        let ghost cv = checks@;
        let ghost before = st;
        proof {
            reveal_strlit("output_inorder_strictly_ascending");
            reveal_strlit("output_contains_inserted_key");
            reveal_strlit("output_contains_all_input_keys");
            assert(check_names(cv) =~= bst_insert_checks());
            assert(cv[0].0@.len() == 33 && cv[1].0@.len() == 28 && cv[2].0@.len() == 30);
            assert(all_ok(cv));
            assert forall|i: int| 0 <= i < st.counts().len() implies (#[trigger] st.counts()[i]).0 < u32::MAX by {
                if is_first(names, i) {} else {}
            }
        }
        record_trial(&mut st, trial, input_repr.as_str(), checks);
        proof {
            lemma_spotless_step(before, st, names, cv, trial as int);
        }
        trial = trial + 1;
    }
    Ok(finish_clean(st, Ghost(names), seed, num_trials, instance_id))
}

/// `Some(k)` or `None` of a key.
fn key_text(o: Option<i32>) -> (out: String)
    ensures
        out@ == option_text(match o { Some(k) => Some(signed(k as int)), None => None }),
{
    match o {
        Some(k) => option_parts(Some(signed_text(k as i64))),
        None => option_parts(None),
    }
}

/// The check names of the lowest-common-ancestor family.
pub open spec fn lca_checks() -> Seq<Seq<char>> {
    seq!["returned_key_in_tree"@, "both_queries_in_subtree_at_returned_key"@, "result_matches_brute_lca_oracle"@]
}

/// The lowest-common-ancestor family: a search tree of at least two
/// distinct random keys and two of its keys as queries. The descent's split
/// node is a key between the queries and is the last key shared by the
/// paths to them, so no check is ever falsified.
pub fn run_lca(
    instance_id: &str,
    seed: u64,
    num_trials: u32,
    oracle_checks: &Vec<String>,
    min_size: usize,
    max_size: usize,
    key_min: i32,
    key_max: i32,
) -> (res: Result<HarnessReport, BehaviorError>)
    requires
        key_min <= key_max || max_size == 0,
    ensures
        clean_outcome(res, config_names(oracle_checks@), lca_checks(), instance_id@, seed, num_trials),
{
    let known: Vec<&str> = vec!["returned_key_in_tree", "both_queries_in_subtree_at_returned_key", "result_matches_brute_lca_oracle"];
    assert(known@.map_values(|s: &str| s@) =~= lca_checks());
    let ghost names = config_names(oracle_checks@);
    let mut st = match start_run(oracle_checks, &known) {
        Ok(st) => st,
        Err(e) => return Err(e),
    };
    let mut rng = seeded_rng(seed);
    let mut trial: u32 = 0;
    while trial < num_trials
        invariant
            trial <= num_trials,
            key_min <= key_max || max_size == 0,
            all_known(names, lca_checks()),
            spotless_after(st, names, trial as int),
        decreases num_trials - trial,
    {
        let (keys, p, q) = bst_with_two_keys(&mut rng, min_size, max_size, key_min, key_max);
        let t = build(Tree::Nil, keys.as_slice());
        let out = lca_bst(&t, p, q);
        let brute = brute_lca(&t, p, q);
        let (lo, hi) = if p <= q { (p, q) } else { (q, p) };
        proof {
            assert(Tree::Nil.keys() =~= Set::<i32>::empty());
            assert(t.keys() =~= keys@.to_set());
            assert(t.keys().contains(p));
            assert(t.keys().contains(q));
            lemma_lca_agrees_with_brute(t, p, q);
            lemma_split_key_in_range(t, lo, hi);
        }
        let mut input_repr = text("|keys|=");
        push_all(&mut input_repr, unsigned_text(keys.len() as u64).as_str());
        push_all(&mut input_repr, ",p=");
        push_all(&mut input_repr, signed_text(p as i64).as_str());
        push_all(&mut input_repr, ",q=");
        push_all(&mut input_repr, signed_text(q as i64).as_str());
        let in_tree: Result<(), (String, String)> = match out {
            Some(k) => if contains(&t, k) {
                Ok(())
            } else {
                Err((signed_text(k as i64), text("key in tree")))
            },
            None => if !contains(&t, p) || !contains(&t, q) {
                Ok(())
            } else {
                Err((text("None"), text("Some when both keys present")))
            },
        };
        let between: Result<(), (String, String)> = match out {
            Some(k) => if !(lo <= k && k <= hi) {
                let mut exp = text("in [");
                push_all(&mut exp, signed_text(lo as i64).as_str());
                push_all(&mut exp, ",");
                push_all(&mut exp, signed_text(hi as i64).as_str());
                push_all(&mut exp, "]");
                Err((signed_text(k as i64), exp))
            } else {
                Ok(())
            },
            None => Ok(()),
        };
        let same_answer = match (out, brute) {
            (Some(a), Some(b)) => a == b,
            (None, None) => true,
            _ => false,
        };
        let same: Result<(), (String, String)> = if same_answer {
            Ok(())
        } else {
            Err((key_text(out), key_text(brute)))
        };
        let checks: Vec<(&str, Result<(), (String, String)>)> = vec![
            ("returned_key_in_tree", in_tree),
            ("both_queries_in_subtree_at_returned_key", between),
            ("result_matches_brute_lca_oracle", same),
        ];
        let ghost cv = checks@;
        let ghost before = st;
        proof {
            reveal_strlit("returned_key_in_tree");
            reveal_strlit("both_queries_in_subtree_at_returned_key");
            reveal_strlit("result_matches_brute_lca_oracle");
            assert(check_names(cv) =~= lca_checks());
            assert(cv[0].0@.len() == 20 && cv[1].0@.len() == 39 && cv[2].0@.len() == 31);
            assert(all_ok(cv));
            assert forall|i: int| 0 <= i < st.counts().len() implies (#[trigger] st.counts()[i]).0 < u32::MAX by {
                if is_first(names, i) {} else {}
            }
        }
        record_trial(&mut st, trial, input_repr.as_str(), checks);
        proof {
            lemma_spotless_step(before, st, names, cv, trial as int);
        }
        trial = trial + 1;
    }
    Ok(finish_clean(st, Ghost(names), seed, num_trials, instance_id))
}


/// The check names of the longest-common-subsequence family.
pub open spec fn lcs_checks() -> Seq<Seq<char>> {
    seq!["result_bounded_by_min_length"@, "result_matches_dp_oracle"@, "result_symmetric"@]
}

/// The longest-common-subsequence family: two random vectors. The length is
/// at most the shorter length, the same when recomputed and the same with
/// the vectors swapped, so no check is ever falsified.
pub fn run_lcs(
    instance_id: &str,
    seed: u64,
    num_trials: u32,
    oracle_checks: &Vec<String>,
    min_len: usize,
    max_len: usize,
    value_min: i32,
    value_max: i32,
) -> (res: Result<HarnessReport, BehaviorError>)
    requires
        value_min <= value_max || max_len == 0,
    ensures
        clean_outcome(res, config_names(oracle_checks@), lcs_checks(), instance_id@, seed, num_trials),
{
    let known: Vec<&str> = vec!["result_bounded_by_min_length", "result_matches_dp_oracle", "result_symmetric"];
    assert(known@.map_values(|s: &str| s@) =~= lcs_checks());
    let ghost names = config_names(oracle_checks@);
    let mut st = match start_run(oracle_checks, &known) {
        Ok(st) => st,
        Err(e) => return Err(e),
    };
    let mut rng = seeded_rng(seed);
    let mut trial: u32 = 0;
    while trial < num_trials
        invariant
            trial <= num_trials,
            value_min <= value_max || max_len == 0,
            all_known(names, lcs_checks()),
            spotless_after(st, names, trial as int),
        decreases num_trials - trial,
    {
        let (a, b) = pair_int_vec(&mut rng, min_len, max_len, value_min, value_max);
        let out = lcs_length(a.as_slice(), b.as_slice());
        proof {
            lemma_lcs_bounded(a@, b@, a@.len(), b@.len());
            lemma_lcs_symmetric(a@, b@, a@.len(), b@.len());
        }
        let mut input_repr = text("|a|=");
        push_all(&mut input_repr, unsigned_text(a.len() as u64).as_str());
        push_all(&mut input_repr, ",|b|=");
        push_all(&mut input_repr, unsigned_text(b.len() as u64).as_str());
        let m = if a.len() < b.len() { a.len() } else { b.len() };
        let bounded: Result<(), (String, String)> = if out <= m {
            Ok(())
        } else {
            let mut exp = text("<= ");
            push_all(&mut exp, unsigned_text(m as u64).as_str());
            Err((unsigned_text(out as u64), exp))
        };
        let again: Result<(), (String, String)> = if out == lcs_length(a.as_slice(), b.as_slice()) {
            Ok(())
        } else {
            Err((unsigned_text(out as u64), text("stable under recomputation")))
        };
        let swapped = lcs_length(b.as_slice(), a.as_slice());
        let sym: Result<(), (String, String)> = if out == swapped {
            Ok(())
        } else {
            let mut obs = unsigned_text(out as u64);
            push_all(&mut obs, " != ");
            push_all(&mut obs, unsigned_text(swapped as u64).as_str());
            Err((obs, text("lcs(a,b) == lcs(b,a)")))
        };
        let checks: Vec<(&str, Result<(), (String, String)>)> = vec![
            ("result_bounded_by_min_length", bounded),
            ("result_matches_dp_oracle", again),
            ("result_symmetric", sym),
        ];
        let ghost cv = checks@;
        let ghost before = st;
        proof {
            reveal_strlit("result_bounded_by_min_length");
            reveal_strlit("result_matches_dp_oracle");
            reveal_strlit("result_symmetric");
            assert(check_names(cv) =~= lcs_checks());
            assert(cv[0].0@.len() == 28 && cv[1].0@.len() == 24 && cv[2].0@.len() == 16);
            assert(all_ok(cv));
            assert forall|i: int| 0 <= i < st.counts().len() implies (#[trigger] st.counts()[i]).0 < u32::MAX by {
                if is_first(names, i) {} else {}
            }
        }
        record_trial(&mut st, trial, input_repr.as_str(), checks);
        proof {
            lemma_spotless_step(before, st, names, cv, trial as int);
        }
        trial = trial + 1;
    }
    Ok(finish_clean(st, Ghost(names), seed, num_trials, instance_id))
}

/// The larger magnitude of the two ends of a value range.
pub open spec fn magnitude_bound(value_min: i32, value_max: i32) -> int {
    let a = if value_min < 0 { -value_min } else { value_min as int };
    let b = if value_max < 0 { -value_max } else { value_max as int };
    if a >= b { a } else { b }
}

/// A range sum of values of magnitude at most `bound` has magnitude at most
/// the range length times `bound`.
proof fn lemma_range_sum_within(s: Seq<i32>, i: int, j: int, bound: int)
    requires
        0 <= i <= j <= s.len(),
        forall|k: int| 0 <= k < s.len() ==> -bound <= #[trigger] s[k] <= bound,
    ensures
        -(j - i) * bound <= range_sum(s, i, j) <= (j - i) * bound,
    decreases j - i,
{
    if j > i {
        lemma_range_sum_within(s, i, j - 1, bound);
        let x = s[j - 1] as int;
        assert(-bound <= x <= bound);
        let n = j - 1 - i;
        assert(range_sum(s, i, j) == range_sum(s, i, j - 1) + x);
        assert((n + 1) * bound == n * bound + bound) by (nonlinear_arith);
        assert(-(n + 1) * bound == -n * bound - bound) by (nonlinear_arith);
        assert((j - i) * bound == (n + 1) * bound) by (nonlinear_arith)
            requires j - i == n + 1;
        assert(-(j - i) * bound == -(n + 1) * bound) by (nonlinear_arith)
            requires j - i == n + 1;
    } else {
        assert((j - i) * bound == 0) by (nonlinear_arith)
            requires j == i;
        assert(-(j - i) * bound == 0) by (nonlinear_arith)
            requires j == i;
    }
}

/// The check names of the maximum-subarray family.
pub open spec fn max_subarray_checks() -> Seq<Seq<char>> {
    seq!["result_matches_quadratic_oracle"@, "result_at_least_max_element"@, "result_finite"@]
}

/// The maximum-subarray family: a non-empty random vector (a lone zero when
/// the length range allows none). Kadane's scan and the quadratic oracle
/// both give the largest range sum, which is at least every element, so no
/// check is ever falsified. Every range sum must fit in `i32`: at most
/// `min(max_len, 256)` values of magnitude `magnitude_bound`.
pub fn run_max_subarray(
    instance_id: &str,
    seed: u64,
    num_trials: u32,
    oracle_checks: &Vec<String>,
    min_len: usize,
    max_len: usize,
    value_min: i32,
    value_max: i32,
) -> (res: Result<HarnessReport, BehaviorError>)
    requires
        value_min <= value_max || max_len == 0,
        (max_len as int) * magnitude_bound(value_min, value_max) <= i32::MAX
            || 256 * magnitude_bound(value_min, value_max) <= i32::MAX,
    ensures
        clean_outcome(res, config_names(oracle_checks@), max_subarray_checks(), instance_id@, seed, num_trials),
{
    let known: Vec<&str> = vec!["result_matches_quadratic_oracle", "result_at_least_max_element", "result_finite"];
    assert(known@.map_values(|s: &str| s@) =~= max_subarray_checks());
    let ghost names = config_names(oracle_checks@);
    let ghost bound = magnitude_bound(value_min, value_max);
    let mut st = match start_run(oracle_checks, &known) {
        Ok(st) => st,
        Err(e) => return Err(e),
    };
    let mut rng = seeded_rng(seed);
    let lo = if min_len < 1 { 1 } else { min_len };
    let mut trial: u32 = 0;
    while trial < num_trials
        invariant
            trial <= num_trials,
            value_min <= value_max || max_len == 0,
            bound == magnitude_bound(value_min, value_max),
            lo >= 1,
            (max_len as int) * bound <= i32::MAX || 256 * bound <= i32::MAX,
            all_known(names, max_subarray_checks()),
            spotless_after(st, names, trial as int),
        decreases num_trials - trial,
    {
        let mut arr = int_vec(&mut rng, lo, max_len, value_min, value_max);
        let ghost drawn = arr@;
        if arr.len() == 0 {
            arr.push(0);
        }
        assert(max_len == 0 ==> drawn.len() == 0 && arr@ =~= seq![0i32]);
        assert(max_len > 0 ==> arr@ == drawn && 1 <= drawn.len());
        proof {
            assert(bound >= 0);
            assert(bound <= 0x8000_0000);
            assert forall|i: int, j: int| 0 <= i < j <= arr@.len()
                implies -i32::MAX <= #[trigger] range_sum(arr@, i, j) <= i32::MAX by {
                if max_len == 0 {
                    assert(arr@ =~= seq![0i32]);
                    assert(range_sum(arr@, 0, 0) == 0);
                    assert(i == 0 && j == 1);
                } else {
                    assert forall|k: int| 0 <= k < arr@.len() implies -bound <= #[trigger] arr@[k] <= bound by {}
                    assert(arr@.len() <= max_len && arr@.len() <= 256);
                    lemma_range_sum_within(arr@, i, j, bound);
                    assert(-(j - i) * bound == -((j - i) * bound)) by (nonlinear_arith);
                    assert((j - i) * bound <= (arr@.len() as int) * bound) by (nonlinear_arith)
                        requires j - i <= arr@.len(), bound >= 0;
                    if (max_len as int) * bound <= i32::MAX {
                        assert((arr@.len() as int) * bound <= (max_len as int) * bound) by (nonlinear_arith)
                            requires arr@.len() <= max_len, bound >= 0;
                    } else {
                        assert((arr@.len() as int) * bound <= 256 * bound) by (nonlinear_arith)
                            requires arr@.len() <= 256, bound >= 0;
                    }
                }
            }
        }
        let out = max_subarray(arr.as_slice());
        let oracle = quadratic_oracle(arr.as_slice());
        proof {
            crate::algorithms::subarray::lemma_max_subarray_sum_unique(arr@, out as int, oracle as int);
        }
        let mut max_elem = arr[0];
        let mut k: usize = 1;
        while k < arr.len()
            invariant
                1 <= k <= arr@.len(),
                exists|t: int| 0 <= t < k && arr@[t] == max_elem,
            decreases arr@.len() - k,
        {
            if arr[k] > max_elem {
                max_elem = arr[k];
            }
            k = k + 1;
        }
        let mut input_repr = text("arr.len()=");
        push_all(&mut input_repr, unsigned_text(arr.len() as u64).as_str());
        let matches: Result<(), (String, String)> = if out as i64 == oracle {
            Ok(())
        } else {
            Err((signed_text(out as i64), signed_text(oracle)))
        };
        let at_least: Result<(), (String, String)> = if out >= max_elem {
            Ok(())
        } else {
            let mut exp = text(">= ");
            push_all(&mut exp, signed_text(max_elem as i64).as_str());
            Err((signed_text(out as i64), exp))
        };
        let magnitude: i64 = if out < 0 { -(out as i64) } else { out as i64 };
        proof {
            let (i, j) = choose|i: int, j: int| 0 <= i < j <= arr@.len() && range_sum(arr@, i, j) == out;
            assert(-i32::MAX <= range_sum(arr@, i, j) <= i32::MAX);
        }
        let finite: Result<(), (String, String)> = if magnitude <= i32::MAX as i64 {
            Ok(())
        } else {
            Err((signed_text(out as i64), text("finite i32")))
        };
        let checks: Vec<(&str, Result<(), (String, String)>)> = vec![
            ("result_matches_quadratic_oracle", matches),
            ("result_at_least_max_element", at_least),
            ("result_finite", finite),
        ];
        let ghost cv = checks@;
        let ghost before = st;
        proof {
            reveal_strlit("result_matches_quadratic_oracle");
            reveal_strlit("result_at_least_max_element");
            reveal_strlit("result_finite");
            assert(check_names(cv) =~= max_subarray_checks());
            assert(cv[0].0@.len() == 31 && cv[1].0@.len() == 27 && cv[2].0@.len() == 13);
            assert(all_ok(cv));
            assert forall|i: int| 0 <= i < st.counts().len() implies (#[trigger] st.counts()[i]).0 < u32::MAX by {
                if is_first(names, i) {} else {}
            }
        }
        record_trial(&mut st, trial, input_repr.as_str(), checks);
        proof {
            lemma_spotless_step(before, st, names, cv, trial as int);
        }
        trial = trial + 1;
    }
    Ok(finish_clean(st, Ghost(names), seed, num_trials, instance_id))
}


/// A finished run, whatever it found: every first occurrence of a
/// configured name was evaluated on each trial, a repeated name never.
pub open spec fn tallied_report(r: HarnessReport, instance_id: Seq<char>, seed: u64, num_trials: u32, names: Seq<Seq<char>>) -> bool {
    &&& r.instance_id@ == instance_id
    &&& r.seed == seed
    &&& r.trials_run == num_trials
    &&& r.oracle_stats@.len() == names.len()
    &&& forall|i: int| 0 <= i < names.len() ==> (#[trigger] r.oracle_stats@[i]).name@ == names[i]
        && r.oracle_stats@[i].trials_evaluated == (if is_first(names, i) { num_trials } else { 0u32 })
}

/// Only checks named in `fallible` were ever rejected or recorded as
/// falsified.
pub open spec fn blames_only(r: HarnessReport, names: Seq<Seq<char>>, fallible: Seq<Seq<char>>) -> bool {
    &&& forall|i: int| 0 <= i < names.len() && !fallible.contains(names[i]) ==> (#[trigger] r.oracle_stats@[i]).violations == 0
    &&& forall|k: int| 0 <= k < r.falsifications@.len() ==> fallible.contains((#[trigger] r.falsifications@[k]).oracle_check@)
}

/// The counters after `t` trials of a run in which only checks named in
/// `fallible` ever failed.
pub open spec fn blamed_after(st: OracleState, names: Seq<Seq<char>>, t: int, fallible: Seq<Seq<char>>) -> bool {
    &&& st.well_formed()
    &&& st.names() == names
    &&& st.counts().len() == names.len()
    &&& forall|i: int| 0 <= i < names.len() ==> (#[trigger] st.counts()[i]).0 == (if is_first(names, i) { t } else { 0 })
    &&& forall|i: int| 0 <= i < names.len() && !fallible.contains(names[i]) ==> (#[trigger] st.counts()[i]).1 == 0
    &&& forall|k: int| 0 <= k < st.records().len() ==> fallible.contains((#[trigger] st.records()[k]).0)
}

/// A trial whose checks cover every configured name, and in which only
/// checks named in `fallible` failed, keeps that so.
proof fn lemma_blamed_step(
    before: OracleState,
    after: OracleState,
    names: Seq<Seq<char>>,
    checks: Seq<(&str, Result<(), (String, String)>)>,
    t: int,
    fallible: Seq<Seq<char>>,
)
    requires
        blamed_after(before, names, t, fallible),
        forall|j: int| 0 <= j < checks.len() && (#[trigger] checks[j]).1 is Err ==> fallible.contains(checks[j].0@),
        forall|k: int| 0 <= k < names.len() ==> check_names(checks).contains(#[trigger] names[k]),
        after.well_formed(),
        after.names() == before.names(),
        after.counts().len() == before.counts().len(),
        forall|i: int| 0 <= i < before.counts().len() ==> (#[trigger] after.counts()[i]).0
            == before.counts()[i].0 + (if checked_at(check_names(checks), before.names(), i) { 1int } else { 0int }),
        forall|i: int| 0 <= i < before.counts().len() ==> (#[trigger] after.counts()[i]).1
            == before.counts()[i].1 + (if failed_at(checks, before.names(), i) { 1int } else { 0int }),
        after.records().len() >= before.records().len(),
        forall|k: int| 0 <= k < before.records().len() ==> #[trigger] after.records()[k] == before.records()[k],
        forall|k: int| before.records().len() <= k < after.records().len()
            ==> failed_named(checks, (#[trigger] after.records()[k]).0),
    ensures
        blamed_after(after, names, t + 1, fallible),
{
    assert forall|i: int| 0 <= i < names.len() implies (#[trigger] after.counts()[i]).0
        == (if is_first(names, i) { t + 1 } else { 0 }) by {
        lemma_checked_are_firsts(check_names(checks), names, i);
    }
    assert forall|i: int| 0 <= i < names.len() && !fallible.contains(names[i]) implies (#[trigger] after.counts()[i]).1 == 0 by {
        if failed_at(checks, names, i) {
            let j = choose|j: int| 0 <= j < checks.len() && (#[trigger] checks[j]).1 is Err
                && crate::harness::first_index(names, checks[j].0@) == Some(i);
            crate::pilot::trials::lemma_first_index(names, checks[j].0@, i);
        }
    }
    assert forall|k: int| 0 <= k < after.records().len() implies fallible.contains((#[trigger] after.records()[k]).0) by {
        if k >= before.records().len() {
            assert(failed_named(checks, after.records()[k].0));
        } else {
            assert(after.records()[k] == before.records()[k]);
        }
    }
}

/// The report of a run in which only checks named in `fallible` failed.
fn finish_blamed(st: OracleState, names: Ghost<Seq<Seq<char>>>, fallible: Ghost<Seq<Seq<char>>>, seed: u64, num_trials: u32, instance_id: &str) -> (r: HarnessReport)
    requires
        blamed_after(st, names@, num_trials as int, fallible@),
    ensures
        tallied_report(r, instance_id@, seed, num_trials, names@),
        blames_only(r, names@, fallible@),
{
    let r = st.finalize(seed, num_trials, instance_id);
    proof {
        assert forall|i: int| 0 <= i < names@.len() implies (#[trigger] r.oracle_stats@[i]).name@ == names@[i]
            && r.oracle_stats@[i].trials_evaluated == (if is_first(names@, i) { num_trials } else { 0u32 }) by {
            assert(r.oracle_stats@.map_values(|s: OracleCheckStats| s.name@)[i] == r.oracle_stats@[i].name@);
            assert(r.oracle_stats@.map_values(|s: OracleCheckStats| (s.trials_evaluated, s.violations))[i]
                == (r.oracle_stats@[i].trials_evaluated, r.oracle_stats@[i].violations));
        }
        assert forall|i: int| 0 <= i < names@.len() && !fallible@.contains(names@[i]) implies (#[trigger] r.oracle_stats@[i]).violations == 0 by {
            assert(r.oracle_stats@.map_values(|s: OracleCheckStats| (s.trials_evaluated, s.violations))[i]
                == (r.oracle_stats@[i].trials_evaluated, r.oracle_stats@[i].violations));
        }
        assert forall|k: int| 0 <= k < r.falsifications@.len() implies fallible@.contains((#[trigger] r.falsifications@[k]).oracle_check@) by {
            let f = r.falsifications@[k];
            assert(r.falsifications@.map_values(|f: crate::harness::Falsification| (f.oracle_check@, f.input_repr@, f.observed@, f.expected@, f.trial))[k]
                == (f.oracle_check@, f.input_repr@, f.observed@, f.expected@, f.trial));
        }
    }
    r
}

/// A spotless start is a start in which nothing failed.
proof fn lemma_spotless_is_blamed(st: OracleState, names: Seq<Seq<char>>, fallible: Seq<Seq<char>>)
    requires
        spotless_after(st, names, 0),
    ensures
        blamed_after(st, names, 0, fallible),
{
}

/// A chain picks strictly increasing positions below `p`, so it is no
/// longer than `p`.
proof fn lemma_chain_short(t: Seq<(i32, i32)>, c: Seq<int>, p: int)
    requires
        is_chain(t, c, p),
        p >= 0,
    ensures
        c.len() <= p,
{
    if c.len() > 0 {
        assert forall|a: int| 0 <= a < c.len() implies #[trigger] c[a] >= a by {
            lemma_chain_position(t, c, p, a);
        }
        assert(c[c.len() - 1] >= c.len() - 1);
        assert(0 <= c[c.len() - 1] < p);
    }
}

/// The `a`-th pick of a chain is at position `a` or later.
proof fn lemma_chain_position(t: Seq<(i32, i32)>, c: Seq<int>, p: int, a: int)
    requires
        is_chain(t, c, p),
        0 <= a < c.len(),
    ensures
        c[a] >= a,
    decreases a,
{
    if a > 0 {
        lemma_chain_position(t, c, p, a - 1);
        assert(c[a - 1] < c[a]);
    } else {
        assert(0 <= c[0]);
    }
}

/// The check names of the interval scheduling family.
pub open spec fn interval_checks() -> Seq<Seq<char>> {
    seq!["result_matches_exhaustive_oracle"@, "result_at_most_input_length"@, "result_nonnegative"@]
}

/// The interval scheduling family: at most twelve intervals with integer
/// ends, each starting before it stops. The greedy count never exceeds the
/// number of intervals, so only the comparison with the exhaustive search
/// over subsets can ever be falsified.
pub fn run_interval_scheduling(
    instance_id: &str,
    seed: u64,
    num_trials: u32,
    oracle_checks: &Vec<String>,
    min_len: usize,
    max_len: usize,
    coord_min: i32,
    coord_max: i32,
) -> (res: Result<HarnessReport, BehaviorError>)
    requires
        (coord_min <= coord_max && coord_max < i32::MAX) || max_len == 0,
    ensures
        match res {
            Ok(r) => all_known(config_names(oracle_checks@), interval_checks())
                && tallied_report(r, instance_id@, seed, num_trials, config_names(oracle_checks@))
                && blames_only(r, config_names(oracle_checks@), seq!["result_matches_exhaustive_oracle"@]),
            Err(e) => refused(config_names(oracle_checks@), interval_checks(), e),
        },
{
    let known: Vec<&str> = vec!["result_matches_exhaustive_oracle", "result_at_most_input_length", "result_nonnegative"];
    assert(known@.map_values(|s: &str| s@) =~= interval_checks());
    let ghost names = config_names(oracle_checks@);
    let ghost fallible = seq!["result_matches_exhaustive_oracle"@];
    let mut st = match start_run(oracle_checks, &known) {
        Ok(st) => st,
        Err(e) => return Err(e),
    };
    proof {
        lemma_spotless_is_blamed(st, names, fallible);
    }
    let mut rng = seeded_rng(seed);
    let capped = if max_len < 12 { max_len } else { 12 };
    let mut trial: u32 = 0;
    while trial < num_trials
        invariant
            trial <= num_trials,
            (coord_min <= coord_max && coord_max < i32::MAX) || capped == 0,
            fallible == seq!["result_matches_exhaustive_oracle"@],
            all_known(names, interval_checks()),
            blamed_after(st, names, trial as int, fallible),
        decreases num_trials - trial,
    {
        let ivs = interval_vec(&mut rng, min_len, capped, coord_min, coord_max);
        let out = interval_scheduling(ivs.as_slice());
        let oracle = exhaustive_oracle(ivs.as_slice());
        proof {
            let t = choose|t: Seq<(i32, i32)>| #[trigger] t.to_multiset() == ivs@.to_multiset()
                && sorted_by_end(t) && is_max_chain_len(t, out as int);
            assert(t.len() == ivs@.len()) by {
                t.to_multiset_ensures();
                ivs@.to_multiset_ensures();
            }
            let c = choose|c: Seq<int>| #[trigger] is_chain(t, c, t.len() as int) && c.len() == out as int;
            lemma_chain_short(t, c, t.len() as int);
        }
        let mut input_repr = text("n=");
        push_all(&mut input_repr, unsigned_text(ivs.len() as u64).as_str());
        let matches: Result<(), (String, String)> = if out == oracle {
            Ok(())
        } else {
            Err((unsigned_text(out as u64), unsigned_text(oracle as u64)))
        };
        let at_most: Result<(), (String, String)> = if out <= ivs.len() {
            Ok(())
        } else {
            let mut exp = text("<= ");
            push_all(&mut exp, unsigned_text(ivs.len() as u64).as_str());
            Err((unsigned_text(out as u64), exp))
        };
        let checks: Vec<(&str, Result<(), (String, String)>)> = vec![
            ("result_matches_exhaustive_oracle", matches),
            ("result_at_most_input_length", at_most),
            ("result_nonnegative", Ok(())),
        ];
        let ghost cv = checks@;
        let ghost before = st;
        proof {
            reveal_strlit("result_matches_exhaustive_oracle");
            reveal_strlit("result_at_most_input_length");
            reveal_strlit("result_nonnegative");
            assert(check_names(cv) =~= interval_checks());
            assert(cv[0].0@.len() == 32 && cv[1].0@.len() == 27 && cv[2].0@.len() == 18);
            assert forall|j: int| 0 <= j < cv.len() && (#[trigger] cv[j]).1 is Err implies fallible.contains(cv[j].0@) by {
                assert(j == 0);
                assert(fallible[0] == cv[0].0@);
            }
            st.lemma_counts_match_names();
            assert forall|i: int| 0 <= i < st.counts().len() implies (#[trigger] st.counts()[i]).0 < u32::MAX by {
                if is_first(names, i) {} else {}
            }
        }
        record_trial(&mut st, trial, input_repr.as_str(), checks);
        proof {
            lemma_blamed_step(before, st, names, cv, trial as int, fallible);
        }
        trial = trial + 1;
    }
    Ok(finish_blamed(st, Ghost(names), Ghost(fallible), seed, num_trials, instance_id))
}


/// The check names of the coin change family.
pub open spec fn coin_change_checks() -> Seq<Seq<char>> {
    seq!["counts_length_matches_denoms"@, "weighted_sum_equals_amount"@, "sum_matches_dp_oracle"@]
}

/// The coin change family: one of the given coin systems and a random
/// amount. The greedy gives one count per denomination, so only the checks
/// that the coins pay the amount exactly and that their number is the
/// fewest can ever be falsified (neither holds of every coin system).
pub fn run_coin_change(
    instance_id: &str,
    seed: u64,
    num_trials: u32,
    oracle_checks: &Vec<String>,
    systems: &Vec<Vec<u32>>,
    amount_min: u32,
    amount_max: u32,
) -> (res: Result<HarnessReport, BehaviorError>)
    requires
        systems@.len() > 0,
        amount_min <= amount_max,
        (amount_max as int) < usize::MAX,
    ensures
        match res {
            Ok(r) => all_known(config_names(oracle_checks@), coin_change_checks())
                && tallied_report(r, instance_id@, seed, num_trials, config_names(oracle_checks@))
                && blames_only(r, config_names(oracle_checks@), seq!["weighted_sum_equals_amount"@, "sum_matches_dp_oracle"@]),
            Err(e) => refused(config_names(oracle_checks@), coin_change_checks(), e),
        },
{
    let known: Vec<&str> = vec!["counts_length_matches_denoms", "weighted_sum_equals_amount", "sum_matches_dp_oracle"];
    assert(known@.map_values(|s: &str| s@) =~= coin_change_checks());
    let ghost names = config_names(oracle_checks@);
    let ghost fallible = seq!["weighted_sum_equals_amount"@, "sum_matches_dp_oracle"@];
    let mut st = match start_run(oracle_checks, &known) {
        Ok(st) => st,
        Err(e) => return Err(e),
    };
    proof {
        lemma_spotless_is_blamed(st, names, fallible);
    }
    let mut rng = seeded_rng(seed);
    let mut trial: u32 = 0;
    while trial < num_trials
        invariant
            trial <= num_trials,
            systems@.len() > 0,
            amount_min <= amount_max,
            (amount_max as int) < usize::MAX,
            fallible == seq!["weighted_sum_equals_amount"@, "sum_matches_dp_oracle"@],
            all_known(names, coin_change_checks()),
            blamed_after(st, names, trial as int, fallible),
        decreases num_trials - trial,
    {
        let (denoms, amount) = canonical_coin_system(&mut rng, systems.as_slice(), amount_min, amount_max);
        let counts = coin_change_canonical(denoms.as_slice(), amount);
        let mut input_repr = text("denoms=");
        push_all(&mut input_repr, u32_list_text(denoms.as_slice()).as_str());
        push_all(&mut input_repr, ",amount=");
        push_all(&mut input_repr, unsigned_text(amount as u64).as_str());
        let len: Result<(), (String, String)> = if counts.len() == denoms.len() {
            Ok(())
        } else {
            Err((unsigned_text(counts.len() as u64), unsigned_text(denoms.len() as u64)))
        };
        let n = denoms.len();
        let mut weighted: u64 = 0;
        let mut total: u64 = 0;
        let mut i = n;
        while i > 0
            invariant
                i <= n,
                n == denoms@.len(),
                n == counts@.len(),
                forall|k: int| 0 <= k < n ==> counts@[k] == greedy_coins(denoms@, amount as int, k),
                weighted == paid_from(denoms@, counts@, i as int),
                total <= weighted,
            decreases i,
        {
            i = i - 1;
            proof {
                lemma_greedy_change_total(denoms@, counts@, amount as int, i as int);
                lemma_rest_nonneg(denoms@, amount as int, i as int);
                assert(counts@[i as int] * denoms@[i as int] <= u64::MAX) by (nonlinear_arith)
                    requires counts@[i as int] <= u32::MAX, denoms@[i as int] <= u32::MAX;
                if denoms@[i as int] == 0 {
                    assert(counts@[i as int] == 0);
                } else {
                    assert(counts@[i as int] <= counts@[i as int] * denoms@[i as int]) by (nonlinear_arith)
                        requires denoms@[i as int] >= 1;
                }
            }
            weighted = weighted + counts[i] as u64 * denoms[i] as u64;
            total = total + counts[i] as u64;
        }
        let sum: Result<(), (String, String)> = if weighted == amount as u64 {
            Ok(())
        } else {
            Err((unsigned_text(weighted), unsigned_text(amount as u64)))
        };
        let dp = dp_min_coins_sum(denoms.as_slice(), amount);
        let dp_check: Result<(), (String, String)> = match dp {
            Some(exp) => if total == exp as u64 {
                Ok(())
            } else {
                Err((unsigned_text(total), unsigned_text(exp as u64)))
            },
            None => Err((text("dp unreachable"), text("dp should always be Some"))),
        };
        let checks: Vec<(&str, Result<(), (String, String)>)> = vec![
            ("counts_length_matches_denoms", len),
            ("weighted_sum_equals_amount", sum),
            ("sum_matches_dp_oracle", dp_check),
        ];
        let ghost cv = checks@;
        let ghost before = st;
        proof {
            reveal_strlit("counts_length_matches_denoms");
            reveal_strlit("weighted_sum_equals_amount");
            reveal_strlit("sum_matches_dp_oracle");
            assert(check_names(cv) =~= coin_change_checks());
            assert(cv[0].0@.len() == 28 && cv[1].0@.len() == 26 && cv[2].0@.len() == 21);
            assert forall|j: int| 0 <= j < cv.len() && (#[trigger] cv[j]).1 is Err implies fallible.contains(cv[j].0@) by {
                if j == 1 {
                    assert(fallible[0] == cv[1].0@);
                } else {
                    assert(j == 2);
                    assert(fallible[1] == cv[2].0@);
                }
            }
            st.lemma_counts_match_names();
            assert forall|i: int| 0 <= i < st.counts().len() implies (#[trigger] st.counts()[i]).0 < u32::MAX by {
                if is_first(names, i) {} else {}
            }
        }
        record_trial(&mut st, trial, input_repr.as_str(), checks);
        proof {
            lemma_blamed_step(before, st, names, cv, trial as int, fallible);
        }
        trial = trial + 1;
    }
    Ok(finish_blamed(st, Ghost(names), Ghost(fallible), seed, num_trials, instance_id))
}

/// The oracle checks the adapter of family `f` knows.
pub open spec fn family_checks(f: Family) -> Seq<Seq<char>> {
    match f {
        Family::BinarySearch => binary_search_checks(),
        Family::MaxSubarray => max_subarray_checks(),
        Family::InsertionSort => insertion_sort_checks(),
        Family::MergeSort => merge_sort_checks(),
        Family::Dijkstra => dijkstra_checks(),
        Family::BfsShortestPath => bfs_checks(),
        Family::IntervalScheduling => interval_checks(),
        Family::CoinChange => coin_change_checks(),
        Family::Lcs => lcs_checks(),
        Family::Knapsack => knapsack_checks(),
        Family::BstInsert => bst_insert_checks(),
        Family::Lca => lca_checks(),
    }
}

/// The oracle checks the adapter of family `f` knows, in its order.
pub fn checks_of(f: Family) -> (v: Vec<&'static str>)
    ensures
        v@.map_values(|s: &str| s@) == family_checks(f),
{
    let v: Vec<&'static str> = match f {
        Family::BinarySearch => vec!["success_index_in_bounds", "success_points_to_target", "failure_if_absent"],
        Family::MaxSubarray => vec!["result_matches_quadratic_oracle", "result_at_least_max_element", "result_finite"],
        Family::InsertionSort => vec!["output_is_sorted", "output_is_permutation_of_input", "length_preserved"],
        Family::MergeSort => vec!["output_sorted_nondecreasing", "output_permutation_of_input", "output_length_matches_input"],
        Family::Dijkstra => vec!["length_equals_n", "source_distance_is_zero", "distances_agree_with_brute_force_bellman_ford", "none_iff_unreachable"],
        Family::BfsShortestPath => vec!["dist_length_matches_n", "dist_source_is_zero", "dist_matches_fw_unweighted", "unreachable_iff_no_path"],
        Family::IntervalScheduling => vec!["result_matches_exhaustive_oracle", "result_at_most_input_length", "result_nonnegative"],
        Family::CoinChange => vec!["counts_length_matches_denoms", "weighted_sum_equals_amount", "sum_matches_dp_oracle"],
        Family::Lcs => vec!["result_bounded_by_min_length", "result_matches_dp_oracle", "result_symmetric"],
        Family::Knapsack => vec!["result_matches_exhaustive_oracle", "result_nonnegative", "result_zero_when_capacity_zero_and_weights_positive"],
        Family::BstInsert => vec!["output_inorder_strictly_ascending", "output_contains_inserted_key", "output_contains_all_input_keys"],
        Family::Lca => vec!["returned_key_in_tree", "both_queries_in_subtree_at_returned_key", "result_matches_brute_lca_oracle"],
    };
    assert(v@.map_values(|s: &str| s@) =~= family_checks(f));
    v
}

} // verus!
