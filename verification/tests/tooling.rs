use cta_bench::basics::ids::InstanceId;
use cta_bench::basics::versions::BenchmarkVersion;
use cta_bench::cli_rules::{
    benchmark_dir, default_reports_subdir, default_true, has_error_with_prefix, infer_split_from_run_id,
    parse_bench_version, parse_paired_spec, pass_fail, schemas_dir,
};
use cta_bench::harness::{clamp_len, require_known_oracles, BehaviorError, OracleState};
use cta_bench::hashing::{hash_prompt, prefixed_hex, sha256_hex};
use cta_bench::lint::{canonical_lean_path, LintIssue, LintReport, LintSeverity};
use cta_bench::release::check_splits;
use cta_bench::review_text::{
    contains_admit_or_sorry, count_admit_or_sorry, extract_import_modules, has_tautological_theorem_equality,
    is_hotspot_target_packet, is_m1_target_packet, is_tautological_precondition, is_vacuous_or_filler,
    normalize_text, path_to_slash_string, theorem_conclusion, theorem_header_and_body, wrapper_ident_from_body,
};
use cta_bench::records::{ParseStatus, StubProvider};
use cta_bench::scan::scan_balanced;
use cta_bench::splits::{Split, SplitName};

fn issue(sev: LintSeverity, code: &'static str) -> LintIssue {
    LintIssue { instance_id: "x".to_string(), severity: sev, code, message: String::new(), path: None }
}

#[test]
fn lint_report_counts() {
    let r = LintReport {
        issues: vec![
            issue(LintSeverity::Error, "SPLIT_EMPTY_EVAL"),
            issue(LintSeverity::Warning, "W1"),
            issue(LintSeverity::Error, "MANIFEST_MISSING"),
        ],
    };
    assert!(r.has_errors());
    assert_eq!(r.error_count(), 2);
    assert_eq!(r.warning_count(), 1);
    assert!(!LintReport { issues: vec![issue(LintSeverity::Warning, "W")] }.has_errors());
    assert!(has_error_with_prefix(&r.issues, "SPLIT_"));
    assert!(!has_error_with_prefix(&r.issues, "W"));
    assert_eq!(LintSeverity::Warning.as_str(), "warn");
}

#[test]
fn lean_paths_from_namespaces() {
    assert_eq!(
        canonical_lean_path("CTA.Benchmark.Arrays.BinarySearch001"),
        Some(vec!["lean".to_string(), "CTA".to_string(), "Benchmark".to_string(), "Arrays".to_string(), "BinarySearch001.lean".to_string()])
    );
    assert_eq!(canonical_lean_path("CTA.Benchmark.Single"), None);
    assert_eq!(canonical_lean_path("Other.Arrays.X"), None);
}

fn split(name: SplitName, ids: &[&str]) -> Split {
    Split {
        schema_version: "schema_v1".to_string(),
        benchmark_version: BenchmarkVersion::new("v0.1").unwrap(),
        split: name,
        instance_ids: ids.iter().map(|s| InstanceId::new(s).unwrap()).collect(),
        source_path: format!("splits/{}.json", name.as_str()),
    }
}

#[test]
fn split_checks_report_problems_in_order() {
    let known = vec!["arrays_binary_search_001".to_string()];
    let splits = vec![
        split(SplitName::Eval, &[]),
        split(SplitName::Challenge, &["arrays_binary_search_001", "sorting_merge_sort_001", "arrays_binary_search_001"]),
    ];
    let mut issues = Vec::new();
    check_splits(&splits, &known, &mut issues);
    let codes: Vec<&str> = issues.iter().map(|i| i.code).collect();
    assert_eq!(
        codes,
        vec!["SPLIT_REQUIRED_MISSING", "SPLIT_UNKNOWN_INSTANCE", "SPLIT_DUPLICATE_INSTANCE", "SPLIT_EMPTY_EVAL"]
    );
    assert_eq!(issues[0].message, "required split 'dev' is missing (expected file splits/dev.json)");
    assert_eq!(
        issues[1].message,
        "split 'challenge' references instance 'sorting_merge_sort_001' which is not present in the benchmark"
    );
    assert_eq!(issues[3].path, Some("splits/eval.json".to_string()));
    let mut clean = Vec::new();
    check_splits(
        &[split(SplitName::Dev, &["arrays_binary_search_001"]), split(SplitName::Eval, &["arrays_binary_search_001"])],
        &known,
        &mut clean,
    );
    assert!(clean.is_empty());
}

#[test]
fn cli_helpers() {
    assert_eq!(infer_split_from_run_id("run_2026_04_21_full_method_v1_eval_001"), "eval");
    assert_eq!(infer_split_from_run_id("nounderscore"), "unknown");
    assert_eq!(parse_paired_spec("a=x, b = y"), Some(("x".to_string(), "y".to_string())));
    assert_eq!(parse_paired_spec("a=x"), None);
    assert_eq!(parse_paired_spec("a=x,c=y"), None);
    assert_eq!(parse_paired_spec("a=x,b"), None);
    assert_eq!(pass_fail(true), "pass");
    assert_eq!(pass_fail(false), "fail");
    assert_eq!(schemas_dir("/ws"), "/ws/schemas");
    assert_eq!(schemas_dir("/ws/"), "/ws/schemas");
    assert_eq!(benchmark_dir("ws", "v0.1"), "ws/benchmark/v0.1");
    assert!(default_true());
    assert_eq!(default_reports_subdir(), "reports");
    assert!(parse_bench_version("v0.2").is_ok());
    assert_eq!(
        parse_bench_version("0.2").unwrap_err(),
        "invalid benchmark version: expected pattern 'v[0-9]+\\.[0-9]+', got '0.2'"
    );
}

#[test]
fn hashing_is_sha256_hex() {
    assert_eq!(
        hash_prompt("hello"),
        "sha256:2cf24dba5fb0a30e26e83b2ac5b9e29e1b161e5c1fa7425e73043362938b9824"
    );
    assert_eq!(
        sha256_hex(b""),
        "e3b0c44298fc1c149afbf4c8996fb92427ae41e4649b934ca495991b7852b855"
    );
    assert_eq!(prefixed_hex(&[0xab, 0x01, 0x00]), "sha256:ab0100");
}

#[test]
fn review_text_helpers() {
    assert_eq!(normalize_text("  a\t b\n\nc  "), "a b c");
    assert_eq!(normalize_text(""), "");
    assert!(contains_admit_or_sorry("theorem t : True := by\n  ADMIT"));
    assert!(contains_admit_or_sorry("theorem v : True := by\nsorry"));
    assert!(!contains_admit_or_sorry("theorem u : True := by\n  trivial"));
    let stmts = vec![
        "theorem t : True := by\n  admit".to_string(),
        "theorem u : True := by\n  trivial".to_string(),
        "theorem v : True := by\n  sorry".to_string(),
    ];
    assert_eq!(count_admit_or_sorry(&stmts), 2);
    assert!(is_vacuous_or_filler("true", ""));
    assert!(is_vacuous_or_filler("x → true", ""));
    assert!(is_vacuous_or_filler("p", "this represents what we need to show"));
    assert!(!is_vacuous_or_filler("p", "the result"));
    assert!(is_tautological_precondition("theorem x (h : BST t) : BST t := h", "restated"));
    assert!(is_tautological_precondition("theorem x : Sorted xs", "we assume the input"));
    assert!(!is_tautological_precondition("theorem x : Sorted xs", "the output"));
    assert_eq!(
        theorem_header_and_body("theorem t (h : P) : Q := by  exact h "),
        Some(("theorem t (h : P) : Q".to_string(), "exact h".to_string()))
    );
    assert_eq!(theorem_header_and_body("def x := 1"), None);
    assert_eq!(theorem_conclusion("theorem t (a : A) (b : B) :  f a = f a "), Some("f a = f a".to_string()));
    assert_eq!(theorem_conclusion("theorem t : P"), None);
    assert_eq!(wrapper_ident_from_body("  exact  h "), Some("h".to_string()));
    assert_eq!(wrapper_ident_from_body("simpa using hbst"), Some("hbst".to_string()));
    assert_eq!(wrapper_ident_from_body("trivial"), None);
    assert!(has_tautological_theorem_equality("theorem t (x : Nat) : f  x = f x := by rfl"));
    assert!(!has_tautological_theorem_equality("theorem t (x : Nat) : f x = g x := by rfl"));
    assert!(!has_tautological_theorem_equality("theorem t (x : Nat) : x = x ∧ x = x := by simp"));
    assert!(is_m1_target_packet("full_method_v1", "graph_dijkstra_001"));
    assert!(is_m1_target_packet("text_only_v1", "dp_knapsack_01_002"));
    assert!(!is_m1_target_packet("text_only_v1", "sorting_merge_sort_001"));
    assert!(is_hotspot_target_packet("full_method_v1", "trees_lowest_common_ancestor_001"));
    assert!(!is_hotspot_target_packet("code_only_v1", "trees_lowest_common_ancestor_001"));
    assert_eq!(path_to_slash_string("a\\b\\c.lean"), "a/b/c.lean");
    assert_eq!(
        extract_import_modules("import Mathlib\n  import CTA.Benchmark.X  \nopen Foo\n"),
        vec!["Mathlib".to_string(), "CTA.Benchmark.X".to_string()]
    );
}

#[test]
fn scan_balanced_skips_strings() {
    let s = br#"x {"a": "}{", "b": [1, {"c": 2}]} tail"#;
    assert_eq!(scan_balanced(s, 2, b'{', b'}'), Some(32));
    assert_eq!(scan_balanced(b"[1, [2]", 0, b'[', b']'), None);
    assert_eq!(scan_balanced(br#"{"\"}"}"#, 0, b'{', b'}'), Some(6));
}

#[test]
fn oracle_state_records_first_falsification() {
    let names = vec!["a".to_string(), "b".to_string()];
    let mut st = OracleState::new(&names);
    st.check("a", 0, "n=1", Ok(()));
    st.check("a", 1, "n=2", Err(("1".to_string(), "0".to_string())));
    st.check("a", 2, "n=3", Err(("2".to_string(), "0".to_string())));
    st.check("zzz", 3, "n=4", Err(("x".to_string(), "y".to_string())));
    st.check("b", 3, "n=4", Ok(()));
    let r = st.finalize(7, 4, "arrays_binary_search_001");
    assert!(r.any_falsified());
    assert_eq!(r.seed, 7);
    assert_eq!(r.trials_run, 4);
    assert_eq!(r.oracle_stats[0].trials_evaluated, 3);
    assert_eq!(r.oracle_stats[0].violations, 2);
    assert_eq!(r.oracle_stats[1].trials_evaluated, 1);
    assert_eq!(r.falsifications.len(), 1);
    assert_eq!(r.falsifications[0].trial, 1);
    assert_eq!(r.falsifications[0].observed, "1");
}

#[test]
fn unknown_oracle_names_are_rejected() {
    let cfg = vec!["success_index_in_bounds".to_string(), "this_oracle_does_not_exist".to_string()];
    match require_known_oracles(&cfg, &["success_index_in_bounds", "failure_if_absent"]) {
        Err(BehaviorError::UnknownOracleCheck(name)) => assert_eq!(name, "this_oracle_does_not_exist"),
        _ => panic!("expected an unknown-oracle error"),
    }
    assert!(require_known_oracles(&cfg[..1], &["success_index_in_bounds"]).is_ok());
    assert_eq!(clamp_len(5, 300, 256), (5, 256));
    assert_eq!(clamp_len(9, 4, 256), (4, 4));
}

#[test]
fn records_constructors() {
    let ok = ParseStatus::ok();
    assert!(ok.ok && ok.error_class.is_none());
    let e = ParseStatus::err("empty_output", "nothing");
    assert!(!e.ok);
    assert_eq!(e.error_class.as_deref(), Some("empty_output"));
    assert_eq!(StubProvider::new("stub-0.0.1").model_version(), "stub-0.0.1");
}
