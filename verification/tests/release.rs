use cta_bench::basics::enums::Domain;
use cta_bench::basics::ids::InstanceId;
use cta_bench::basics::versions::{BenchmarkVersion, MetricsVersion, RubricVersion};
use cta_bench::lint::{LintIssue, LintReport, LintSeverity};
use cta_bench::manifest::{build_manifest, hash_instance_files, rollup_hash};
use cta_bench::release::{
    check_experiments, check_manifest, prompt_config_path, provider_config_path, validate_release,
    ExperimentConfigSummary, ExperimentFacts,
};
use cta_bench::records::BenchmarkManifest;
use cta_bench::splits::{accept_split, gather_splits, insert_split, Split, SplitError, SplitFile, SplitName};

fn split(name: SplitName, ids: &[&str]) -> Split {
    Split {
        schema_version: "schema_v1".to_string(),
        benchmark_version: BenchmarkVersion::new("v0.1").unwrap(),
        split: name,
        instance_ids: ids.iter().map(|s| InstanceId::new(s).unwrap()).collect(),
        source_path: format!("splits/{}.json", name.as_str()),
    }
}

fn codes(issues: &[LintIssue]) -> Vec<&'static str> {
    issues.iter().map(|i| i.code).collect()
}

#[test]
fn empty_eval_is_error() {
    let splits = vec![split(SplitName::Dev, &["arrays_binary_search_001"]), split(SplitName::Eval, &[])];
    let report = validate_release("/tmp", &splits, &Vec::new(), &None, &Ok(Vec::new()), &Vec::new());
    assert!(report.issues.iter().any(|i| i.code == "SPLIT_EMPTY_EVAL"));
}

#[test]
fn unknown_instance_in_split_is_error() {
    let splits = vec![
        split(SplitName::Dev, &["arrays_binary_search_001"]),
        split(SplitName::Eval, &["sorting_merge_sort_001"]),
    ];
    let report = validate_release("/tmp", &splits, &Vec::new(), &None, &Ok(Vec::new()), &Vec::new());
    assert!(report.issues.iter().any(|i| i.code == "SPLIT_UNKNOWN_INSTANCE"));
}

#[test]
fn missing_manifest_is_error() {
    let splits = vec![split(SplitName::Dev, &[]), split(SplitName::Eval, &[])];
    let report = validate_release("/tmp", &splits, &Vec::new(), &None, &Ok(Vec::new()), &Vec::new());
    assert!(report.issues.iter().any(|i| i.code == "MANIFEST_MISSING"));
}

fn manifest_for(instances: &[(&str, Domain, &str)]) -> BenchmarkManifest {
    let entries: Vec<(String, Domain, String)> =
        instances.iter().map(|(id, d, h)| (id.to_string(), *d, h.to_string())).collect();
    build_manifest(
        BenchmarkVersion::new("v0.1").unwrap(),
        RubricVersion::new("rubric_v1").unwrap(),
        MetricsVersion::new("metrics_v2").unwrap(),
        "2024-01-01T00:00:00Z",
        &entries,
    )
}

#[test]
fn fresh_manifest_passes_the_manifest_check() {
    let m = manifest_for(&[("arrays_binary_search_001", Domain::Arrays, "ab"), ("dp_knapsack_01_001", Domain::Dp, "cd")]);
    assert_eq!(m.instance_hashes[0].1, "sha256:ab");
    assert_eq!(m.instance_count_by_domain.len(), 6);
    assert_eq!(m.instance_count_by_domain[0], ("arrays".to_string(), 1));
    assert_eq!(m.instance_count_by_domain[1], ("dp".to_string(), 1));
    assert_eq!(m.instance_count_by_domain[5], ("trees".to_string(), 0));
    assert!(m.content_hash.starts_with("sha256:") && m.content_hash.len() == 71);
    let ids = vec!["arrays_binary_search_001".to_string(), "dp_knapsack_01_001".to_string()];
    let mut issues = Vec::new();
    check_manifest(&Some(m), &ids, &vec![Domain::Arrays, Domain::Dp], &Ok(vec!["ab".to_string(), "cd".to_string()]), &mut issues);
    assert!(issues.is_empty(), "{issues:?}");
}

#[test]
fn stale_manifest_reports_every_disagreement() {
    let m = manifest_for(&[("arrays_binary_search_001", Domain::Arrays, "ab"), ("graph_dijkstra_001", Domain::Graph, "ef")]);
    let ids = vec!["arrays_binary_search_001".to_string(), "dp_knapsack_01_001".to_string()];
    let mut issues = Vec::new();
    check_manifest(&Some(m), &ids, &vec![Domain::Arrays, Domain::Dp], &Ok(vec!["ab".to_string(), "cd".to_string()]), &mut issues);
    assert_eq!(
        codes(&issues),
        vec!["MANIFEST_INSTANCE_SET_MISMATCH", "MANIFEST_DOMAIN_COUNT_MISMATCH", "MANIFEST_CONTENT_HASH_STALE"]
    );
    assert_eq!(
        issues[0].message,
        "manifest instance set disagrees with loaded benchmark: only-in-manifest=[\"graph_dijkstra_001\"], only-on-disk=[\"dp_knapsack_01_001\"]"
    );
    assert!(issues[1].message.starts_with(
        "manifest instance_count_by_domain={\"arrays\": 1, \"dp\": 0, \"graph\": 1, \"greedy\": 0, \"sorting\": 0, \"trees\": 0} disagrees with on-disk counts={\"arrays\": 1, \"dp\": 1,"
    ));
    assert!(issues[2].message.ends_with("; regenerate with `cta benchmark manifest --version v0.1`"));
}

#[test]
fn unreadable_directories_are_reported() {
    let m = manifest_for(&[]);
    let mut issues = Vec::new();
    check_manifest(&Some(m), &Vec::new(), &Vec::new(), &Err("permission denied".to_string()), &mut issues);
    assert_eq!(codes(&issues), vec!["MANIFEST_RECOMPUTE_FAILED"]);
    assert_eq!(issues[0].message, "failed to recompute manifest for comparison: permission denied");
}

#[test]
fn rollup_and_directory_hashes_are_sha256() {
    // sha256("") is the well-known e3b0... digest.
    assert_eq!(
        rollup_hash(&Vec::new()),
        "sha256:e3b0c44298fc1c149afbf4c8996fb92427ae41e4649b934ca495991b7852b855"
    );
    let a = hash_instance_files(&vec![("sub\\f.txt".to_string(), b"x".to_vec())]);
    let b = hash_instance_files(&vec![("sub/f.txt".to_string(), b"x".to_vec())]);
    assert_eq!(a, b);
    assert_eq!(a.len(), 64);
    let c = hash_instance_files(&vec![("sub/f.txt".to_string(), b"y".to_vec())]);
    assert_ne!(a, c);
}

fn experiment(split: &str, systems: &[&str], providers: &[&str], prompts: &[bool], present: &[bool]) -> ExperimentFacts {
    ExperimentFacts {
        summary: ExperimentConfigSummary {
            experiment_id: "exp1".to_string(),
            benchmark_version: BenchmarkVersion::new("v0.1").unwrap(),
            split: split.to_string(),
            systems: systems.iter().map(|s| s.to_string()).collect(),
            providers: providers.iter().map(|s| s.to_string()).collect(),
            source_path: "configs/experiments/exp1.json".to_string(),
        },
        prompt_present: prompts.to_vec(),
        provider_present: present.to_vec(),
    }
}

#[test]
fn experiment_checks_in_order() {
    let splits = vec![split(SplitName::Dev, &["arrays_binary_search_001"]), split(SplitName::Eval, &[])];
    let exps = vec![
        experiment("holdout", &["full_method_v1"], &[], &[false], &[]),
        experiment("eval", &["full_method_v1", "text_only_v1"], &["configs/providers/a.json"], &[true, false], &[false]),
        experiment("challenge", &[], &[], &[], &[]),
        experiment("dev", &[], &[], &[], &[]),
    ];
    let mut issues = Vec::new();
    check_experiments("/ws", &splits, &exps, &mut issues);
    assert_eq!(
        codes(&issues),
        vec![
            "EXPERIMENT_UNKNOWN_SPLIT",
            "EXPERIMENT_REFERENCES_EMPTY_SPLIT",
            "EXPERIMENT_REFERENCES_UNKNOWN_SYSTEM",
            "EXPERIMENT_REFERENCES_MISSING_PROVIDER_CONFIG",
            "EXPERIMENT_REFERENCES_EMPTY_SPLIT",
        ]
    );
    assert_eq!(issues[0].message, "experiment 'exp1' references unknown split 'holdout'");
    assert_eq!(issues[1].message, "experiment 'exp1' references empty split 'eval' at splits/eval.json");
    assert_eq!(
        issues[2].message,
        "experiment 'exp1' references system 'text_only_v1' but no prompt config exists at /ws/configs/prompts/text_only_v1.json"
    );
    assert_eq!(
        issues[3].message,
        "experiment 'exp1' references provider config 'configs/providers/a.json' but /ws/configs/providers/a.json is missing"
    );
    assert_eq!(
        issues[4].message,
        "experiment 'exp1' references split 'challenge' which is not shipped with this benchmark version"
    );
    assert_eq!(issues[0].path.as_deref(), Some("configs/experiments/exp1.json"));
}

#[test]
fn config_paths_follow_path_joining() {
    assert_eq!(prompt_config_path("/ws", "s1"), "/ws/configs/prompts/s1.json");
    assert_eq!(prompt_config_path("/ws/", "s1"), "/ws/configs/prompts/s1.json");
    assert_eq!(provider_config_path("/ws", "/abs/p.json"), "/abs/p.json");
    assert_eq!(provider_config_path("", "p.json"), "p.json");
}

#[test]
fn lint_failure_message_counts_errors() {
    let issue = |sev| LintIssue {
        instance_id: "x".to_string(),
        severity: sev,
        code: "C",
        message: "m".to_string(),
        path: None,
    };
    let ok = LintReport { issues: vec![issue(LintSeverity::Warning)] };
    assert_eq!(ok.failure_message(), None);
    let bad = LintReport { issues: vec![issue(LintSeverity::Error), issue(LintSeverity::Warning), issue(LintSeverity::Error)] };
    assert_eq!(bad.failure_message(), Some("benchmark lint failed with 2 error(s)".to_string()));
}

#[test]
fn split_files_are_checked_and_kept_in_name_order() {
    let ok = accept_split(split(SplitName::Eval, &[]), SplitName::Eval, "eval", "v0.1", "b/splits/eval.json").unwrap();
    assert_eq!(ok.source_path, "b/splits/eval.json");
    match accept_split(split(SplitName::Eval, &[]), SplitName::Eval, "eval", "v0.2", "p") {
        Err(SplitError::VersionMismatch { declared, expected, .. }) => {
            assert_eq!(declared, "v0.1");
            assert_eq!(expected, "v0.2");
        }
        other => panic!("unexpected {other:?}"),
    }
    match accept_split(split(SplitName::Dev, &[]), SplitName::Eval, "eval", "v0.1", "p") {
        Err(SplitError::NameMismatch { declared, stem, .. }) => {
            assert_eq!(declared, "dev");
            assert_eq!(stem, "eval");
        }
        other => panic!("unexpected {other:?}"),
    }
    let mut v = Vec::new();
    insert_split(&mut v, split(SplitName::Challenge, &[]));
    insert_split(&mut v, split(SplitName::Dev, &[]));
    insert_split(&mut v, split(SplitName::Eval, &[]));
    insert_split(&mut v, split(SplitName::Dev, &["arrays_binary_search_001"]));
    let names: Vec<&str> = v.iter().map(|s| s.split.as_str()).collect();
    assert_eq!(names, vec!["dev", "eval", "challenge"]);
    assert_eq!(v[0].instance_ids.len(), 1);
}

fn declared(version: &str, name: SplitName, ids: &[&str]) -> Split {
    let mut s = split(name, ids);
    s.benchmark_version = BenchmarkVersion::new(version).unwrap();
    s
}

fn file(stem: &str, s: Split) -> SplitFile {
    SplitFile { stem: stem.to_string(), path: format!("splits/{stem}.json"), split: s }
}

fn gather(files: Vec<(&str, Split)>, expected: &str) -> Result<Vec<Split>, SplitError> {
    gather_splits(files.into_iter().map(|(stem, s)| file(stem, s)).collect(), expected)
}

#[test]
fn load_splits_reads_only_canonical_stems() {
    let got = gather(
        vec![
            ("dev", declared("v0.1", SplitName::Dev, &["arrays_binary_search_001"])),
            ("eval", declared("v0.1", SplitName::Eval, &[])),
            ("notes", declared("v0.9", SplitName::Challenge, &[])),
        ],
        "v0.1",
    )
    .unwrap();
    assert_eq!(got.len(), 2);
    assert_eq!(got[0].split, SplitName::Dev);
    assert_eq!(got[0].len(), 1);
    assert!(got[1].is_empty());
    assert_eq!(SplitName::parse("notes"), None);
}

#[test]
fn load_splits_rejects_version_mismatch() {
    let err = gather(vec![("dev", declared("v0.2", SplitName::Dev, &[]))], "v0.1").unwrap_err();
    assert!(matches!(err, SplitError::VersionMismatch { .. }));
}

#[test]
fn load_splits_rejects_name_mismatch() {
    let err = gather(vec![("dev", declared("v0.1", SplitName::Eval, &[]))], "v0.1").unwrap_err();
    assert!(matches!(err, SplitError::NameMismatch { .. }));
}

#[test]
fn missing_splits_dir_is_not_an_error() {
    let got = gather(vec![], "v0.1").unwrap();
    assert!(got.is_empty());
}

#[test]
fn gathered_splits_keep_one_per_name_in_name_order() {
    let got = gather(
        vec![
            ("challenge", declared("v0.1", SplitName::Challenge, &[])),
            ("dev", declared("v0.1", SplitName::Dev, &["arrays_binary_search_001"])),
            ("dev", declared("v0.1", SplitName::Dev, &["graph_dijkstra_001", "graph_dijkstra_002"])),
        ],
        "v0.1",
    )
    .unwrap();
    assert_eq!(got.len(), 2);
    assert_eq!(got[0].split, SplitName::Dev);
    assert_eq!(got[0].len(), 2);
    assert_eq!(got[0].source_path, "splits/dev.json");
    assert_eq!(got[1].split, SplitName::Challenge);
    // the first refused file decides the error, even after a good one
    let err = gather(
        vec![
            ("dev", declared("v0.1", SplitName::Dev, &[])),
            ("eval", declared("v0.1", SplitName::Dev, &[])),
            ("challenge", declared("v0.3", SplitName::Challenge, &[])),
        ],
        "v0.1",
    )
    .unwrap_err();
    match err {
        SplitError::NameMismatch { path, declared, stem } => {
            assert_eq!(path, "splits/eval.json");
            assert_eq!(declared, "dev");
            assert_eq!(stem, "eval");
        }
        other => panic!("unexpected {other:?}"),
    }
}
