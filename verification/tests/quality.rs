use cta_bench::quality::{
    build_quality_summary, infer_critical_units_for_obligation, obligation_layer, packet_obligation, ObligationFacts,
    SemanticUnitFacts,
};

fn unit(id: &str, crit: &str, desc: &str) -> SemanticUnitFacts {
    SemanticUnitFacts {
        id: Some(id.to_string()),
        criticality: Some(crit.to_string()),
        description: Some(desc.to_string()),
    }
}

fn ob(layer: Option<&str>, stmt: &str, gloss: &str, linked: &[&str]) -> ObligationFacts {
    ObligationFacts {
        layer: layer.map(|s| s.to_string()),
        lean_statement: Some(stmt.to_string()),
        nl_gloss: Some(gloss.to_string()),
        linked_semantic_units: linked.iter().map(|s| s.to_string()).collect(),
    }
}

fn strings(v: &[&str]) -> Vec<String> {
    v.iter().map(|s| s.to_string()).collect()
}

#[test]
fn layer_needs_contract_kind_and_critical_link() {
    let critical = strings(&["SU1", "SU2"]);
    assert_eq!(obligation_layer("postcondition", &strings(&["SU1"]), &critical), "benchmark_facing");
    assert_eq!(obligation_layer("termination", &strings(&["X", "SU2"]), &critical), "benchmark_facing");
    assert_eq!(obligation_layer("auxiliary_lemma", &strings(&["SU1"]), &critical), "auxiliary");
    assert_eq!(obligation_layer("precondition", &strings(&["SU9"]), &critical), "auxiliary");
    assert_eq!(obligation_layer("precondition", &strings(&[]), &critical), "auxiliary");
}

#[test]
fn inference_matches_descriptions_to_statement_words() {
    let units = vec![
        unit("SU1", "critical", "Output is Sorted"),
        unit("SU2", "critical", "Length is preserved"),
        unit("SU3", "optional", "sorted stability"),
        unit("SU4", "critical", "unreachability reported"),
    ];
    let got = infer_critical_units_for_obligation(&units, "sorted (f xs)", "keeps the length");
    assert_eq!(got, strings(&["SU1", "SU2"]));
    let got = infer_critical_units_for_obligation(&units, "d v = none", "no path to v");
    assert_eq!(got, strings(&["SU4"]));
    let got = infer_critical_units_for_obligation(&units, "true", "");
    assert!(got.is_empty());
}

#[test]
fn quality_summary_splits_direct_and_indirect_coverage() {
    let units = vec![
        unit("SU1", "critical", "output sorted"),
        unit("SU2", "critical", "output length"),
        unit("SU3", "critical", "other"),
        unit("SU4", "optional", "stability"),
    ];
    let obs = vec![
        ob(Some("benchmark_facing"), "theorem t : sorted (f xs)", "it is sorted", &["SU1"]),
        ob(Some("auxiliary"), "lemma l : (f xs).length = xs.length", "", &[]),
        ob(None, "lemma m : True", "", &["SU1"]),
    ];
    let q = build_quality_summary(&units, &obs);
    assert_eq!(q.critical_units_covered_by_direct_theorems, strings(&["SU1"]));
    assert_eq!(q.critical_units_only_indirectly_covered, strings(&["SU2"]));
    assert!(!q.off_spec_theorems_present);
    assert!(!q.vacuous_theorems_present);
}

#[test]
fn quality_summary_flags_off_spec_and_vacuous() {
    let units = vec![unit("SU1", "critical", "output sorted"), unit("SU4", "optional", "stability")];
    let stable = vec![ob(Some("benchmark_facing"), "theorem s : Stable (f xs)", "", &["SU1"])];
    assert!(build_quality_summary(&units, &stable).off_spec_theorems_present);
    let optional_only = vec![ob(Some("benchmark_facing"), "theorem s : P", "", &["SU4"])];
    assert!(build_quality_summary(&units, &optional_only).off_spec_theorems_present);
    let aux_stable = vec![ob(Some("auxiliary"), "lemma s : stable xs", "", &["SU4"])];
    assert!(!build_quality_summary(&units, &aux_stable).off_spec_theorems_present);
    let vacuous = vec![ob(Some("benchmark_facing"), "theorem v : True := by trivial", "", &["SU1"])];
    assert!(build_quality_summary(&units, &vacuous).vacuous_theorems_present);
}

#[test]
fn packet_obligation_layers() {
    let critical = vec!["SU1".to_string()];
    let linked = vec!["SU1".to_string()];
    let (stmt, layer) = packet_obligation(
        "postcondition",
        &linked,
        &critical,
        "theorem t : weight w ∧ w ≥ 0 ≤ cap",
        "weight fits",
    );
    assert_eq!(stmt, "theorem t : weight w ≤ cap");
    assert_eq!(layer, "benchmark_facing");
    let (_, layer) = packet_obligation(
        "precondition",
        &linked,
        &critical,
        "theorem x (h : BST t) : BST t := h",
        "restated",
    );
    assert_eq!(layer, "auxiliary");
    let (_, layer) = packet_obligation("precondition", &linked, &critical, "theorem x : Sorted xs", "the output");
    assert_eq!(layer, "benchmark_facing");
    let (_, layer) = packet_obligation("helper", &linked, &critical, "theorem x : True", "");
    assert_eq!(layer, "auxiliary");
}
