use cta_bench::authoring::{
    check_authoring, is_unconditional_universal, is_vacuous_existential, promote_authoring_issues, AuthoringFacts,
    AuthoringObligation, AuthoringUnit,
};
use cta_bench::lint::{LintIssue, LintSeverity};

#[test]
fn regex_matches_bare_existential() {
    assert!(is_vacuous_existential("∀ (xs : Arr), ∃ ys : Arr, insertionSort xs = ys"));
    assert!(is_vacuous_existential("∃ y : Int, f x = y"));
    assert!(!is_vacuous_existential("∀ xs, SortedLE (sort xs)"));
}

#[test]
fn regex_matches_unconditional_universal() {
    assert!(is_unconditional_universal("∀ (t : Tree) (k : Int), IsBst t"));
    assert!(!is_unconditional_universal("∀ (arr : Arr), arr ≠ [] → ∃ v, max arr = v"));
}

#[test]
fn existential_pattern_edges() {
    // The comma must not follow the quantifier at once, and an `=` must come after it.
    assert!(!is_vacuous_existential("∃, x = y"));
    assert!(!is_vacuous_existential("∃ y, f y"));
    assert!(is_vacuous_existential("∃ a, ∃, b = c"));
    assert!(is_unconditional_universal("  ∀ x, P x  \n"));
    assert!(!is_unconditional_universal("P → ∀ x, Q x"));
    assert!(!is_unconditional_universal(""));
}

fn ob(id: Option<&str>, kind: &str, lean: &str, linked: &[&str]) -> AuthoringObligation {
    AuthoringObligation {
        id: id.map(|s| s.to_string()),
        kind: Some(kind.to_string()),
        lean_statement: Some(lean.to_string()),
        linked_semantic_units: linked.iter().map(|s| s.to_string()).collect(),
    }
}

#[test]
fn authoring_lint_warnings_in_order() {
    let facts = AuthoringFacts {
        instance_id: "arrays_binary_search_001".to_string(),
        obligations_path: "obl.json".to_string(),
        units_path: "su.json".to_string(),
        obligations: Some(vec![
            ob(Some("obl_001"), "termination", "∃ n : Nat, measure xs = n", &["SU1"]),
            ob(None, "precondition", "∀ (xs : Arr), Sorted xs", &[]),
        ]),
        units: Some(vec![
            AuthoringUnit { id: Some("SU1".to_string()), criticality: Some("critical".to_string()) },
            AuthoringUnit { id: Some("SU2".to_string()), criticality: Some("critical".to_string()) },
            AuthoringUnit { id: Some("SU3".to_string()), criticality: None },
        ]),
        required_properties: vec!["loop invariant holds".to_string()],
    };
    let mut issues = Vec::new();
    check_authoring(&vec![facts], &mut issues);
    let codes: Vec<&str> = issues.iter().map(|i| i.code).collect();
    assert_eq!(
        codes,
        vec![
            "AUTHORING_VACUOUS_TERMINATION",
            "AUTHORING_UNCONDITIONAL_PRECONDITION",
            "AUTHORING_OBLIGATION_NO_SEMANTIC_UNITS",
            "AUTHORING_CRITICAL_SU_UNCOVERED",
        ]
    );
    assert_eq!(
        issues[0].message,
        "obligation obl_001 is a vacuous existential termination statement; prefer a well-founded measure or drop the obligation"
    );
    assert_eq!(issues[2].message, "obligation <unknown> is not linked to any semantic unit");
    assert!(issues[3].message.starts_with("critical semantic unit SU2 is not linked"));
    assert_eq!(issues[3].path.as_deref(), Some("su.json"));
}

#[test]
fn postcondition_only_set_with_loop_hint() {
    let facts = AuthoringFacts {
        instance_id: "x".to_string(),
        obligations_path: "o".to_string(),
        units_path: "u".to_string(),
        obligations: Some(vec![ob(Some("a"), "postcondition", "f x = y", &["SU1"])]),
        units: None,
        required_properties: vec!["Uses RECURSION".to_string()],
    };
    let mut issues = Vec::new();
    check_authoring(&vec![facts], &mut issues);
    assert_eq!(issues.len(), 1);
    assert_eq!(issues[0].code, "AUTHORING_NO_INVARIANT_STRUCTURE");
}

#[test]
fn strict_authoring_promotes_only_authoring_warnings() {
    let mut issues = vec![
        LintIssue {
            instance_id: "a".to_string(),
            severity: LintSeverity::Warning,
            code: "AUTHORING_VACUOUS_TERMINATION",
            message: "m".to_string(),
            path: Some("p".to_string()),
        },
        LintIssue {
            instance_id: "b".to_string(),
            severity: LintSeverity::Warning,
            code: "DOMAIN_COVERAGE",
            message: "n".to_string(),
            path: None,
        },
    ];
    promote_authoring_issues(&mut issues);
    assert_eq!(issues[0].severity, LintSeverity::Error);
    assert_eq!(issues[0].path, Some("p".to_string()));
    assert_eq!(issues[1].severity, LintSeverity::Warning);
    assert_eq!(issues[1].code, "DOMAIN_COVERAGE");
}
