use cta_bench::lean_check::{
    build_lean_check, diagnostics_has_unused_variable_warning, diagnostics_only_unavailable, infer_elaborated,
};

#[test]
fn elaboration_inferred_from_diagnostics_fields() {
    assert_eq!(infer_elaborated(Some(true), Some(false)), Some(true));
    assert_eq!(infer_elaborated(None, Some(false)), Some(false));
    assert_eq!(infer_elaborated(None, Some(true)), None);
    assert_eq!(infer_elaborated(None, None), None);
    assert!(diagnostics_only_unavailable(Some(false)));
    assert!(!diagnostics_only_unavailable(None));
    assert!(diagnostics_has_unused_variable_warning(Some("warning: Unused Variable `x`")));
    assert!(!diagnostics_has_unused_variable_warning(None));
}

#[test]
fn lean_check_record() {
    let stmts = vec!["theorem t : True := by\n  sorry".to_string(), "theorem u : True := trivial".to_string()];
    let c = build_lean_check("/ws", "/ws/packets/p1", &stmts, &Vec::new(), "def f := 1", Some(true), None);
    assert_eq!(c.admit_count, 1);
    assert!(!c.elaborated);
    assert_eq!(c.proof_mode, "definition_backed");
    assert_eq!(c.diagnostics_path, "packets/p1/lean_diagnostics.json");
    let ok = build_lean_check("/ws", "/elsewhere", &stmts[1..].to_vec(), &vec!["ax".to_string()], "", None, Some(true));
    assert!(ok.elaborated);
    assert_eq!(ok.proof_mode, "axiom_backed");
    assert_eq!(ok.axiom_dependencies, vec!["ax".to_string()]);
    assert_eq!(ok.diagnostics_path, "/elsewhere/lean_diagnostics.json");
    let none = build_lean_check("/ws", "p", &Vec::new(), &Vec::new(), "", None, None);
    assert!(!none.elaborated);
}
