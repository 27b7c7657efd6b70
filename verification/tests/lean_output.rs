use cta_bench::diagnostics::{elaboration_result, extract_theorem_names, parse_diagnostics};

#[test]
fn extract_theorem_names_finds_all_forms() {
    let src = "theorem foo : True := by trivial\nlemma bar : True := by trivial\ndef baz : Nat := 0\nexample : True := by trivial\n";
    let names = extract_theorem_names(src);
    assert_eq!(names, vec!["foo".to_string(), "bar".to_string(), "baz".to_string()]);
}

#[test]
fn parse_diagnostics_basic() {
    let out = "/tmp/a.lean:3:4: error: unknown identifier 'foo'\n  at some site\n/tmp/a.lean:5:1: warning: unused variable `x`\n";
    let diags = parse_diagnostics(out);
    assert_eq!(diags.len(), 2);
    assert_eq!(diags[0].severity, "error");
    assert_eq!(diags[0].line, Some(3));
    assert_eq!(diags[0].column, Some(4));
    assert_eq!(diags[0].error_class, "unknown_identifier");
    assert_eq!(diags[0].message_tail, vec!["  at some site".to_string()]);
    assert_eq!(diags[1].severity, "warning");
    assert_eq!(diags[1].error_class, "warning");
}

#[test]
fn parse_diagnostics_windows_drive_letter() {
    let out = "C:\\work\\a.lean:10:5: error: type mismatch\n  expected: Nat\n  got: Int\n";
    let diags = parse_diagnostics(out);
    assert_eq!(diags.len(), 1);
    assert_eq!(diags[0].line, Some(10));
    assert_eq!(diags[0].error_class, "type_mismatch");
    assert_eq!(diags[0].message_tail.len(), 2);
}

#[test]
fn diagnostics_edge_cases() {
    // continuation before any head is dropped; blank continuation lines are skipped
    let out = "preamble\n/f.lean:1:2: error: bad thing\n\n  unsolved goals remain\n/f.lean:99999999999:7:   info:   note here";
    let diags = parse_diagnostics(out);
    assert_eq!(diags.len(), 2);
    assert_eq!(diags[0].message, "bad thing");
    assert_eq!(diags[0].error_class, "unsolved_goals");
    assert_eq!(diags[0].message_tail, vec!["  unsolved goals remain".to_string()]);
    assert_eq!(diags[1].line, None);
    assert_eq!(diags[1].column, Some(7));
    assert_eq!(diags[1].severity, "info");
    assert_eq!(diags[1].message, "note here");
    assert_eq!(diags[1].error_class, "info");
    assert!(parse_diagnostics("a.lean:1:x: error: y").is_empty());
    assert!(parse_diagnostics("a.lean:1:2: fatal: y").is_empty());
    assert!(parse_diagnostics(":1:2: error: y").is_empty());
}

#[test]
fn declared_names_edge_cases() {
    assert_eq!(extract_theorem_names("  theorem\n  spaced_name' : P\n"), vec!["spaced_name'".to_string()]);
    assert_eq!(extract_theorem_names("x theorem notfirst : P"), Vec::<String>::new());
    assert_eq!(extract_theorem_names("define x := 1\ndef y := 2"), vec!["y".to_string()]);
    assert_eq!(extract_theorem_names("theorem : P"), Vec::<String>::new());
    assert_eq!(extract_theorem_names(""), Vec::<String>::new());
}

#[test]
fn elaboration_outcome_from_process_output() {
    let r = elaboration_result(
        "/f.lean:1:1: warning: declaration uses 'sorry'".to_string(),
        String::new(),
        Some(0),
        "/f.lean".to_string(),
        "theorem t : True := by sorry\n",
    );
    assert!(r.elaborates);
    assert_eq!(r.diagnostics.len(), 1);
    assert_eq!(r.theorem_names, vec!["t".to_string()]);
    let r = elaboration_result(
        "/f.lean:1:1: warning: w".to_string(),
        "/f.lean:2:3: error: unknown constant X".to_string(),
        Some(0),
        "/f.lean".to_string(),
        "",
    );
    assert!(!r.elaborates);
    assert_eq!(r.diagnostics.len(), 2);
    assert_eq!(r.diagnostics[1].error_class, "unknown_identifier");
    let r = elaboration_result(String::new(), String::new(), Some(1), "/f.lean".to_string(), "");
    assert!(!r.elaborates);
    let r = elaboration_result(String::new(), String::new(), None, "/f.lean".to_string(), "");
    assert!(!r.elaborates);
}
