use cta_bench::normalize::{normalize_response, normalize_parsed, parse_loose, NormalizedObligation, ObligationFields, ParsedResponse};
use cta_bench::records::ParseStatus;
use cta_bench::review_text::count_admit_or_sorry;
use cta_bench::scan::scrape_candidates;

#[test]
fn parses_object_form() {
    let raw = r#"{"obligations": [
        {"kind":"postcondition","lean_statement":"True","nl_gloss":"g"}
    ]}"#;
    let (obs, ok) = normalize_response(raw);
    assert!(ok.ok);
    assert_eq!(obs.len(), 1);
    assert_eq!(obs[0].kind, "postcondition");
}

#[test]
fn parses_bare_array() {
    let raw = r#"[{"kind":"invariant","lean_statement":"A","nl_gloss":""}]"#;
    let (obs, ok) = normalize_response(raw);
    assert!(ok.ok);
    assert_eq!(obs[0].kind, "invariant");
}

#[test]
fn unknown_kind_maps_to_unknown() {
    let raw = r#"{"obligations":[{"kind":"weirdo","lean_statement":"X","nl_gloss":""}]}"#;
    let (obs, ok) = normalize_response(raw);
    assert!(ok.ok);
    assert_eq!(obs[0].kind, "unknown");
}

#[test]
fn missing_lean_statement_errors() {
    let raw = r#"{"obligations":[{"kind":"invariant","nl_gloss":""}]}"#;
    let (obs, st) = normalize_response(raw);
    assert!(obs.is_empty());
    assert!(!st.ok);
    assert_eq!(st.error_class.as_deref(), Some("schema_validation_error"));
}

#[test]
fn scrapes_json_embedded_in_prose() {
    let raw = r#"Sure! Here you go:
```json
{"obligations":[{"kind":"bounds","lean_statement":"P","nl_gloss":""}]}
```
Let me know if you need changes."#;
    let (obs, ok) = normalize_response(raw);
    assert!(ok.ok);
    assert_eq!(obs[0].kind, "bounds");
}

#[test]
fn empty_response_errors() {
    let (obs, st) = normalize_response("   ");
    assert!(obs.is_empty());
    assert_eq!(st.error_class.as_deref(), Some("empty_output"));
}

#[test]
fn item_errors_and_defaults() {
    let (obs, st) = normalize_response(r#"[{"kind":" Bounds ","lean_statement":"  P x  ","linked_semantic_units":["SU1",3,"SU2"]}]"#);
    assert!(st.ok);
    assert_eq!(obs[0].kind, "bounds");
    assert_eq!(obs[0].lean_statement, "P x");
    assert_eq!(obs[0].nl_gloss, "");
    assert_eq!(obs[0].linked_semantic_units, vec!["SU1", "SU2"]);
    let (_, st) = normalize_response(r#"[{"lean_statement":"A"}, 7]"#);
    assert_eq!(st.error_message.as_deref(), Some("obligation #1: obligation is not a JSON object"));
    let (_, st) = normalize_response(r#"[{"lean_statement":"   "}]"#);
    assert_eq!(st.error_message.as_deref(), Some("obligation #0: `lean_statement` is empty"));
    let (_, st) = normalize_response(r#"{"other": 1}"#);
    assert_eq!(st.error_class.as_deref(), Some("missing_fields"));
    let (_, st) = normalize_response("no json here");
    assert_eq!(st.error_class.as_deref(), Some("json_parse_error"));
}

#[test]
fn count_admit_or_sorry_counts_benchmark_theorem_placeholders() {
    let statements = vec![
        "theorem t : True := by\n  admit".to_string(),
        "theorem u : True := by\n  trivial".to_string(),
        "theorem v : True := by\n  sorry".to_string(),
    ];
    assert_eq!(count_admit_or_sorry(&statements), 2);
}

#[test]
fn parse_loose_reports_the_response_length_when_nothing_is_json() {
    match parse_loose("no {json here") {
        ParsedResponse::NotJson(m) => assert_eq!(
            m,
            "response is not valid JSON and no JSON object could be scraped (len=13 bytes)"
        ),
        other => panic!("unexpected {:?}", other),
    }
}

#[test]
fn parse_loose_takes_the_longest_region_that_is_json() {
    // the stray "[x]" is not JSON; the object after it is
    match parse_loose(r#"see [x] then {"obligations":[{"kind":"bounds","lean_statement":"P","linked_semantic_units":["SU1"]}]}"#) {
        ParsedResponse::Items(items) => {
            assert_eq!(items.len(), 1);
            assert!(items[0].is_object);
            assert_eq!(items[0].kind.as_deref(), Some("bounds"));
            assert_eq!(items[0].lean_statement.as_deref(), Some("P"));
            assert_eq!(items[0].nl_gloss, None);
            assert_eq!(items[0].linked_semantic_units, vec!["SU1".to_string()]);
        }
        other => panic!("unexpected {:?}", other),
    }
    match parse_loose(r#"{"obligations": 3}"#) {
        ParsedResponse::NoObligations => {}
        other => panic!("unexpected {:?}", other),
    }
    match parse_loose(r#"[5, {"kind": 1}]"#) {
        ParsedResponse::Items(items) => {
            assert_eq!(items.len(), 2);
            assert!(!items[0].is_object);
            assert!(items[1].is_object);
            assert_eq!(items[1].kind, None);
        }
        other => panic!("unexpected {:?}", other),
    }
}

#[test]
fn normalize_response_reads_hand_built_items() {
    let parsed = ParsedResponse::Items(vec![ObligationFields {
        is_object: true,
        kind: Some("Termination".to_string()),
        lean_statement: Some(" T ".to_string()),
        nl_gloss: Some("g".to_string()),
        linked_semantic_units: vec![],
    }]);
    let (obs, st): (Vec<NormalizedObligation>, ParseStatus) = normalize_parsed("x", &parsed);
    assert!(st.ok);
    assert_eq!(obs[0].kind, "termination");
    assert_eq!(obs[0].lean_statement, "T");
    assert_eq!(obs[0].nl_gloss, "g");
    let (obs, st) = normalize_parsed("x", &ParsedResponse::NoObligations);
    assert!(obs.is_empty());
    assert_eq!(st.error_class.as_deref(), Some("missing_fields"));
}

#[test]
fn scrape_candidates_lists_balanced_regions_longest_first() {
    assert_eq!(scrape_candidates(b"a{[1]}"), vec![(1, 5), (2, 4)]);
    assert_eq!(scrape_candidates(br#"{"a":"}"}"#), vec![(0, 8)]);
    assert_eq!(scrape_candidates(b"[ {"), vec![]);
}
