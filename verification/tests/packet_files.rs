use cta_bench::packet_check::{review_packet_issues, tally_packets, verification_outcome};

#[test]
fn complete_packet_has_no_issues() {
    let present = [true; 10];
    assert!(review_packet_issues("/ws/packets/s/i", None, true, &present, Some("model text")).is_empty());
}

#[test]
fn packet_issues_in_order() {
    let mut present = [true; 10];
    present[2] = false;
    present[9] = false;
    let issues = review_packet_issues("/ws/packets/s/i", Some("schema: missing field"), false, &present, Some(" \n\t"));
    assert_eq!(
        issues,
        vec![
            "schema: missing field".to_string(),
            "generated_obligations must be non-empty".to_string(),
            "missing required file: /ws/packets/s/i/reference_obligations.json".to_string(),
            "missing required file: /ws/packets/s/i/behavior_report.json".to_string(),
            "empty raw_output.txt: /ws/packets/s/i/raw_output.txt".to_string(),
        ]
    );
}

#[test]
fn absent_raw_output_is_only_a_missing_file() {
    let mut present = [true; 10];
    present[4] = false;
    let issues = review_packet_issues("pk/", None, true, &present, None);
    assert_eq!(issues, vec!["missing required file: pk/raw_output.txt".to_string()]);
}

#[test]
fn tally_counts_passed_and_failed_packets() {
    let issues = vec![
        vec![],
        vec!["generated_obligations must be non-empty".to_string()],
        vec![],
        vec!["a".to_string(), "b".to_string()],
    ];
    let t = tally_packets(&issues);
    assert_eq!(t.total, 4);
    assert_eq!(t.passed, 2);
    assert_eq!(t.failed, vec![1, 3]);
    assert_eq!(
        verification_outcome(&t, "out/summary.json").unwrap_err(),
        "packet verification failed: 2 packet(s) have issues; see out/summary.json"
    );
}

#[test]
fn a_run_with_no_failed_packet_succeeds() {
    let t = tally_packets(&vec![vec![], vec![]]);
    assert_eq!((t.total, t.passed), (2, 0 + 2));
    assert!(t.failed.is_empty());
    assert_eq!(verification_outcome(&t, "s.json"), Ok(()));
    let empty = tally_packets(&vec![]);
    assert_eq!((empty.total, empty.passed), (0, 0));
    assert!(verification_outcome(&empty, "s.json").is_ok());
}
