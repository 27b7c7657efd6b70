use cta_bench::dashboard::WorkItem;
use cta_bench::proof_plan::{distinct_keys, execution_tracks, summarize_by_key};

fn row(instance: &str, system: &str, family: &str, admits: u64, reason: &str) -> WorkItem {
    WorkItem {
        instance_id: instance.to_string(),
        system_id: system.to_string(),
        family: family.to_string(),
        admit_count: admits,
        proof_mode: "definition_backed".to_string(),
        gap_reason: reason.to_string(),
        packet_path: format!("packets/{}/{}/packet.json", system, instance),
        scaffold_path: format!("packets/{}/{}/scaffold.lean", system, instance),
    }
}

#[test]
fn keys_sorted_once_each() {
    let keys = vec!["b".to_string(), "a".to_string(), "b".to_string(), "c".to_string(), "a".to_string()];
    assert_eq!(distinct_keys(&keys), vec!["a".to_string(), "b".to_string(), "c".to_string()]);
    assert!(distinct_keys(&Vec::new()).is_empty());
}

#[test]
fn summary_by_system_counts_packets() {
    let entries = vec![
        ("full_method_v1".to_string(), true, 3),
        ("code_only_v1".to_string(), false, 0),
        ("full_method_v1".to_string(), false, 2),
        ("full_method_v1".to_string(), true, 0),
    ];
    let s = summarize_by_key(&entries);
    assert_eq!(s.len(), 2);
    assert_eq!(s[0].key, "code_only_v1");
    assert_eq!((s[0].total, s[0].elaborated, s[0].admit_debt), (1, 0, 0));
    assert_eq!(s[1].key, "full_method_v1");
    assert_eq!((s[1].total, s[1].elaborated, s[1].admit_debt), (3, 2, 5));
}

#[test]
fn tracks_group_rank_and_cut() {
    let mut items = vec![
        row("x1", "s2", "graph", 1, "admit_debt"),
        row("x2", "s1", "graph", 4, "admit_debt"),
        row("x3", "s1", "dp", 1, "admit_debt"),
        row("y1", "s1", "dp", 0, "axiom_backed_interface"),
    ];
    for k in 0..10 {
        items.push(row(&format!("z{}", k), "s1", "trees", 0, "definition_backed_proof_gap"));
    }
    let tracks = execution_tracks(&items);
    let reasons: Vec<&str> = tracks.iter().map(|t| t.gap_reason.as_str()).collect();
    assert_eq!(reasons, vec!["admit_debt", "axiom_backed_interface", "definition_backed_proof_gap"]);
    let first: Vec<&str> = tracks[0].items.iter().map(|w| w.instance_id.as_str()).collect();
    assert_eq!(first, vec!["x2", "x3", "x1"]);
    assert_eq!(tracks[1].items.len(), 1);
    assert_eq!(tracks[2].items.len(), 8);
    assert_eq!(tracks[2].items[0].instance_id, "z0");
    assert!(execution_tracks(&Vec::new()).is_empty());
}
