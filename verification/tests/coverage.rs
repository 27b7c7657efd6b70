use cta_bench::coverage::{
    annotation_coverage, assignment_matrix_lines, batch_id, batch_queue_lines, completion_log_lines, missing_pairs,
    no_coverage, required_pairs, sorted_pairs,
};

fn s(v: &[&str]) -> Vec<String> {
    v.iter().map(|x| x.to_string()).collect()
}

fn pairs(v: &[(&str, &str)]) -> Vec<(String, String)> {
    v.iter().map(|(a, b)| (a.to_string(), b.to_string())).collect()
}

#[test]
fn required_pairs_are_instance_major() {
    let req = required_pairs(&s(&["i1", "i2"]), &s(&["sa", "sb"]));
    assert_eq!(req, pairs(&[("i1", "sa"), ("i1", "sb"), ("i2", "sa"), ("i2", "sb")]));
    assert!(required_pairs(&s(&[]), &s(&["sa"])).is_empty());
}

#[test]
fn missing_pairs_keep_required_order() {
    let req = pairs(&[("i1", "sa"), ("i1", "sb"), ("i2", "sa")]);
    let present = pairs(&[("i1", "sb"), ("zz", "sa")]);
    assert_eq!(missing_pairs(&req, &present), pairs(&[("i1", "sa"), ("i2", "sa")]));
}

#[test]
fn assignment_matrix_rows() {
    let req = pairs(&[("i1", "sa"), ("i2", "sa")]);
    let lines = assignment_matrix_lines("v0.1", &req, &pairs(&[("i2", "sa")]));
    assert_eq!(lines.len(), 3);
    assert!(lines[0].starts_with("instance_id,system_id,annotator_1"));
    assert_eq!(
        lines[1],
        "i1,sa,,,,unassigned,benchmark/v0.1/annotation/raw/ann_01/i1__sa.json,benchmark/v0.1/annotation/raw/ann_02/i1__sa.json,benchmark/v0.1/annotation/raw/adjudicator/i1__sa.json,"
    );
    assert!(lines[2].starts_with("i2,sa,,,,packed,"));
}

#[test]
fn completion_log_marks_full_coverage() {
    assert_eq!(
        completion_log_lines(&Vec::new(), "2024-01-01T00:00:00Z"),
        s(&["timestamp,instance_id,system_id,status,notes", "2024-01-01T00:00:00Z,,,packed,all required pairs currently covered"])
    );
    assert_eq!(completion_log_lines(&pairs(&[("i", "s")]), "t").len(), 1);
}

#[test]
fn batch_queues_sort_stably_by_instance() {
    let missing = pairs(&[("i3", "sa"), ("i1", "sb"), ("i2", "sa"), ("i1", "sa")]);
    let lines = batch_queue_lines(&missing, "sa");
    assert_eq!(lines, s(&["instance_id,system_id,status,notes", "i1,sa,queued,", "i2,sa,queued,", "i3,sa,queued,"]));
    assert_eq!(batch_id(1), "batch_01");
    assert_eq!(batch_id(12), "batch_12");
}

#[test]
fn sorted_pairs_dedupe_and_order() {
    let v = pairs(&[("b", "x"), ("a", "y"), ("b", "x"), ("a", "b")]);
    assert_eq!(sorted_pairs(&v), pairs(&[("a", "b"), ("a", "y"), ("b", "x")]));
}

#[test]
fn annotation_coverage_counts_and_examples() {
    let c = annotation_coverage(&s(&["i2", "i1", "i1"]), &s(&["sa", "sb"]), &pairs(&[("i1", "sb"), ("x", "y")]));
    assert_eq!(c.required_pairs, 4);
    assert_eq!(c.covered_pairs, 1);
    assert_eq!(c.missing_pairs, 3);
    assert_eq!(c.missing_examples, pairs(&[("i1", "sa"), ("i2", "sa"), ("i2", "sb")]));
    let ids: Vec<String> = (0..30).map(|k| format!("i{k:02}")).collect();
    let many = annotation_coverage(&ids, &s(&["sa"]), &Vec::new());
    assert_eq!(many.missing_pairs, 30);
    assert_eq!(many.missing_examples.len(), 20);
    let z = no_coverage();
    assert_eq!((z.required_pairs, z.covered_pairs, z.missing_pairs), (0, 0, 0));
}
