use cta_bench::adjudication::{
    adjudicate_group, count_disagreements, from_adjudicated, Annotation, AnnotationError, AnnotatorGroup,
};
use cta_bench::annotations::{
    AdjudicationPolicy, AnnotatedObligation, ConsistencyLabel, CriticalUnitCoverage, FaithfulnessLabel,
};
use cta_bench::basics::ids::{InstanceId, SystemId};
use cta_bench::basics::versions::RubricVersion;

fn obligation(index: u32, faith: &str, vacuous: bool, linked: &[&str]) -> AnnotatedObligation {
    AnnotatedObligation {
        obligation_index: index,
        faithfulness_label: FaithfulnessLabel::parse(faith).unwrap(),
        consistency_label: ConsistencyLabel::Consistent,
        is_vacuous: vacuous,
        linked_semantic_units: linked.iter().map(|s| s.to_string()).collect(),
        notes: None,
    }
}

fn demo(annotator_id: &str, faith_label: &str) -> Annotation {
    Annotation {
        schema_version: "schema_v1".into(),
        rubric_version: RubricVersion::new("rubric_v1").unwrap(),
        instance_id: InstanceId::new("arrays_binary_search_001").unwrap(),
        system_id: SystemId::new("text_only_v1").unwrap(),
        annotator_id: annotator_id.into(),
        critical_unit_coverage: CriticalUnitCoverage { covered: vec!["SU1".into()], missed: vec!["SU2".into()] },
        generated_obligations: vec![obligation(0, faith_label, false, &["SU1"])],
        annotator_notes: None,
    }
}

#[test]
fn prefer_adjudicator_policy_returns_adjudicator() {
    let group = AnnotatorGroup { annotators: vec![demo("ann_01", "partial")], adjudicator: Some(demo("adjudicator", "faithful")) };
    let r = adjudicate_group(group, AdjudicationPolicy::PreferAdjudicator).unwrap();
    assert!(r.from_adjudicator);
    assert_eq!(r.annotation.generated_obligations[0].faithfulness_label, FaithfulnessLabel::Faithful);
}

#[test]
fn majority_merges_two_annotators() {
    let group = AnnotatorGroup {
        annotators: vec![demo("ann_01", "faithful"), demo("ann_02", "faithful"), demo("ann_03", "partial")],
        adjudicator: None,
    };
    let r = adjudicate_group(group, AdjudicationPolicy::AlwaysMajority).unwrap();
    assert!(!r.from_adjudicator);
    assert_eq!(r.annotation.generated_obligations[0].faithfulness_label, FaithfulnessLabel::Faithful);
}

#[test]
fn prefer_adjudicator_errors_without_adjudicator_when_multi() {
    let group = AnnotatorGroup { annotators: vec![demo("ann_01", "faithful"), demo("ann_02", "unfaithful")], adjudicator: None };
    let e = adjudicate_group(group, AdjudicationPolicy::PreferAdjudicator).unwrap_err();
    assert!(matches!(e, AnnotationError::MissingAdjudicator(..)));
}

#[test]
fn majority_record_merges_everything() {
    let mut a = demo("ann_01", "faithful");
    a.critical_unit_coverage = CriticalUnitCoverage { covered: vec!["SU3".into(), "SU1".into()], missed: vec!["SU2".into(), "SU4".into()] };
    a.generated_obligations.push(obligation(1, "partial", true, &["SU4", "SU2"]));
    let mut b = demo("ann_02", "unfaithful");
    b.critical_unit_coverage = CriticalUnitCoverage { covered: vec!["SU2".into()], missed: vec!["SU5".into(), "SU5".into()] };
    b.generated_obligations[0].is_vacuous = true;
    let group = AnnotatorGroup { annotators: vec![a, b], adjudicator: Some(demo("adjudicator", "partial")) };
    assert_eq!(count_disagreements(&group), vec![1, 0]);
    let r = adjudicate_group(group, AdjudicationPolicy::AlwaysMajority).unwrap();
    assert!(!r.from_adjudicator);
    assert_eq!(r.per_obligation_disagreements, vec![1, 0]);
    let m = r.annotation;
    assert_eq!(m.annotator_id, "adjudicator");
    assert_eq!(m.instance_id.as_str(), "arrays_binary_search_001");
    assert_eq!(m.annotator_notes, Some("synthesised via majority vote from 2 annotators".to_string()));
    assert_eq!(m.critical_unit_coverage.covered, vec!["SU1", "SU2", "SU3"]);
    assert_eq!(m.critical_unit_coverage.missed, vec!["SU4", "SU5"]);
    assert_eq!(m.generated_obligations.len(), 2);
    // a tie goes to the higher label; one vacuous vote of two is no majority
    assert_eq!(m.generated_obligations[0].faithfulness_label, FaithfulnessLabel::Faithful);
    assert!(!m.generated_obligations[0].is_vacuous);
    assert_eq!(m.generated_obligations[1].faithfulness_label, FaithfulnessLabel::Partial);
    assert_eq!(m.generated_obligations[1].obligation_index, 1);
    assert!(m.generated_obligations[1].is_vacuous);
    assert_eq!(m.generated_obligations[1].linked_semantic_units, vec!["SU2", "SU4"]);
}

#[test]
fn empty_and_single_groups() {
    let empty = AnnotatorGroup { annotators: vec![], adjudicator: None };
    assert!(empty.is_empty());
    assert_eq!(empty.len(), 0);
    assert!(matches!(adjudicate_group(empty, AdjudicationPolicy::AlwaysMajority), Err(AnnotationError::Empty(_))));
    let only_adj = AnnotatorGroup { annotators: vec![], adjudicator: Some(demo("adjudicator", "faithful")) };
    assert_eq!(only_adj.len(), 1);
    assert!(matches!(
        adjudicate_group(only_adj, AdjudicationPolicy::AlwaysMajority),
        Err(AnnotationError::MissingAdjudicator(..))
    ));
    let single = AnnotatorGroup { annotators: vec![demo("ann_07", "partial")], adjudicator: None };
    assert_eq!(count_disagreements(&single), Vec::<u32>::new());
    let r = adjudicate_group(single, AdjudicationPolicy::PreferAdjudicator).unwrap();
    assert_eq!(r.annotation.annotator_id, "ann_07");
    assert!(!r.from_adjudicator);
}

#[test]
fn pack_orders_records_and_takes_first_rubric() {
    let mut a = demo("adjudicator", "faithful");
    a.instance_id = InstanceId::new("sorting_merge_sort_001").unwrap();
    let mut b = demo("adjudicator", "faithful");
    b.rubric_version = RubricVersion::new("rubric_v2").unwrap();
    b.system_id = SystemId::new("code_only_v1").unwrap();
    let c = demo("adjudicator", "partial");
    let pack = from_adjudicated(vec![(a, 1u8), (b, 2u8), (c, 3u8)]).unwrap();
    assert_eq!(pack.schema_version, "schema_v1");
    assert_eq!(pack.rubric_version, "rubric_v2");
    let order: Vec<u8> = pack.records.iter().map(|r| r.1).collect();
    assert_eq!(order, vec![2, 3, 1]);
    match from_adjudicated::<u8>(Vec::new()) {
        Err(AnnotationError::Empty(p)) => assert!(p.is_empty()),
        other => panic!("unexpected {:?}", other.map(|p| p.records.len())),
    }
}
