use cta_bench::basics::enums::Domain;
use cta_bench::basics::ids::{InstanceId, ObligationId, RunId, SemanticUnitId, SystemId};
use cta_bench::basics::versions::{BenchmarkVersion, MetricsVersion, RubricVersion, SchemaVersion};
use cta_bench::basics::error::CoreError;

#[test]
fn domain_all_matches_variants() {
    assert_eq!(Domain::ALL.len(), 6);
}

#[test]
fn instance_id_accepts_canonical() {
    let id = InstanceId::new("graph_dijkstra_001").unwrap();
    assert_eq!(id.as_str(), "graph_dijkstra_001");
}

#[test]
fn instance_id_rejects_bad() {
    assert!(InstanceId::new("Graph_Dijkstra_001").is_err());
    assert!(InstanceId::new("graph_dijkstra").is_err());
    assert!(InstanceId::new("graph_dijkstra_1").is_err());
    assert!(InstanceId::new("").is_err());
}

#[test]
fn obligation_id_accepts_canonical() {
    assert!(ObligationId::new("obl_000").is_ok());
    assert!(ObligationId::new("obl_999").is_ok());
}

#[test]
fn obligation_id_rejects_bad() {
    assert!(ObligationId::new("obl_1").is_err());
    assert!(ObligationId::new("OBL_001").is_err());
}

#[test]
fn semantic_unit_id_accepts_canonical() {
    assert!(SemanticUnitId::new("SU0").is_ok());
    assert!(SemanticUnitId::new("SU42").is_ok());
}

#[test]
fn run_id_accepts_canonical() {
    let r = RunId::new("run_2026_04_21_full_method_v1_eval_001").unwrap();
    assert_eq!(r.as_str(), "run_2026_04_21_full_method_v1_eval_001");
}

#[test]
fn system_id_accepts_canonical() {
    assert!(SystemId::new("text_only_v1").is_ok());
    assert!(SystemId::new("full_method_v12").is_ok());
}

#[test]
fn system_id_rejects_bad() {
    assert!(SystemId::new("TextOnly_v1").is_err());
    assert!(SystemId::new("text_only").is_err());
}

#[test]
fn benchmark_version_ok() {
    assert!(BenchmarkVersion::new("v0.1").is_ok());
    assert!(BenchmarkVersion::new("v12.3").is_ok());
    assert!(BenchmarkVersion::new("0.1").is_err());
    assert!(BenchmarkVersion::new("v0.1.2").is_err());
}

#[test]
fn schema_version_ok() {
    assert!(SchemaVersion::new("schema_v1").is_ok());
    assert!(SchemaVersion::new("schema_v10").is_ok());
    assert!(SchemaVersion::new("schema_1").is_err());
}

#[test]
fn doc_examples_accept_and_reject() {
    assert!(SystemId::new("full_method_v1").is_ok());
    assert!(InstanceId::new("Graph_Dijkstra_001").is_err());
    assert!(SystemId::new("no_version_suffix").is_err());
    assert!(RunId::new("run_shorthand").is_err());
    assert!(BenchmarkVersion::new("1.0").is_err());
}

#[test]
fn instance_id_edge_cases() {
    assert!(InstanceId::new("a_000").is_ok());
    assert!(InstanceId::new("a1_b2_c3_123").is_ok());
    assert!(InstanceId::new("a__b_123").is_err());
    assert!(InstanceId::new("a_b__123").is_err());
    assert!(InstanceId::new("_a_123").is_err());
    assert!(InstanceId::new("1a_123").is_err());
    assert!(InstanceId::new("a_1234").is_err());
    assert!(InstanceId::new("a_1_234").is_ok());
    assert!(InstanceId::new("a_12a").is_err());
    assert!(InstanceId::new("ab_123 ").is_err());
}

#[test]
fn run_id_edge_cases() {
    assert!(RunId::new("run_2026_04_22_code_only_v1_eval_099").is_ok());
    assert!(RunId::new("run_2026_04_21_stub_local_000").is_ok());
    assert!(RunId::new("run_2026_04_21_x_eval_001").is_ok());
    assert!(RunId::new("run_2026_04_21_x__001").is_err());
    assert!(RunId::new("run_2026_4_21_x_eval_001").is_err());
    assert!(RunId::new("run_2026_04_21_x_eval1_001").is_err());
    assert!(RunId::new("run_2026_04_21__eval_001").is_err());
}

#[test]
fn system_and_semantic_unit_edge_cases() {
    assert!(SystemId::new("a_v0").is_ok());
    assert!(SystemId::new("a_b_v_v1").is_ok());
    assert!(SystemId::new("_v1").is_err());
    assert!(SystemId::new("a_v").is_err());
    assert!(SystemId::new("a_v1x").is_err());
    assert!(SemanticUnitId::new("SU").is_err());
    assert!(SemanticUnitId::new("SU1a").is_err());
    assert!(SemanticUnitId::new("su1").is_err());
}

#[test]
fn metrics_and_rubric_versions() {
    assert!(MetricsVersion::new("metrics_v2").is_ok());
    assert!(MetricsVersion::new("metrics_v").is_err());
    assert!(RubricVersion::new("rubric_v1").is_ok());
    assert!(RubricVersion::new("rubric_1").is_err());
    assert!(BenchmarkVersion::new("v.1").is_err());
    assert!(BenchmarkVersion::new("v1.").is_err());
}

#[test]
fn invalid_id_error_carries_value() {
    match InstanceId::new("bad id") {
        Err(CoreError::InvalidId { kind, value, .. }) => {
            assert_eq!(kind, "instance");
            assert_eq!(value, "bad id");
        }
        _ => panic!("expected an invalid-id error"),
    }
    match SchemaVersion::new("schema") {
        Err(CoreError::InvalidVersion { kind, value, .. }) => {
            assert_eq!(kind, "schema");
            assert_eq!(value, "schema");
        }
        _ => panic!("expected an invalid-version error"),
    }
}

#[test]
fn ids_round_trip_their_text() {
    let id = InstanceId::new("arrays_binary_search_001").unwrap();
    assert_eq!(id.clone().into_inner(), "arrays_binary_search_001");
    assert_eq!(Domain::Graph.as_str(), "graph");
    assert_eq!(Domain::Dp.as_str(), "dp");
}
