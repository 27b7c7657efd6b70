use vstd::prelude::*;
use crate::basics::versions::{BenchmarkVersion, MetricsVersion, RubricVersion};

verus! {

/// Release manifest: versions, per-domain counts and per-instance hashes.
#[derive(Debug, Clone)]
pub struct BenchmarkManifest {
    /// Schema version constant.
    pub schema_version: String,
    /// Benchmark version.
    pub benchmark_version: BenchmarkVersion,
    /// Rubric version.
    pub rubric_version: RubricVersion,
    /// Metrics contract version.
    pub metrics_version: MetricsVersion,
    /// ISO-8601 UTC creation timestamp.
    pub created_at: String,
    /// Per-domain instance count, by increasing domain name.
    pub instance_count_by_domain: Vec<(String, u32)>,
    /// Instance id and canonical directory hash, by increasing id.
    pub instance_hashes: Vec<(String, String)>,
    /// Fingerprint of the full (sorted id, hash) list.
    pub content_hash: String,
}

/// Informal statement bundle.
#[derive(Debug, Clone)]
pub struct InformalStatement {
    /// Human-readable problem statement.
    pub text: String,
    /// Preconditions on inputs.
    pub preconditions: Vec<String>,
    /// Properties that obligations should collectively capture.
    pub required_properties: Vec<String>,
    /// Edge cases that must be considered.
    pub edge_cases: Vec<String>,
}

/// Pointer to the Rust reference implementation.
#[derive(Debug, Clone)]
pub struct RustReference {
    /// Repo-relative path to the `.rs` file.
    pub path: String,
    /// Name of the entry function.
    pub entry_fn: String,
}

/// Pointer to Lean scaffold and gold artifacts.
#[derive(Debug, Clone)]
pub struct LeanTarget {
    /// Path to the Lean scaffold file.
    pub scaffold_path: String,
    /// Lean namespace for this instance.
    pub namespace: String,
    /// Path to reference obligations JSON.
    pub reference_obligations_path: String,
    /// Path to semantic units JSON.
    pub semantic_units_path: String,
}

/// Annotation metadata pinned to the instance.
#[derive(Debug, Clone)]
pub struct AnnotationMeta {
    /// Rubric version the instance was designed for.
    pub rubric_version: RubricVersion,
    /// Optional free-form notes.
    pub notes: Option<String>,
}

/// Behavioral oracle metadata.
#[derive(Debug, Clone)]
pub struct BehavioralOracleMeta {
    /// Path to the harness JSON.
    pub harness_path: String,
}

/// Parse status for a generated output.
#[derive(Debug, Clone)]
pub struct ParseStatus {
    /// Whether normalization fully succeeded.
    pub ok: bool,
    /// Error class if not ok.
    pub error_class: Option<String>,
    /// Error message if not ok.
    pub error_message: Option<String>,
}

impl ParseStatus {
    /// A successful status.
    pub fn ok() -> (st: Self)
        ensures
            st.ok,
            st.error_class is None,
            st.error_message is None,
    {
        ParseStatus { ok: true, error_class: None, error_message: None }
    }

    /// A failed status with its class and message.
    pub fn err(class: &str, message: &str) -> (st: Self)
        ensures
            !st.ok,
            st.error_class matches Some(c) && c@ == class@,
            st.error_message matches Some(m) && m@ == message@,
    {
        ParseStatus { ok: false, error_class: Some(class.to_owned()), error_message: Some(message.to_owned()) }
    }
}

/// Provider metadata embedded in every output.
#[derive(Debug, Clone)]
pub struct ProviderMetadata {
    /// Provider name (e.g. `openai`, `anthropic`, `stub`).
    pub name: String,
    /// Model family.
    pub model: String,
    /// Exact version string the provider returned.
    pub model_version: String,
    /// End-to-end latency in milliseconds, if measured.
    pub latency_ms: Option<u64>,
    /// Prompt tokens consumed.
    pub prompt_tokens: Option<u64>,
    /// Completion tokens consumed.
    pub completion_tokens: Option<u64>,
}

/// Offline stub provider with a fixed model version.
#[derive(Debug, Clone)]
pub struct StubProvider {
    model_version: String,
}

impl StubProvider {
    /// The model version this stub reports.
    pub closed spec fn version(&self) -> Seq<char> {
        self.model_version@
    }

    /// Stub reporting `model_version`.
    pub fn new(model_version: &str) -> (p: Self)
        ensures
            p.version() == model_version@,
    {
        StubProvider { model_version: model_version.to_owned() }
    }

    /// The model version this stub reports.
    pub fn model_version(&self) -> (s: &str)
        ensures
            s@ == self.version(),
    {
        self.model_version.as_str()
    }
}

impl Default for StubProvider {
    /// The stub reporting version `stub-0.0.1`.
    fn default() -> (p: Self)
        ensures
            p.version() == "stub-0.0.1"@,
    {
        StubProvider::new("stub-0.0.1")
    }
}

} // verus!
