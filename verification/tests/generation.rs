use cta_bench::basics::ids::{InstanceId, RunId, SystemId};
use cta_bench::generation::{assemble_outcome, generate_with_stub, GenerateParams};
use cta_bench::hashing::hash_prompt;
use cta_bench::prompts::{PromptContext, PromptKind, PromptTemplate};
use cta_bench::providers::ProviderReply;
use cta_bench::records::{ParseStatus, StubProvider};

fn params(seed: u64) -> GenerateParams {
    GenerateParams {
        run_id: RunId::new("run_2026_04_21_stub_local_000").unwrap(),
        system_id: SystemId::new("text_only_v1").unwrap(),
        instance_id: InstanceId::new("arrays_binary_search_001").unwrap(),
        seed,
        max_tokens: 128,
        raw_output_path: "raw.txt".into(),
    }
}

#[test]
fn stub_provider_returns_parseable_bundle() {
    let p = StubProvider::default();
    let resp = p.generate(1);
    assert!(resp.parse_status.ok);
    assert_eq!(resp.obligations.len(), 1);
    assert_eq!(resp.obligations[0].kind, "structural");
}

#[test]
fn stub_reply_names_the_seed() {
    let resp = StubProvider::new("stub-9").generate(42);
    assert_eq!(
        resp.raw,
        r#"{"obligations": [{"kind": "structural", "lean_statement": "True", "nl_gloss": "stub obligation for seed 42"}]}"#
    );
    assert_eq!(resp.obligations[0].lean_statement, "True");
    assert_eq!(resp.obligations[0].nl_gloss, "stub obligation for seed 42");
    assert_eq!(resp.tokens, Some((0, 0)));
    assert_eq!(resp.latency_ms, 0);
    assert_eq!(resp.model_version, "stub-9");
}

#[test]
fn stub_bundle_roundtrips() {
    let provider = StubProvider::default();
    let template = PromptTemplate::new("text_only_v1", PromptKind::TextOnly, "v1", "prompt: {{informal_statement}}");
    let mut ctx = PromptContext::new();
    ctx.insert("informal_statement", "sort an array");
    let outcome = generate_with_stub(&provider, &template, &ctx, &params(42));
    let bundle = &outcome.bundle;
    assert!(bundle.parse_status.ok);
    assert!(bundle.prompt_hash.starts_with("sha256:"));
    assert_eq!(bundle.normalized_obligations.len(), 1);
    assert_eq!(bundle.prompt_hash, hash_prompt("prompt: sort an array"));
    assert_eq!(bundle.provider_metadata.name, "stub");
    assert_eq!(bundle.provider_metadata.model, "stub-local");
    assert_eq!(bundle.provider_metadata.model_version, "stub-0.0.1");
    assert_eq!(bundle.provider_metadata.prompt_tokens, Some(0));
    assert_eq!(bundle.schema_version, "schema_v1");
    assert_eq!(bundle.run_id.as_str(), "run_2026_04_21_stub_local_000");
    assert_eq!(bundle.instance_id.as_str(), "arrays_binary_search_001");
    assert_eq!(bundle.raw_output_path, "raw.txt");
    assert_eq!(bundle.seed, 42);
    assert!(outcome.raw.contains("seed 42"));
}

#[test]
fn a_reply_without_usage_records_zero_tokens() {
    let reply = ProviderReply {
        raw: "[]".to_string(),
        obligations: vec![],
        parse_status: ParseStatus::ok(),
        latency_ms: 31,
        tokens: None,
        model_version: "m-2".to_string(),
    };
    let o = assemble_outcome("openai", "m", &params(5), "sha256:00".to_string(), reply);
    assert_eq!(o.bundle.provider_metadata.prompt_tokens, Some(0));
    assert_eq!(o.bundle.provider_metadata.completion_tokens, Some(0));
    assert_eq!(o.bundle.provider_metadata.latency_ms, Some(31));
    assert_eq!(o.bundle.provider_metadata.name, "openai");
    assert_eq!(o.bundle.provider_metadata.model_version, "m-2");
    assert_eq!(o.bundle.prompt_hash, "sha256:00");
    assert_eq!(o.raw, "[]");
}

#[test]
fn context_insert_keeps_keys_in_order_and_counts_new_keys() {
    let mut ctx = PromptContext::new();
    ctx.insert("b", "1").insert("a", "2");
    assert_eq!(ctx.len(), 2);
    ctx.insert("b", "3");
    assert_eq!(ctx.len(), 2);
    let pairs: Vec<(String, String)> = ctx.iter();
    assert_eq!(pairs, vec![("a".to_string(), "2".to_string()), ("b".to_string(), "3".to_string())]);
}

#[test]
fn stub_is_deterministic_under_a_fixed_seed() {
    let p = StubProvider::default();
    let a = p.generate(7);
    let b = p.generate(7);
    assert_eq!(a.raw, b.raw);
    assert_eq!(format!("{:?}", a.obligations), format!("{:?}", b.obligations));
    assert_eq!(format!("{:?}", a.parse_status), format!("{:?}", b.parse_status));
    assert_ne!(a.raw, p.generate(8).raw);
}
