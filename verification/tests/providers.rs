use cta_bench::providers::{parse_provider_reply, ReplyDialect};

#[test]
fn openai_reply_reads_content_usage_and_model() {
    let body = r#"{"model":"gpt-x-2024","choices":[{"message":{"role":"assistant","content":"[{\"kind\":\"bounds\",\"lean_statement\":\"P\"}]"}}],"usage":{"prompt_tokens":12,"completion_tokens":34}}"#;
    let r = parse_provider_reply(body, 250, "gpt-x", ReplyDialect::OpenAi).unwrap();
    assert_eq!(r.raw, r#"[{"kind":"bounds","lean_statement":"P"}]"#);
    assert_eq!(r.model_version, "gpt-x-2024");
    assert_eq!(r.tokens, Some((12, 34)));
    assert_eq!(r.latency_ms, 250);
    assert!(r.parse_status.ok);
    assert_eq!(r.obligations.len(), 1);
    assert_eq!(r.obligations[0].kind, "bounds");
}

#[test]
fn openai_reply_defaults_when_fields_are_missing() {
    let r = parse_provider_reply(r#"{"choices":[]}"#, 1, "fallback-model", ReplyDialect::OpenAi).unwrap();
    assert_eq!(r.raw, "");
    assert_eq!(r.model_version, "fallback-model");
    assert_eq!(r.tokens, None);
    assert!(!r.parse_status.ok);
    assert_eq!(r.parse_status.error_class.as_deref(), Some("empty_output"));
    // usage present but without counts gives zeros
    let r = parse_provider_reply(r#"{"usage":{"prompt_tokens":-3}}"#, 1, "m", ReplyDialect::OpenAi).unwrap();
    assert_eq!(r.tokens, Some((0, 0)));
}

#[test]
fn anthropic_reply_joins_text_blocks() {
    let body = r#"{"model":"msg-model-z","content":[{"type":"text","text":"{\"obligations\":["},{"type":"tool_use","id":"x"},{"type":"text","text":"{\"kind\":\"invariant\",\"lean_statement\":\"Q\"}]}"}],"usage":{"input_tokens":5,"output_tokens":7}}"#;
    let r = parse_provider_reply(body, 9, "fallback", ReplyDialect::Anthropic).unwrap();
    assert_eq!(r.raw, r#"{"obligations":[{"kind":"invariant","lean_statement":"Q"}]}"#);
    assert_eq!(r.model_version, "msg-model-z");
    assert_eq!(r.tokens, Some((5, 7)));
    assert!(r.parse_status.ok);
    assert_eq!(r.obligations[0].kind, "invariant");
    assert_eq!(r.obligations[0].lean_statement, "Q");
}

#[test]
fn anthropic_reply_ignores_openai_fields() {
    let body = r#"{"choices":[{"message":{"content":"[]"}}],"usage":{"prompt_tokens":3}}"#;
    let r = parse_provider_reply(body, 0, "m", ReplyDialect::Anthropic).unwrap();
    assert_eq!(r.raw, "");
    assert_eq!(r.tokens, Some((0, 0)));
}

#[test]
fn reply_body_that_is_not_json_is_refused() {
    let e = parse_provider_reply("<html>bad gateway</html>", 0, "m", ReplyDialect::OpenAi).unwrap_err();
    assert!(e.starts_with("json error: "));
    assert!(e.len() > "json error: ".len());
    let e = parse_provider_reply("", 0, "m", ReplyDialect::Anthropic).unwrap_err();
    assert!(e.starts_with("json error: "));
}

#[test]
fn openai_response_parser_extracts_content_model_and_usage() {
    let body = r#"{"model":"gpt-x-2026-01","choices":[{"message":{"content":"{\"obligations\": []}"}}],"usage":{"prompt_tokens":12,"completion_tokens":34}}"#;
    let resp = parse_provider_reply(body, 77, "fallback", ReplyDialect::OpenAi).unwrap();
    assert_eq!(resp.model_version, "gpt-x-2026-01");
    assert_eq!(resp.tokens, Some((12, 34)));
    assert_eq!(resp.latency_ms, 77);
    assert!(resp.raw.contains("obligations"));
}

#[test]
fn anthropic_response_parser_extracts_blocks_and_usage() {
    let body = r#"{"model":"msg-model-x-2026-01","content":[{"type":"text","text":"partial "},{"type":"text","text":"reply"}],"usage":{"input_tokens":5,"output_tokens":9}}"#;
    let resp = parse_provider_reply(body, 42, "fallback", ReplyDialect::Anthropic).unwrap();
    assert_eq!(resp.model_version, "msg-model-x-2026-01");
    assert_eq!(resp.raw, "partial reply");
    assert_eq!(resp.tokens, Some((5, 9)));
    assert_eq!(resp.latency_ms, 42);
}
