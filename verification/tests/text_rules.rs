use cta_bench::basics::ids::{InstanceId, SystemId};
use cta_bench::lean::{classify_error, theorem_name};
use cta_bench::lean_text::extract_trusted_symbols;
use cta_bench::prompts::{render, render_strict, PromptContext, PromptError, PromptKind, PromptTemplate};
use cta_bench::splits::SplitName;
use cta_bench::annotations::{mode_cons, mode_faith, ConsistencyLabel, FaithfulnessLabel};

#[test]
fn split_name_round_trip() {
    for name in [SplitName::Dev, SplitName::Eval, SplitName::Challenge] {
        assert_eq!(SplitName::parse(name.as_str()), Some(name));
    }
    assert!(SplitName::parse("nope").is_none());
}

#[test]
fn extract_trusted_symbols_finds_axioms_and_opaques() {
    let src = r#"
opaque dijkstra : Nat → Nat
axiom PathWeight : Prop
def helper : Nat := 0
        "#;
    let got = extract_trusted_symbols(&[], src);
    assert_eq!(got, vec!["PathWeight".to_string(), "dijkstra".to_string()]);
}

#[test]
fn trusted_symbols_merge_imported_and_cut_names() {
    let src = "  axiom foo(x : Nat) : Prop\nopaque bar: Nat\naxiom\nopaque  baz\taa\naxiomatic q : Prop\n";
    let imported = vec!["zeta".to_string(), "bar".to_string()];
    let got = extract_trusted_symbols(&imported, src);
    assert_eq!(
        got,
        vec!["bar".to_string(), "baz".to_string(), "foo".to_string(), "zeta".to_string()]
    );
}

#[test]
fn render_substitutes_simple() {
    let mut ctx = PromptContext::new();
    ctx.insert("a", "1").insert("b", "2");
    assert_eq!(render("x {{a}} y {{b}}", &ctx), "x 1 y 2");
}

#[test]
fn render_leaves_unknown_placeholders() {
    let ctx = PromptContext::new();
    assert_eq!(render("x {{unknown}} y", &ctx), "x {{unknown}} y");
}

#[test]
fn render_strict_flags_missing() {
    let ctx = PromptContext::new();
    let err = render_strict("x {{foo}} {{bar}}", &ctx).unwrap_err();
    match err {
        PromptError::UnresolvedPlaceholders(v) => {
            assert_eq!(v, vec!["bar".to_string(), "foo".to_string()]);
        }
        _ => panic!("wrong err kind"),
    }
}

#[test]
fn render_edge_cases() {
    let mut ctx = PromptContext::new();
    ctx.insert("k", "v");
    ctx.insert("k", "w");
    assert_eq!(ctx.len(), 1);
    assert_eq!(render("{{k}}{{k}}", &ctx), "ww");
    assert_eq!(render("{{k}", &ctx), "{{k}");
    assert_eq!(render("{{{k}}}", &ctx), "{w}");
    assert_eq!(render("", &ctx), "");
    assert_eq!(render_strict("plain {{k}}", &ctx).unwrap(), "plain w");
    let err = render_strict("{{x}} {{x}}", &ctx).unwrap_err();
    match err {
        PromptError::UnresolvedPlaceholders(v) => assert_eq!(v, vec!["x".to_string()]),
        _ => panic!("wrong err kind"),
    }
}

#[test]
fn context_iterates_in_key_order() {
    let mut ctx = PromptContext::new();
    ctx.insert("b", "2").insert("a", "1").insert("c", "3");
    let pairs = ctx.iter();
    let keys: Vec<&str> = pairs.iter().map(|(k, _)| k.as_str()).collect();
    assert_eq!(keys, vec!["a", "b", "c"]);
    assert!(!ctx.is_empty());
    assert!(PromptContext::new().is_empty());
}

#[test]
fn template_renders_its_body() {
    let t = PromptTemplate::new("text_only_v1", PromptKind::TextOnly, "v1", "prompt: {{informal_statement}}");
    let mut ctx = PromptContext::new();
    ctx.insert("informal_statement", "sort an array");
    assert_eq!(t.render(&ctx), "prompt: sort an array");
    assert_eq!(t.schema_version, "schema_v1");
    assert!(t.render_strict(&PromptContext::new()).is_err());
}

#[test]
fn kind_round_trip() {
    for k in [
        PromptKind::TextOnly,
        PromptKind::CodeOnly,
        PromptKind::NaiveConcat,
        PromptKind::FullMethod,
    ] {
        assert_eq!(PromptKind::parse(k.as_str()), Some(k));
    }
    assert_eq!(PromptKind::parse("nope"), None);
}

#[test]
fn theorem_name_is_deterministic() {
    let i = InstanceId::new("graph_dijkstra_001").unwrap();
    let s = SystemId::new("full_method_v1").unwrap();
    assert_eq!(
        theorem_name(&i, &s, 2),
        "graph_dijkstra_001__full_method_v1__obl_02"
    );
}

#[test]
fn theorem_name_wide_index() {
    let i = InstanceId::new("dp_knapsack_01_001").unwrap();
    let s = SystemId::new("text_only_v1").unwrap();
    assert_eq!(theorem_name(&i, &s, 123), "dp_knapsack_01_001__text_only_v1__obl_123");
    assert_eq!(theorem_name(&i, &s, 0), "dp_knapsack_01_001__text_only_v1__obl_00");
}

#[test]
fn classify_error_variants() {
    assert_eq!(
        classify_error("error", "unknown identifier 'foo'"),
        "unknown_identifier"
    );
    assert_eq!(
        classify_error("error", "type mismatch at binder"),
        "type_mismatch"
    );
    assert_eq!(classify_error("error", "unsolved goals"), "unsolved_goals");
    assert_eq!(
        classify_error("warning", "declaration uses 'sorry'"),
        "warning"
    );
    assert_eq!(classify_error("error", "random text"), "other");
}

#[test]
fn classify_error_other_classes() {
    assert_eq!(classify_error("info", "anything"), "info");
    assert_eq!(classify_error("error", "Unknown Constant 'x'"), "unknown_identifier");
    assert_eq!(classify_error("error", "unexpected token 'by'"), "syntax_error");
    assert_eq!(classify_error("error", "expected term; syntax"), "syntax_error");
    assert_eq!(classify_error("error", "declaration uses 'sorry'"), "sorry");
    assert_eq!(classify_error("error", "unknown tactic"), "unknown_tactic");
    assert_eq!(classify_error("error", "failed to synthesize Decidable"), "typeclass_failure");
    assert_eq!(classify_error("error", "expected only"), "other");
}

#[test]
fn labels_parse_and_vote() {
    assert_eq!(FaithfulnessLabel::parse("partial"), Some(FaithfulnessLabel::Partial));
    assert_eq!(FaithfulnessLabel::parse("Partial"), None);
    assert_eq!(FaithfulnessLabel::Faithful.as_str(), "faithful");
    assert_eq!(FaithfulnessLabel::Unfaithful.ord(), 0);
    assert_eq!(FaithfulnessLabel::Partial.ord(), 1);
    assert_eq!(FaithfulnessLabel::Ambiguous.ord(), 2);
    assert_eq!(FaithfulnessLabel::Faithful.ord(), 3);
    assert_eq!(
        mode_faith(&[FaithfulnessLabel::Partial, FaithfulnessLabel::Ambiguous]),
        FaithfulnessLabel::Ambiguous
    );
    assert_eq!(ConsistencyLabel::parse("not_applicable"), Some(ConsistencyLabel::NotApplicable));
    assert_eq!(ConsistencyLabel::Inconsistent.as_str(), "inconsistent");
    assert_eq!(mode_faith(&[]), FaithfulnessLabel::Ambiguous);
    assert_eq!(
        mode_faith(&[FaithfulnessLabel::Partial, FaithfulnessLabel::Faithful]),
        FaithfulnessLabel::Faithful
    );
    assert_eq!(
        mode_faith(&[FaithfulnessLabel::Partial, FaithfulnessLabel::Faithful, FaithfulnessLabel::Partial]),
        FaithfulnessLabel::Partial
    );
    assert_eq!(mode_cons(&[]), ConsistencyLabel::NotApplicable);
    assert_eq!(
        mode_cons(&[ConsistencyLabel::Consistent, ConsistencyLabel::Inconsistent]),
        ConsistencyLabel::Inconsistent
    );
}
