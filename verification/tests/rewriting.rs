use cta_bench::axiomize::{axiomize_embedded_theorem_blocks, axiomize_theorem_with_placeholder};
use cta_bench::lean::canonical_file_path;
use cta_bench::paths::{generated_output_candidates, instance_id_from_packet_path, normalize_workspace_path};
use cta_bench::prompts::{build_context, default_schema_version, render, PromptError, PromptKind, PromptTemplate};
use cta_bench::review_text::{
    is_wrapper_self_copy_theorem, normalize_prop_text, parse_assumption_prop, strip_redundant_nat_nonneg,
};
use cta_bench::scan::scrape_candidates;

#[test]
fn placeholder_theorems_become_axioms() {
    assert_eq!(
        axiomize_theorem_with_placeholder("theorem foo (x : Nat) : x = x := by\n  sorry"),
        "axiom foo (x : Nat) : x = x"
    );
    assert_eq!(axiomize_theorem_with_placeholder("lemma bar : True := by admit"), "axiom bar : True");
    assert_eq!(axiomize_theorem_with_placeholder("def f : Nat := sorry"), "axiom f : Nat");
    assert_eq!(
        axiomize_theorem_with_placeholder("theorem t : True := by trivial"),
        "theorem t : True := by trivial"
    );
    assert_eq!(
        axiomize_theorem_with_placeholder(
            "namespace X\ntheorem a : P := by\n  sorry\n\ntheorem b : Q := by simp\nend X"
        ),
        "namespace X\naxiom a : P\n\naxiom b : Q"
    );
}

#[test]
fn embedded_blocks_keep_indentation_and_stop_lines() {
    assert_eq!(
        axiomize_embedded_theorem_blocks("  lemma c (n : Nat) : n = n := by\n    rfl\ndef d := 1"),
        "  axiom c (n : Nat) : n = n\ndef d := 1"
    );
    assert_eq!(axiomize_embedded_theorem_blocks("theorem a : P := by\r\n  sorry\r\n"), "axiom a : P");
    assert_eq!(axiomize_embedded_theorem_blocks("def x := 1\n"), "def x := 1");
    assert_eq!(axiomize_embedded_theorem_blocks(""), "");
    assert_eq!(axiomize_embedded_theorem_blocks("theorem t : P := rfl"), "theorem t : P := rfl");
}

#[test]
fn redundant_nonneg_conjuncts_are_dropped() {
    assert_eq!(strip_redundant_nat_nonneg("∀ w, w ∈ s ∧ w ≥ 0 → P"), "∀ w, w ∈ s → P");
    assert_eq!(strip_redundant_nat_nonneg("a ∧ w >= 0 ∧ b"), "a ∧ b");
    assert_eq!(strip_redundant_nat_nonneg("plain"), "plain");
}

#[test]
fn assumptions_and_self_copies() {
    assert_eq!(
        parse_assumption_prop("theorem t (h : BST (insert t k)) (g : P) : Q", "h"),
        Some("BST (insert t k)".to_string())
    );
    assert_eq!(parse_assumption_prop("theorem t (h : BST t) (g : P) : Q", "g"), Some("P".to_string()));
    assert_eq!(parse_assumption_prop("theorem t : Q", "h"), None);
    assert_eq!(parse_assumption_prop("theorem t (h : P", "h"), None);
    assert!(is_wrapper_self_copy_theorem("theorem t (h : Sorted  xs) : Sorted xs := by exact h"));
    assert!(is_wrapper_self_copy_theorem("theorem t (hb : BST t) : BST t := by simpa using hb"));
    assert!(!is_wrapper_self_copy_theorem("theorem t (h : Sorted xs) : Perm xs ys := by exact h"));
    assert!(!is_wrapper_self_copy_theorem("theorem t (h : P) : P := by simp"));
    assert_eq!(normalize_prop_text("  a   b\tc "), "a b c");
}

#[test]
fn scraped_regions_longest_first() {
    assert_eq!(
        scrape_candidates(br#"see [x] then {"a": [1, 2]} end"#),
        vec![(13, 25), (19, 24), (4, 6)]
    );
    assert_eq!(scrape_candidates(br#"{"k": "[not]"} ["#), vec![(0, 13), (7, 11)]);
    assert_eq!(scrape_candidates(b"no brackets"), vec![]);
    assert_eq!(scrape_candidates(b"[1][2]{}"), vec![(0, 2), (3, 5), (6, 7)]);
}

#[test]
fn contexts_by_prompt_kind() {
    let ctx = build_context(PromptKind::TextOnly, "stmt", "code", "scaffold", "units", "summary");
    assert_eq!(render("{{informal_statement}}|{{reference_rs}}", &ctx), "stmt|{{reference_rs}}");
    let ctx = build_context(PromptKind::CodeOnly, "stmt", "code", "scaffold", "units", "summary");
    assert_eq!(render("{{informal_statement}}|{{reference_rs}}", &ctx), "{{informal_statement}}|code");
    let ctx = build_context(PromptKind::NaiveConcat, "stmt", "code", "scaffold", "units", "summary");
    assert_eq!(ctx.len(), 2);
    let ctx = build_context(PromptKind::FullMethod, "stmt", "code", "scaffold", "units", "summary");
    assert_eq!(ctx.len(), 4);
    assert_eq!(
        render("{{problem_summary}};{{semantic_units}};{{rust_summary}};{{lean_scaffold}};{{reference_rs}}", &ctx),
        "stmt;units;summary;scaffold;{{reference_rs}}"
    );
}

#[test]
fn templates_match_their_file_stem() {
    assert_eq!(default_schema_version(), "schema_v1");
    let t = PromptTemplate::new("full_method_v1", PromptKind::FullMethod, "v1", "body");
    assert_eq!(t.schema_version, "schema_v1");
    let ok = t.clone().accept_for_stem("configs/prompts/full_method_v1.json", Some("full_method_v1"));
    assert!(ok.is_ok());
    let ok = t.clone().accept_for_stem("x", None);
    assert!(ok.is_ok());
    match t.accept_for_stem("configs/prompts/text_only_v1.json", Some("text_only_v1")) {
        Err(PromptError::SystemIdMismatch { path, declared, expected }) => {
            assert_eq!(path, "configs/prompts/text_only_v1.json");
            assert_eq!(declared, "full_method_v1");
            assert_eq!(expected, "text_only_v1");
        }
        _ => panic!("expected a mismatch"),
    }
}

#[test]
fn workspace_paths() {
    assert_eq!(canonical_file_path("/proj", "A/B.lean"), "/proj/A/B.lean");
    assert_eq!(canonical_file_path("/proj", "/abs/x.lean"), "/abs/x.lean");
    assert_eq!(canonical_file_path("/proj/", "x.lean"), "/proj/x.lean");
    assert_eq!(
        instance_id_from_packet_path("review_packets/full_method_v1/graph_dijkstra_001/packet.json"),
        Some("graph_dijkstra_001".to_string())
    );
    assert_eq!(instance_id_from_packet_path("packet.json"), None);
    assert_eq!(normalize_workspace_path("/ws", "/ws/runs/a.json"), "runs/a.json");
    assert_eq!(normalize_workspace_path("/ws", "/other/x"), "/other/x");
    assert_eq!(normalize_workspace_path("/ws", "C:\\x\\y"), "C:/x/y");
    let runs = vec![
        "run_2026_01_eval_full_method_v1".to_string(),
        "run_2026_02_eval_full_method_v1".to_string(),
        "run_2026_02_full_method_v1".to_string(),
        "run_2026_03_eval_text_only_v1".to_string(),
    ];
    assert_eq!(
        generated_output_candidates("/ws", &runs, "full_method_v1", "graph_bfs_001"),
        vec![
            "/ws/runs/run_2026_02_eval_full_method_v1/generated/full_method_v1/graph_bfs_001.json".to_string(),
            "/ws/runs/run_2026_01_eval_full_method_v1/generated/full_method_v1/graph_bfs_001.json".to_string(),
        ]
    );
}

#[test]
fn render_keeps_non_ascii_text() {
    let ctx = build_context(PromptKind::TextOnly, "énoncé", "", "", "", "");
    assert_eq!(render("café → {{informal_statement}} ∀", &ctx), "café → énoncé ∀");
    let empty = cta_bench::prompts::PromptContext::new();
    assert_eq!(render("é {{x}} ü", &empty), "é {{x}} ü");
}
