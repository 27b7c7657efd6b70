use cta_bench::run_plan::materialise_plan;

fn strings(v: &[&str]) -> Vec<String> {
    v.iter().map(|s| s.to_string()).collect()
}

#[test]
fn runs_are_numbered_per_system_in_plan_order() {
    let runs = materialise_plan(
        "2026_04_21",
        "dev",
        &strings(&["text_only_v1", "full_method_v1", "text_only_v1"]),
        &strings(&["configs/providers/a.json", "configs/providers/b.json"]),
        &vec![7, 8],
        None,
    );
    assert_eq!(runs.len(), 12);
    let ids: Vec<&str> = runs.iter().map(|r| r.run_id.as_str()).collect();
    assert_eq!(ids[0], "run_2026_04_21_text_only_v1_dev_001");
    assert_eq!(ids[3], "run_2026_04_21_text_only_v1_dev_004");
    assert_eq!(ids[4], "run_2026_04_21_full_method_v1_dev_001");
    assert_eq!(ids[8], "run_2026_04_21_text_only_v1_dev_005");
    assert_eq!(ids[11], "run_2026_04_21_text_only_v1_dev_008");
    assert_eq!(runs[1].provider_config, "configs/providers/a.json");
    assert_eq!(runs[1].seed, 8);
    assert_eq!(runs[2].provider_config, "configs/providers/b.json");
    assert_eq!(runs[2].seed, 7);
    assert_eq!(runs[5].system_id, "full_method_v1");
    assert!(runs.iter().all(|r| r.max_tokens == 2048));
}

#[test]
fn run_numbers_pad_to_three_digits_and_grow_past_them() {
    let seeds: Vec<u64> = (0..120).collect();
    let runs = materialise_plan("2026_01_02", "eval", &strings(&["s"]), &strings(&["p"]), &seeds, Some(512));
    assert_eq!(runs[8].run_id, "run_2026_01_02_s_eval_009");
    assert_eq!(runs[9].run_id, "run_2026_01_02_s_eval_010");
    assert_eq!(runs[99].run_id, "run_2026_01_02_s_eval_100");
    assert_eq!(runs[119].run_id, "run_2026_01_02_s_eval_120");
    assert_eq!(runs[0].max_tokens, 512);
    assert!(materialise_plan("d", "x", &vec![], &strings(&["p"]), &seeds, None).is_empty());
}
