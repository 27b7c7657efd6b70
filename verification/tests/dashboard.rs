use cta_bench::dashboard::{
    dashboard_csv_lines, dashboard_row, dashboard_totals, strict_gate, wave1_next_batch, gap_reason, is_wave1_instance, next_batch, packet_violations, rank_focus,
    unready_items, work_item, work_reason, worklist_csv_lines, FocusItem, PacketFacts,
};

fn facts(system: &str, instance: &str) -> PacketFacts {
    PacketFacts {
        instance_id: instance.to_string(),
        system_id: system.to_string(),
        family: "graph".to_string(),
        elaborated: true,
        admit_count: 0,
        proof_mode: "definition_backed".to_string(),
        diagnostics_path: format!("packets/{}/{}/lean_diagnostics.json", system, instance),
        diagnostics_exists: true,
        diagnostics_unavailable: false,
        unused_variable_warning: false,
        facing_statements: Vec::new(),
    }
}

fn item(instance: &str, system: &str, family: &str, admits: u64, mode: &str, ready: bool) -> FocusItem {
    FocusItem {
        instance_id: instance.to_string(),
        system_id: system.to_string(),
        family: family.to_string(),
        admit_count: admits,
        proof_mode: mode.to_string(),
        m2_ready: ready,
    }
}

#[test]
fn gap_reasons_follow_mode_and_admits() {
    assert_eq!(gap_reason("definition_backed", 0), "m2_ready");
    assert_eq!(gap_reason("definition_backed", 3), "admit_debt");
    assert_eq!(gap_reason("axiom_backed", 0), "axiom_backed_interface");
    assert_eq!(work_reason("definition_backed", 0), "definition_backed_proof_gap");
    assert_eq!(work_reason("unknown", 2), "axiom_backed_interface");
}

#[test]
fn clean_packet_has_no_violations() {
    let p = facts("full_method_v1", "graph_dijkstra_001");
    assert!(packet_violations(&p, true).is_empty());
    let r = dashboard_row(&p, true);
    assert!(r.m2_ready);
    assert_eq!(r.gap_reason, "m2_ready");
}

#[test]
fn elaborated_packet_violations_in_order() {
    let mut p = facts("code_only_v1", "sorting_merge_sort_001");
    p.admit_count = 2;
    p.diagnostics_exists = false;
    p.proof_mode = "unknown".to_string();
    let v = packet_violations(&p, true);
    assert_eq!(
        v,
        vec![
            "elaborated packet has admit_count != 0".to_string(),
            "elaborated packet is missing diagnostics file".to_string(),
            "elaborated packet has invalid proof_mode".to_string(),
        ]
    );
}

#[test]
fn strict_m1_target_violations() {
    let mut p = facts("full_method_v1", "graph_bfs_shortest_path_002");
    p.elaborated = false;
    p.diagnostics_unavailable = true;
    p.unused_variable_warning = true;
    p.facing_statements = vec![
        "theorem t (h : Sorted xs) : Sorted xs := by exact h".to_string(),
        "theorem u (x : Nat) : f x = f x := by rfl".to_string(),
    ];
    let v = packet_violations(&p, true);
    assert_eq!(
        v,
        vec![
            "M1 target packet must have elaborated = true".to_string(),
            "M1 target packet diagnostics must contain real Lean output".to_string(),
            "hotspot packet diagnostics must not contain unused-variable warnings".to_string(),
            "benchmark-facing theorem uses wrapper self-copy assumption".to_string(),
            "benchmark-facing theorem has tautological equality conclusion".to_string(),
        ]
    );
    assert!(packet_violations(&p, false).is_empty());
}

#[test]
fn missing_diagnostics_for_m1_target() {
    let mut p = facts("full_method_v1", "dp_knapsack_01_002");
    p.diagnostics_exists = false;
    let v = packet_violations(&p, true);
    assert_eq!(
        v,
        vec![
            "elaborated packet is missing diagnostics file".to_string(),
            "M1 target packet must have diagnostics file".to_string(),
        ]
    );
}

#[test]
fn wave1_instances() {
    assert!(is_wave1_instance("greedy_interval_scheduling_002"));
    assert!(is_wave1_instance("trees_bst_insert_001"));
    assert!(!is_wave1_instance("graph_dijkstra_001"));
}

#[test]
fn dashboard_csv() {
    let mut p = facts("full_method_v1", "graph_dijkstra_001");
    p.admit_count = 4;
    let rows = vec![dashboard_row(&p, true)];
    let lines = dashboard_csv_lines(&rows);
    assert_eq!(
        lines[0],
        "instance_id,system_id,family,elaborated,admit_count,proof_mode,diagnostics_exists,diagnostics_path,m1_violation_count"
    );
    assert_eq!(
        lines[1],
        "graph_dijkstra_001,full_method_v1,graph,true,4,definition_backed,true,packets/full_method_v1/graph_dijkstra_001/lean_diagnostics.json,2"
    );
}

#[test]
fn focus_ranking_order() {
    let items = vec![
        item("a", "s1", "f", 0, "definition_backed", true),
        item("b", "s1", "f", 1, "axiom_backed", false),
        item("c", "s2", "f", 2, "definition_backed", false),
        item("d", "s1", "f", 5, "definition_backed", false),
        item("e", "s1", "f", 2, "definition_backed", false),
    ];
    let ranked: Vec<String> = rank_focus(&items).into_iter().map(|f| f.instance_id).collect();
    assert_eq!(ranked, vec!["d", "e", "c", "b", "a"]);
    let unready: Vec<String> = unready_items(&items, 2).into_iter().map(|f| f.instance_id).collect();
    assert_eq!(unready, vec!["b", "c"]);
    assert_eq!(unready_items(&items, 10).len(), 4);
}

#[test]
fn next_batch_caps_per_family_and_system() {
    let mut items = Vec::new();
    for k in 0..6 {
        items.push(item(&format!("i{}", k), &format!("s{}", k), "fam", 1, "axiom_backed", false));
    }
    for k in 0..8 {
        items.push(item(&format!("j{}", k), "same", &format!("g{}", k), 1, "axiom_backed", false));
    }
    let batch = next_batch(&items);
    assert_eq!(batch.len(), 10);
    assert_eq!(batch.iter().filter(|f| f.family == "fam").count(), 4);
    assert_eq!(batch.iter().filter(|f| f.system_id == "same").count(), 6);
    let mut many = Vec::new();
    for k in 0..30 {
        many.push(item(&format!("k{}", k), &format!("s{}", k), &format!("g{}", k), 0, "axiom_backed", false));
    }
    assert_eq!(next_batch(&many).len(), 20);
}

#[test]
fn worklist_rows_and_csv() {
    let f = item("graph_dijkstra_001", "full_method_v1", "graph", 0, "definition_backed", false);
    let w = work_item("/ws", "/ws/packets", &f);
    assert_eq!(w.gap_reason, "definition_backed_proof_gap");
    assert_eq!(w.packet_path, "packets/full_method_v1/graph_dijkstra_001/packet.json");
    assert_eq!(w.scaffold_path, "packets/full_method_v1/graph_dijkstra_001/scaffold.lean");
    let lines = worklist_csv_lines(&vec![w]);
    assert_eq!(lines[0], "instance_id,system_id,family,admit_count,proof_mode,gap_reason,packet_path,scaffold_path");
    assert_eq!(
        lines[1],
        "graph_dijkstra_001,full_method_v1,graph,0,definition_backed,definition_backed_proof_gap,packets/full_method_v1/graph_dijkstra_001/packet.json,packets/full_method_v1/graph_dijkstra_001/scaffold.lean"
    );
}

#[test]
fn totals_gate_and_wave_batch() {
    let ready = facts("full_method_v1", "graph_dijkstra_001");
    let mut debt = facts("code_only_v1", "sorting_merge_sort_001");
    debt.admit_count = 1;
    debt.elaborated = false;
    let rows = vec![dashboard_row(&ready, false), dashboard_row(&debt, false)];
    assert_eq!(dashboard_totals(&rows), (2, 1, 1));
    assert_eq!(strict_gate(false, 3, "d.json"), None);
    assert_eq!(strict_gate(true, 0, "d.json"), None);
    assert_eq!(
        strict_gate(true, 3, "d.json"),
        Some("strict M1 gate failed: 3 elaborated packet(s) violate M1 contract (see d.json)".to_string())
    );
    let mut items = Vec::new();
    for k in 0..15 {
        items.push(item(&format!("i{}", k), "s", "f", 1, "axiom_backed", k == 0));
    }
    let batch = wave1_next_batch(&items);
    assert_eq!(batch.len(), 12);
    assert_eq!(batch[0].instance_id, "i1");
}
