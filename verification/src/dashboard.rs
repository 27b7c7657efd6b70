//! The proof-completion dashboard over review packets: each packet's gap
//! reason and strict-M1 violations, the ranking of packets still to prove,
//! the capped next batches and the worklists drawn from them.

use vstd::prelude::*;
use crate::lean::contains_sub;
use crate::review_text::{contains, has_tautological_theorem_equality, hotspot_target, is_hotspot_target_packet, is_m1_target_packet, is_wrapper_self_copy_theorem, m1_target, self_copy, tautological_equality};
use crate::text::{chars_of, push_all, str_eq, string_from_chars};
use crate::lean::{decimal, decimal_string};
use crate::lint::{path_push, push_path};
use crate::paths::{normalize_workspace_path, strip_prefix_of};
use crate::review_text::slashed;
use crate::prompts::{lex_lt, chars_lt};

verus! {

/// What the dashboard reads of one packet once its Lean check is built.
#[derive(Debug, Clone)]
pub struct PacketFacts {
    /// Instance id of the packet (empty when absent).
    pub instance_id: String,
    /// System id of the packet (empty when absent).
    pub system_id: String,
    /// Domain of the packet (empty when absent).
    pub family: String,
    /// The Lean check's `elaborated`.
    pub elaborated: bool,
    /// The Lean check's `admit_count`.
    pub admit_count: u64,
    /// The Lean check's `proof_mode`.
    pub proof_mode: String,
    /// The Lean check's workspace-relative diagnostics path.
    pub diagnostics_path: String,
    /// The diagnostics file exists.
    pub diagnostics_exists: bool,
    /// The diagnostics file says only that Lean was not available.
    pub diagnostics_unavailable: bool,
    /// The diagnostics file warns of an unused variable.
    pub unused_variable_warning: bool,
    /// Lean statements of the benchmark-facing obligations, in order.
    pub facing_statements: Vec<String>,
}

/// Definition-backed with no placeholder proof left.
pub open spec fn is_m2_ready(proof_mode: Seq<char>, admit_count: u64) -> bool {
    proof_mode == "definition_backed"@ && admit_count == 0
}

/// Why a packet still needs proof work (or `m2_ready` when it does not).
pub open spec fn gap_reason_of(proof_mode: Seq<char>, admit_count: u64) -> Seq<char> {
    if is_m2_ready(proof_mode, admit_count) {
        "m2_ready"@
    } else {
        work_reason_of(proof_mode, admit_count)
    }
}

/// Why a packet needs proof work: an axiom-backed interface, placeholder
/// proofs, or a definition-backed proof gap.
pub open spec fn work_reason_of(proof_mode: Seq<char>, admit_count: u64) -> Seq<char> {
    if proof_mode != "definition_backed"@ {
        "axiom_backed_interface"@
    } else if admit_count > 0 {
        "admit_debt"@
    } else {
        "definition_backed_proof_gap"@
    }
}

/// `gap_reason_of`.
pub fn gap_reason(proof_mode: &str, admit_count: u64) -> (r: &'static str)
    ensures
        r@ == gap_reason_of(proof_mode@, admit_count),
{
    if str_eq(proof_mode, "definition_backed") && admit_count == 0 {
        "m2_ready"
    } else {
        work_reason(proof_mode, admit_count)
    }
}

/// `work_reason_of`.
pub fn work_reason(proof_mode: &str, admit_count: u64) -> (r: &'static str)
    ensures
        r@ == work_reason_of(proof_mode@, admit_count),
{
    if !str_eq(proof_mode, "definition_backed") {
        "axiom_backed_interface"
    } else if admit_count > 0 {
        "admit_debt"
    } else {
        "definition_backed_proof_gap"
    }
}

/// One of the two proof modes a Lean check can give.
pub open spec fn valid_mode(proof_mode: Seq<char>) -> bool {
    proof_mode == "axiom_backed"@ || proof_mode == "definition_backed"@
}

/// A one-message list when `cond` holds.
pub open spec fn when(cond: bool, msg: Seq<char>) -> Seq<Seq<char>> {
    if cond { seq![msg] } else { Seq::empty() }
}

/// The statement violations of `stmts[..k]`: wrapper self-copies and
/// tautological equalities, statement by statement.
pub open spec fn statement_violations(stmts: Seq<Seq<char>>, k: int) -> Seq<Seq<char>>
    decreases k,
{
    if k <= 0 || k > stmts.len() {
        Seq::empty()
    } else {
        statement_violations(stmts, k - 1)
            + when(self_copy(stmts[k - 1]), "benchmark-facing theorem uses wrapper self-copy assumption"@)
            + when(tautological_equality(stmts[k - 1]), "benchmark-facing theorem has tautological equality conclusion"@)
    }
}

/// The violations of a packet: those of any elaborated packet, then, under
/// the strict M1 policy, those of an M1 target packet.
pub open spec fn violations_of(p: PacketFacts, strict_m1: bool) -> Seq<Seq<char>> {
    let pm = p.proof_mode@;
    let elaborated_part = if p.elaborated {
        when(p.admit_count != 0, "elaborated packet has admit_count != 0"@)
        + when(!p.diagnostics_exists, "elaborated packet is missing diagnostics file"@)
        + when(p.diagnostics_exists && p.diagnostics_unavailable,
            "elaborated packet diagnostics is only {\"available\":false}"@)
        + when(!valid_mode(pm), "elaborated packet has invalid proof_mode"@)
    } else {
        Seq::empty()
    };
    let m1_part = if strict_m1 && m1_target(p.system_id@, p.instance_id@) {
        when(!p.elaborated, "M1 target packet must have elaborated = true"@)
        + when(p.admit_count != 0, "M1 target packet must have admit_count = 0"@)
        + (if !p.diagnostics_exists {
            seq!["M1 target packet must have diagnostics file"@]
        } else {
            when(p.diagnostics_unavailable, "M1 target packet diagnostics must contain real Lean output"@)
        })
        + when(!valid_mode(pm), "M1 target packet has invalid proof_mode"@)
        + when(hotspot_target(p.system_id@, p.instance_id@) && p.diagnostics_exists && p.unused_variable_warning,
            "hotspot packet diagnostics must not contain unused-variable warnings"@)
        + statement_violations(p.facing_statements@.map_values(|s: String| s@), p.facing_statements@.len() as int)
    } else {
        Seq::empty()
    };
    elaborated_part + m1_part
}

/// The messages as plain text.
pub open spec fn texts(v: Seq<String>) -> Seq<Seq<char>> {
    v.map_values(|s: String| s@)
}

/// A copy of `s`.
fn owned(s: &str) -> (out: String)
    ensures
        out@ == s@,
{
    string_from_chars(&chars_of(s))
}

/// Appends `msg` when `cond` holds.
fn note(out: &mut Vec<String>, cond: bool, msg: &str)
    ensures
        texts(final(out)@) == texts(old(out)@) + when(cond, msg@),
{
    let ghost before = texts(out@);
    if cond {
        out.push(owned(msg));
        assert(texts(out@) =~= before + when(cond, msg@));
    } else {
        assert(texts(out@) =~= before + when(cond, msg@));
    }
}

/// `valid_mode`.
fn is_valid_mode(proof_mode: &str) -> (b: bool)
    ensures
        b == valid_mode(proof_mode@),
{
    str_eq(proof_mode, "axiom_backed") || str_eq(proof_mode, "definition_backed")
}

/// The violations of a packet (see `violations_of`).
pub fn packet_violations(p: &PacketFacts, strict_m1: bool) -> (v: Vec<String>)
    ensures
        texts(v@) == violations_of(*p, strict_m1),
{
    let mut v: Vec<String> = Vec::new();
    let pm = p.proof_mode.as_str();
    let valid = is_valid_mode(pm);
    if p.elaborated {
        note(&mut v, p.admit_count != 0, "elaborated packet has admit_count != 0");
        note(&mut v, !p.diagnostics_exists, "elaborated packet is missing diagnostics file");
        note(&mut v, p.diagnostics_exists && p.diagnostics_unavailable,
            "elaborated packet diagnostics is only {\"available\":false}");
        note(&mut v, !valid, "elaborated packet has invalid proof_mode");
    }
    let ghost first = texts(v@);
    assert(first =~= Seq::<Seq<char>>::empty() + (if p.elaborated {
        when(p.admit_count != 0, "elaborated packet has admit_count != 0"@)
        + when(!p.diagnostics_exists, "elaborated packet is missing diagnostics file"@)
        + when(p.diagnostics_exists && p.diagnostics_unavailable,
            "elaborated packet diagnostics is only {\"available\":false}"@)
        + when(!valid_mode(p.proof_mode@), "elaborated packet has invalid proof_mode"@)
    } else {
        Seq::empty()
    }));
    if strict_m1 && is_m1_target_packet(p.system_id.as_str(), p.instance_id.as_str()) {
        note(&mut v, !p.elaborated, "M1 target packet must have elaborated = true");
        note(&mut v, p.admit_count != 0, "M1 target packet must have admit_count = 0");
        if !p.diagnostics_exists {
            note(&mut v, true, "M1 target packet must have diagnostics file");
        } else {
            note(&mut v, p.diagnostics_unavailable, "M1 target packet diagnostics must contain real Lean output");
        }
        note(&mut v, !valid, "M1 target packet has invalid proof_mode");
        let hot = is_hotspot_target_packet(p.system_id.as_str(), p.instance_id.as_str());
        note(&mut v, hot && p.diagnostics_exists && p.unused_variable_warning,
            "hotspot packet diagnostics must not contain unused-variable warnings");
        let ghost before_stmts = texts(v@);
        let ghost sv = p.facing_statements@.map_values(|s: String| s@);
        let mut k: usize = 0;
        while k < p.facing_statements.len()
            invariant
                k <= p.facing_statements@.len(),
                sv == p.facing_statements@.map_values(|s: String| s@),
                texts(v@) == before_stmts + statement_violations(sv, k as int),
            decreases p.facing_statements@.len() - k,
        {
            let stmt = p.facing_statements[k].as_str();
            let ghost mid = texts(v@);
            note(&mut v, is_wrapper_self_copy_theorem(stmt), "benchmark-facing theorem uses wrapper self-copy assumption");
            note(&mut v, has_tautological_theorem_equality(stmt), "benchmark-facing theorem has tautological equality conclusion");
            proof {
                assert(sv[k as int] == stmt@);
                assert(texts(v@) =~= before_stmts + statement_violations(sv, k + 1));
            }
            k = k + 1;
        }
    }
    assert(texts(v@) =~= violations_of(*p, strict_m1));
    v
}

/// The instance belongs to a wave-1 family.
pub open spec fn wave1_instance(instance_id: Seq<char>) -> bool {
    ||| contains_sub(instance_id, "greedy_interval_scheduling"@)
    ||| contains_sub(instance_id, "sorting_insertion_sort"@)
    ||| contains_sub(instance_id, "sorting_merge_sort"@)
    ||| contains_sub(instance_id, "trees_bst_insert"@)
}

/// `wave1_instance`.
pub fn is_wave1_instance(instance_id: &str) -> (b: bool)
    ensures
        b == wave1_instance(instance_id@),
{
    let cs = chars_of(instance_id);
    contains(cs.as_slice(), "greedy_interval_scheduling") || contains(cs.as_slice(), "sorting_insertion_sort")
        || contains(cs.as_slice(), "sorting_merge_sort") || contains(cs.as_slice(), "trees_bst_insert")
}


/// One row of the dashboard.
#[derive(Debug, Clone)]
pub struct DashboardRow {
    /// Instance id.
    pub instance_id: String,
    /// System id.
    pub system_id: String,
    /// Domain.
    pub family: String,
    /// The packet elaborated.
    pub elaborated: bool,
    /// Placeholder proofs left.
    pub admit_count: u64,
    /// Proof mode of the Lean check.
    pub proof_mode: String,
    /// Workspace-relative diagnostics path.
    pub diagnostics_path: String,
    /// The diagnostics file exists.
    pub diagnostics_exists: bool,
    /// Definition-backed with no placeholder left.
    pub m2_ready: bool,
    /// `gap_reason_of` the packet.
    pub gap_reason: String,
    /// The packet's violations.
    pub m1_violations: Vec<String>,
}

/// The dashboard row of a packet.
pub fn dashboard_row(p: &PacketFacts, strict_m1: bool) -> (r: DashboardRow)
    ensures
        r.instance_id@ == p.instance_id@,
        r.system_id@ == p.system_id@,
        r.family@ == p.family@,
        r.elaborated == p.elaborated,
        r.admit_count == p.admit_count,
        r.proof_mode@ == p.proof_mode@,
        r.diagnostics_path@ == p.diagnostics_path@,
        r.diagnostics_exists == p.diagnostics_exists,
        r.m2_ready == is_m2_ready(p.proof_mode@, p.admit_count),
        r.gap_reason@ == gap_reason_of(p.proof_mode@, p.admit_count),
        texts(r.m1_violations@) == violations_of(*p, strict_m1),
{
    let m2 = str_eq(p.proof_mode.as_str(), "definition_backed") && p.admit_count == 0;
    DashboardRow {
        instance_id: owned(p.instance_id.as_str()),
        system_id: owned(p.system_id.as_str()),
        family: owned(p.family.as_str()),
        elaborated: p.elaborated,
        admit_count: p.admit_count,
        proof_mode: owned(p.proof_mode.as_str()),
        diagnostics_path: owned(p.diagnostics_path.as_str()),
        diagnostics_exists: p.diagnostics_exists,
        m2_ready: m2,
        gap_reason: owned(gap_reason(p.proof_mode.as_str(), p.admit_count)),
        m1_violations: packet_violations(p, strict_m1),
    }
}

/// `true` or `false`.
pub open spec fn bool_text(b: bool) -> Seq<char> {
    if b { "true"@ } else { "false"@ }
}

/// The CSV line of a dashboard row.
pub open spec fn row_line(r: DashboardRow) -> Seq<char> {
    r.instance_id@ + ","@ + r.system_id@ + ","@ + r.family@ + ","@ + bool_text(r.elaborated) + ","@
        + decimal(r.admit_count as nat) + ","@ + r.proof_mode@ + ","@ + bool_text(r.diagnostics_exists) + ","@
        + r.diagnostics_path@ + ","@ + decimal(r.m1_violations@.len())
}

/// The header of the dashboard CSV.
pub open spec fn dashboard_header() -> Seq<char> {
    "instance_id,system_id,family,elaborated,admit_count,proof_mode,diagnostics_exists,diagnostics_path,m1_violation_count"@
}

/// `n` in decimal.
fn number(n: u64) -> (out: String)
    ensures
        out@ == decimal(n as nat),
{
    string_from_chars(&decimal_string(n))
}

/// The dashboard CSV: the header, then one line per row.
pub fn dashboard_csv_lines(rows: &Vec<DashboardRow>) -> (lines: Vec<String>)
    ensures
        lines@.len() == rows@.len() + 1,
        lines@[0]@ == dashboard_header(),
        forall|k: int| 0 <= k < rows@.len() ==> (#[trigger] lines@[k + 1])@ == row_line(rows@[k]),
{
    let mut lines: Vec<String> = Vec::new();
    lines.push(owned("instance_id,system_id,family,elaborated,admit_count,proof_mode,diagnostics_exists,diagnostics_path,m1_violation_count"));
    let mut k: usize = 0;
    while k < rows.len()
        invariant
            k <= rows@.len(),
            lines@.len() == k + 1,
            lines@[0]@ == dashboard_header(),
            forall|j: int| 0 <= j < k ==> (#[trigger] lines@[j + 1])@ == row_line(rows@[j]),
        decreases rows@.len() - k,
    {
        let r = &rows[k];
        let mut line = owned(r.instance_id.as_str());
        push_all(&mut line, ",");
        push_all(&mut line, r.system_id.as_str());
        push_all(&mut line, ",");
        push_all(&mut line, r.family.as_str());
        push_all(&mut line, ",");
        push_all(&mut line, if r.elaborated { "true" } else { "false" });
        push_all(&mut line, ",");
        push_all(&mut line, number(r.admit_count).as_str());
        push_all(&mut line, ",");
        push_all(&mut line, r.proof_mode.as_str());
        push_all(&mut line, ",");
        push_all(&mut line, if r.diagnostics_exists { "true" } else { "false" });
        push_all(&mut line, ",");
        push_all(&mut line, r.diagnostics_path.as_str());
        push_all(&mut line, ",");
        push_all(&mut line, number(r.m1_violations.len() as u64).as_str());
        proof {
            assert(line@ =~= row_line(*r));
        }
        lines.push(line);
        k = k + 1;
    }
    lines
}

/// A packet as the focus lists show it.
#[derive(Debug, Clone)]
pub struct FocusItem {
    /// Instance id.
    pub instance_id: String,
    /// System id.
    pub system_id: String,
    /// Domain.
    pub family: String,
    /// Placeholder proofs left.
    pub admit_count: u64,
    /// Proof mode.
    pub proof_mode: String,
    /// Definition-backed with no placeholder left.
    pub m2_ready: bool,
}

/// A focus item as plain values: instance, system, family, admits, proof
/// mode, readiness.
pub open spec fn focus_view(f: FocusItem) -> (Seq<char>, Seq<char>, Seq<char>, u64, Seq<char>, bool) {
    (f.instance_id@, f.system_id@, f.family@, f.admit_count, f.proof_mode@, f.m2_ready)
}

/// Focus items as plain values.
pub open spec fn focus_views(v: Seq<FocusItem>) -> Seq<(Seq<char>, Seq<char>, Seq<char>, u64, Seq<char>, bool)> {
    v.map_values(|f: FocusItem| focus_view(f))
}

/// `a` ranks strictly before `b`: packets not yet ready first, then
/// definition-backed ones, then more placeholder proofs, then by system id
/// and instance id.
pub open spec fn focus_before(
    a: (Seq<char>, Seq<char>, Seq<char>, u64, Seq<char>, bool),
    b: (Seq<char>, Seq<char>, Seq<char>, u64, Seq<char>, bool),
) -> bool {
    let ad = a.4 == "definition_backed"@;
    let bd = b.4 == "definition_backed"@;
    if a.5 != b.5 {
        !a.5
    } else if ad != bd {
        ad
    } else if a.3 != b.3 {
        a.3 > b.3
    } else if a.1 != b.1 {
        lex_lt(a.1, b.1)
    } else {
        lex_lt(a.0, b.0)
    }
}

/// `s` with `x` inserted after every entry it does not rank before.
pub open spec fn insert_focus(
    s: Seq<(Seq<char>, Seq<char>, Seq<char>, u64, Seq<char>, bool)>,
    x: (Seq<char>, Seq<char>, Seq<char>, u64, Seq<char>, bool),
) -> Seq<(Seq<char>, Seq<char>, Seq<char>, u64, Seq<char>, bool)>
    decreases s.len(),
{
    if s.len() == 0 {
        seq![x]
    } else if !focus_before(x, s.last()) {
        s.push(x)
    } else {
        insert_focus(s.drop_last(), x).push(s.last())
    }
}

/// `s` stably sorted in focus order.
pub open spec fn rank_by_focus(s: Seq<(Seq<char>, Seq<char>, Seq<char>, u64, Seq<char>, bool)>)
    -> Seq<(Seq<char>, Seq<char>, Seq<char>, u64, Seq<char>, bool)>
    decreases s.len(),
{
    if s.len() == 0 {
        Seq::empty()
    } else {
        insert_focus(rank_by_focus(s.drop_last()), s.last())
    }
}

/// Where `insert_focus` puts `x`, found by scanning back from the end.
proof fn lemma_insert_focus_at(
    s: Seq<(Seq<char>, Seq<char>, Seq<char>, u64, Seq<char>, bool)>,
    x: (Seq<char>, Seq<char>, Seq<char>, u64, Seq<char>, bool),
    p: int,
)
    requires
        0 <= p <= s.len(),
        p == 0 || !focus_before(x, s[p - 1]),
        forall|j: int| p <= j < s.len() ==> focus_before(x, #[trigger] s[j]),
    ensures
        insert_focus(s, x) == s.take(p).push(x) + s.skip(p),
    decreases s.len() - p,
{
    if s.len() == p {
        if s.len() == 0 {
            assert(s.take(p).push(x) + s.skip(p) =~= seq![x]);
        } else {
            assert(s.take(p) =~= s);
            assert(s.take(p).push(x) + s.skip(p) =~= s.push(x));
        }
    } else {
        assert(focus_before(x, s.last()));
        let t = s.drop_last();
        assert forall|j: int| p <= j < t.len() implies focus_before(x, #[trigger] t[j]) by {
            assert(t[j] == s[j]);
        }
        if p > 0 {
            assert(t[p - 1] == s[p - 1]);
        }
        lemma_insert_focus_at(t, x, p);
        assert(t.take(p) =~= s.take(p));
        assert((t.take(p).push(x) + t.skip(p)).push(s.last()) =~= s.take(p).push(x) + s.skip(p));
    }
}

/// `focus_before` on items.
fn ranks_before(a: &FocusItem, b: &FocusItem) -> (r: bool)
    ensures
        r == focus_before(focus_view(*a), focus_view(*b)),
{
    let ad = str_eq(a.proof_mode.as_str(), "definition_backed");
    let bd = str_eq(b.proof_mode.as_str(), "definition_backed");
    if a.m2_ready != b.m2_ready {
        !a.m2_ready
    } else if ad != bd {
        ad
    } else if a.admit_count != b.admit_count {
        a.admit_count > b.admit_count
    } else if !str_eq(a.system_id.as_str(), b.system_id.as_str()) {
        chars_lt(chars_of(a.system_id.as_str()).as_slice(), chars_of(b.system_id.as_str()).as_slice())
    } else {
        chars_lt(chars_of(a.instance_id.as_str()).as_slice(), chars_of(b.instance_id.as_str()).as_slice())
    }
}

/// A copy of a focus item.
fn copy_item(f: &FocusItem) -> (g: FocusItem)
    ensures
        focus_view(g) == focus_view(*f),
{
    FocusItem {
        instance_id: owned(f.instance_id.as_str()),
        system_id: owned(f.system_id.as_str()),
        family: owned(f.family.as_str()),
        admit_count: f.admit_count,
        proof_mode: owned(f.proof_mode.as_str()),
        m2_ready: f.m2_ready,
    }
}

/// The items stably sorted in focus order.
pub fn rank_focus(items: &Vec<FocusItem>) -> (out: Vec<FocusItem>)
    ensures
        focus_views(out@) == rank_by_focus(focus_views(items@)),
{
    let ghost iv = focus_views(items@);
    let mut out: Vec<FocusItem> = Vec::new();
    let mut k: usize = 0;
    while k < items.len()
        invariant
            k <= items@.len(),
            iv == focus_views(items@),
            focus_views(out@) == rank_by_focus(iv.take(k as int)),
        decreases items@.len() - k,
    {
        let x = &items[k];
        let ghost s = focus_views(out@);
        let mut p = out.len();
        while p > 0 && ranks_before(x, &out[p - 1])
            invariant
                p <= out@.len(),
                s == focus_views(out@),
                forall|j: int| p <= j < s.len() ==> focus_before(focus_view(*x), #[trigger] s[j]),
            decreases p,
        {
            p = p - 1;
        }
        proof {
            lemma_insert_focus_at(s, focus_view(*x), p as int);
            assert(iv.take(k + 1).drop_last() =~= iv.take(k as int));
            assert(iv[k as int] == focus_view(*x));
        }
        let ghost xv = focus_view(*x);
        out.insert(p, copy_item(x));
        proof {
            assert(focus_views(out@) =~= s.take(p as int).push(xv) + s.skip(p as int));
        }
        k = k + 1;
    }
    proof {
        assert(iv.take(iv.len() as int) =~= iv);
    }
    out
}


/// The entries of `s[..k]` that are not yet ready, in order.
pub open spec fn unready(s: Seq<(Seq<char>, Seq<char>, Seq<char>, u64, Seq<char>, bool)>, k: int)
    -> Seq<(Seq<char>, Seq<char>, Seq<char>, u64, Seq<char>, bool)>
    decreases k,
{
    if k <= 0 || k > s.len() {
        Seq::empty()
    } else {
        let r = unready(s, k - 1);
        if s[k - 1].5 { r } else { r.push(s[k - 1]) }
    }
}

/// The items not yet ready, in order, at most `limit` of them.
pub fn unready_items(items: &Vec<FocusItem>, limit: usize) -> (out: Vec<FocusItem>)
    ensures
        focus_views(out@) == unready(focus_views(items@), items@.len() as int).take(
            if unready(focus_views(items@), items@.len() as int).len() < limit {
                unready(focus_views(items@), items@.len() as int).len() as int
            } else {
                limit as int
            }),
{
    let ghost iv = focus_views(items@);
    let mut out: Vec<FocusItem> = Vec::new();
    let mut k: usize = 0;
    while k < items.len() && out.len() < limit
        invariant
            k <= items@.len(),
            iv == focus_views(items@),
            out@.len() <= limit,
            focus_views(out@) == unready(iv, k as int),
        decreases items@.len() - k,
    {
        proof {
            assert(iv[k as int] == focus_view(items@[k as int]));
        }
        if !items[k].m2_ready {
            let ghost before = focus_views(out@);
            out.push(copy_item(&items[k]));
            proof {
                assert(focus_views(out@) =~= before.push(iv[k as int]));
            }
        }
        k = k + 1;
    }
    proof {
        lemma_unready_prefix(iv, k as int, items@.len() as int);
        let u = unready(iv, iv.len() as int);
        if k == items@.len() {
            assert(u == focus_views(out@));
            if u.len() < limit {
                assert(u.take(u.len() as int) =~= u);
            } else {
                assert(u.len() <= limit);
                assert(u.take(limit as int) =~= u);
            }
        } else {
            assert(out@.len() == limit);
            assert(u.take(limit as int) =~= unready(iv, k as int));
        }
    }
    out
}

/// Filtering more entries only extends the filtered prefix.
proof fn lemma_unready_prefix(s: Seq<(Seq<char>, Seq<char>, Seq<char>, u64, Seq<char>, bool)>, k: int, m: int)
    requires
        0 <= k <= m <= s.len(),
    ensures
        unready(s, k) == unready(s, m).take(unready(s, k).len() as int),
        unready(s, k).len() <= unready(s, m).len(),
    decreases m - k,
{
    if k < m {
        lemma_unready_prefix(s, k, m - 1);
        let a = unready(s, k);
        let b = unready(s, m - 1);
        if !s[m - 1].5 {
            assert(b.push(s[m - 1]).take(a.len() as int) =~= b.take(a.len() as int));
        }
    } else {
        assert(unready(s, m).take(unready(s, m).len() as int) =~= unready(s, m));
    }
}

/// How many entries of `s` have family `f`.
pub open spec fn family_count(s: Seq<(Seq<char>, Seq<char>, Seq<char>, u64, Seq<char>, bool)>, f: Seq<char>) -> nat
    decreases s.len(),
{
    if s.len() == 0 { 0 } else { family_count(s.drop_last(), f) + if s.last().2 == f { 1nat } else { 0nat } }
}

/// How many entries of `s` have system `y`.
pub open spec fn system_count(s: Seq<(Seq<char>, Seq<char>, Seq<char>, u64, Seq<char>, bool)>, y: Seq<char>) -> nat
    decreases s.len(),
{
    if s.len() == 0 { 0 } else { system_count(s.drop_last(), y) + if s.last().1 == y { 1nat } else { 0nat } }
}

/// The next batch picked from `c[..k]`: candidates in order, skipping one
/// whose family already has four picks or whose system has six, and
/// stopping at twenty.
pub open spec fn capped_batch(c: Seq<(Seq<char>, Seq<char>, Seq<char>, u64, Seq<char>, bool)>, k: int)
    -> Seq<(Seq<char>, Seq<char>, Seq<char>, u64, Seq<char>, bool)>
    decreases k,
{
    if k <= 0 || k > c.len() {
        Seq::empty()
    } else {
        let prev = capped_batch(c, k - 1);
        let x = c[k - 1];
        if prev.len() >= 20 || family_count(prev, x.2) >= 4 || system_count(prev, x.1) >= 6 {
            prev
        } else {
            prev.push(x)
        }
    }
}

/// Counts how many of `picked` share `x`'s family and system.
fn share_counts(picked: &Vec<FocusItem>, x: &FocusItem) -> (r: (u64, u64))
    ensures
        r.0 == family_count(focus_views(picked@), x.family@),
        r.1 == system_count(focus_views(picked@), x.system_id@),
{
    let ghost pv = focus_views(picked@);
    let mut f: u64 = 0;
    let mut y: u64 = 0;
    let mut k: usize = 0;
    while k < picked.len()
        invariant
            k <= picked@.len(),
            pv == focus_views(picked@),
            f == family_count(pv.take(k as int), x.family@),
            y == system_count(pv.take(k as int), x.system_id@),
            f <= k && y <= k,
        decreases picked@.len() - k,
    {
        proof {
            assert(pv.take(k + 1).drop_last() =~= pv.take(k as int));
            assert(pv[k as int] == focus_view(picked@[k as int]));
        }
        if str_eq(picked[k].family.as_str(), x.family.as_str()) {
            f = f + 1;
        }
        if str_eq(picked[k].system_id.as_str(), x.system_id.as_str()) {
            y = y + 1;
        }
        k = k + 1;
    }
    proof {
        assert(pv.take(pv.len() as int) =~= pv);
    }
    (f, y)
}

/// The next batch picked from the candidates (see `capped_batch`).
pub fn next_batch(candidates: &Vec<FocusItem>) -> (out: Vec<FocusItem>)
    ensures
        focus_views(out@) == capped_batch(focus_views(candidates@), candidates@.len() as int),
{
    let ghost cv = focus_views(candidates@);
    let mut out: Vec<FocusItem> = Vec::new();
    let mut k: usize = 0;
    while k < candidates.len()
        invariant
            k <= candidates@.len(),
            cv == focus_views(candidates@),
            focus_views(out@) == capped_batch(cv, k as int),
            out@.len() <= 20,
        decreases candidates@.len() - k,
    {
        let x = &candidates[k];
        proof {
            assert(cv[k as int] == focus_view(*x));
        }
        let (fc, sc) = share_counts(&out, x);
        if out.len() < 20 && fc < 4 && sc < 6 {
            let ghost before = focus_views(out@);
            out.push(copy_item(x));
            proof {
                assert(focus_views(out@) =~= before.push(cv[k as int]));
            }
        }
        if out.len() >= 20 {
            proof {
                lemma_capped_full(cv, k + 1, candidates@.len() as int);
            }
            return out;
        }
        k = k + 1;
    }
    out
}

/// Once twenty are picked nothing more is.
proof fn lemma_capped_full(c: Seq<(Seq<char>, Seq<char>, Seq<char>, u64, Seq<char>, bool)>, k: int, m: int)
    requires
        0 <= k <= m <= c.len(),
        capped_batch(c, k).len() >= 20,
    ensures
        capped_batch(c, m) == capped_batch(c, k),
    decreases m - k,
{
    if k < m {
        lemma_capped_full(c, k, m - 1);
    }
}

/// One row of a proof worklist.
#[derive(Debug, Clone)]
pub struct WorkItem {
    /// Instance id.
    pub instance_id: String,
    /// System id.
    pub system_id: String,
    /// Domain.
    pub family: String,
    /// Placeholder proofs left.
    pub admit_count: u64,
    /// Proof mode.
    pub proof_mode: String,
    /// `work_reason_of` the packet.
    pub gap_reason: String,
    /// Workspace-relative path of the packet file.
    pub packet_path: String,
    /// Workspace-relative path of the scaffold.
    pub scaffold_path: String,
}

/// The workspace-relative path of a file of a packet:
/// `<packets_root>/<system>/<instance>/<file>`.
pub open spec fn packet_file(workspace: Seq<char>, root: Seq<char>, system: Seq<char>, instance: Seq<char>, file: Seq<char>) -> Seq<char> {
    let full = path_push(path_push(path_push(root, system), instance), file);
    slashed(match strip_prefix_of(full, workspace) { Some(rel) => rel, None => full })
}

/// `packet_file`.
fn packet_file_path(workspace: &str, root: &str, system: &str, instance: &str, file: &str) -> (out: String)
    ensures
        out@ == packet_file(workspace@, root@, system@, instance@, file@),
{
    let mut full = owned(root);
    push_path(&mut full, system);
    push_path(&mut full, instance);
    push_path(&mut full, file);
    normalize_workspace_path(workspace, full.as_str())
}

/// The worklist row of a focus item.
pub fn work_item(workspace: &str, packets_root: &str, f: &FocusItem) -> (w: WorkItem)
    ensures
        w.instance_id@ == f.instance_id@,
        w.system_id@ == f.system_id@,
        w.family@ == f.family@,
        w.admit_count == f.admit_count,
        w.proof_mode@ == f.proof_mode@,
        w.gap_reason@ == work_reason_of(f.proof_mode@, f.admit_count),
        w.packet_path@ == packet_file(workspace@, packets_root@, f.system_id@, f.instance_id@, "packet.json"@),
        w.scaffold_path@ == packet_file(workspace@, packets_root@, f.system_id@, f.instance_id@, "scaffold.lean"@),
{
    WorkItem {
        instance_id: owned(f.instance_id.as_str()),
        system_id: owned(f.system_id.as_str()),
        family: owned(f.family.as_str()),
        admit_count: f.admit_count,
        proof_mode: owned(f.proof_mode.as_str()),
        gap_reason: owned(work_reason(f.proof_mode.as_str(), f.admit_count)),
        packet_path: packet_file_path(workspace, packets_root, f.system_id.as_str(), f.instance_id.as_str(), "packet.json"),
        scaffold_path: packet_file_path(workspace, packets_root, f.system_id.as_str(), f.instance_id.as_str(), "scaffold.lean"),
    }
}

/// The CSV line of a worklist row.
pub open spec fn work_line(w: WorkItem) -> Seq<char> {
    w.instance_id@ + ","@ + w.system_id@ + ","@ + w.family@ + ","@ + decimal(w.admit_count as nat) + ","@
        + w.proof_mode@ + ","@ + w.gap_reason@ + ","@ + w.packet_path@ + ","@ + w.scaffold_path@
}

/// The worklist CSV: its header, then one line per row.
pub fn worklist_csv_lines(items: &Vec<WorkItem>) -> (lines: Vec<String>)
    ensures
        lines@.len() == items@.len() + 1,
        lines@[0]@ == "instance_id,system_id,family,admit_count,proof_mode,gap_reason,packet_path,scaffold_path"@,
        forall|k: int| 0 <= k < items@.len() ==> (#[trigger] lines@[k + 1])@ == work_line(items@[k]),
{
    let mut lines: Vec<String> = Vec::new();
    lines.push(owned("instance_id,system_id,family,admit_count,proof_mode,gap_reason,packet_path,scaffold_path"));
    let mut k: usize = 0;
    while k < items.len()
        invariant
            k <= items@.len(),
            lines@.len() == k + 1,
            lines@[0]@ == "instance_id,system_id,family,admit_count,proof_mode,gap_reason,packet_path,scaffold_path"@,
            forall|j: int| 0 <= j < k ==> (#[trigger] lines@[j + 1])@ == work_line(items@[j]),
        decreases items@.len() - k,
    {
        let w = &items[k];
        let mut line = owned(w.instance_id.as_str());
        push_all(&mut line, ",");
        push_all(&mut line, w.system_id.as_str());
        push_all(&mut line, ",");
        push_all(&mut line, w.family.as_str());
        push_all(&mut line, ",");
        push_all(&mut line, number(w.admit_count).as_str());
        push_all(&mut line, ",");
        push_all(&mut line, w.proof_mode.as_str());
        push_all(&mut line, ",");
        push_all(&mut line, w.gap_reason.as_str());
        push_all(&mut line, ",");
        push_all(&mut line, w.packet_path.as_str());
        push_all(&mut line, ",");
        push_all(&mut line, w.scaffold_path.as_str());
        proof {
            assert(line@ =~= work_line(*w));
        }
        lines.push(line);
        k = k + 1;
    }
    lines
}

/// How many rows elaborated.
pub open spec fn count_elaborated(rows: Seq<DashboardRow>) -> nat
    decreases rows.len(),
{
    if rows.len() == 0 { 0 } else { count_elaborated(rows.drop_last()) + if rows.last().elaborated { 1nat } else { 0nat } }
}

/// How many rows are M2-ready.
pub open spec fn count_m2_ready(rows: Seq<DashboardRow>) -> nat
    decreases rows.len(),
{
    if rows.len() == 0 { 0 } else { count_m2_ready(rows.drop_last()) + if rows.last().m2_ready { 1nat } else { 0nat } }
}

/// The dashboard's totals: packets, elaborated packets, M2-ready packets.
pub fn dashboard_totals(rows: &Vec<DashboardRow>) -> (r: (usize, usize, usize))
    ensures
        r.0 == rows@.len(),
        r.1 == count_elaborated(rows@),
        r.2 == count_m2_ready(rows@),
{
    let mut e: usize = 0;
    let mut m: usize = 0;
    let mut k: usize = 0;
    while k < rows.len()
        invariant
            k <= rows@.len(),
            e == count_elaborated(rows@.take(k as int)),
            m == count_m2_ready(rows@.take(k as int)),
            e <= k && m <= k,
        decreases rows@.len() - k,
    {
        proof {
            assert(rows@.take(k + 1).drop_last() =~= rows@.take(k as int));
        }
        if rows[k].elaborated {
            e = e + 1;
        }
        if rows[k].m2_ready {
            m = m + 1;
        }
        k = k + 1;
    }
    proof {
        assert(rows@.take(rows@.len() as int) =~= rows@);
    }
    (rows.len(), e, m)
}

/// The wave-1 proving batch: the first twelve ranked wave-1 packets that
/// are not yet ready.
pub fn wave1_next_batch(ranked: &Vec<FocusItem>) -> (out: Vec<FocusItem>)
    ensures
        focus_views(out@) == unready(focus_views(ranked@), ranked@.len() as int).take(
            if unready(focus_views(ranked@), ranked@.len() as int).len() < 12 {
                unready(focus_views(ranked@), ranked@.len() as int).len() as int
            } else {
                12
            }),
{
    unready_items(ranked, 12)
}

/// The strict-M1 gate: with the strict policy and `violating` packets in
/// violation, the run fails with `strict M1 gate failed: <n> elaborated
/// packet(s) violate M1 contract (see <dashboard>)`.
pub fn strict_gate(strict_m1: bool, violating: usize, dashboard_path: &str) -> (m: Option<String>)
    ensures
        match m {
            Some(t) => strict_m1 && violating > 0
                && t@ == "strict M1 gate failed: "@ + decimal(violating as nat)
                    + " elaborated packet(s) violate M1 contract (see "@ + dashboard_path@ + ")"@,
            None => !(strict_m1 && violating > 0),
        },
{
    if !(strict_m1 && violating > 0) {
        return None;
    }
    let mut t = owned("strict M1 gate failed: ");
    push_all(&mut t, number(violating as u64).as_str());
    push_all(&mut t, " elaborated packet(s) violate M1 contract (see ");
    push_all(&mut t, dashboard_path);
    push_all(&mut t, ")");
    Some(t)
}

} // verus!
