//! Quality rules for review packets: which generated obligations face the
//! benchmark, which critical semantic units an obligation speaks to, and the
//! summary of what a packet covers.

use vstd::prelude::*;
use crate::text::{chars_of, string_from_chars, str_eq};
use crate::lean::{ascii_lower_seq, contains_sub, lower_chars};
use crate::review_text::{normalized, normalize_text, vacuous_or_filler, is_vacuous_or_filler, contains};
use crate::review_text::{tautological_precondition, is_tautological_precondition, without_nat_nonneg, strip_redundant_nat_nonneg};
use crate::prompts::string_views;

verus! {

/// What the rules read of a semantic unit: its `id`, `criticality` and
/// `description`, each `None` when absent or not a string.
#[derive(Debug)]
pub struct SemanticUnitFacts {
    /// Unit id.
    pub id: Option<String>,
    /// `critical`, `optional`, ...
    pub criticality: Option<String>,
    /// Free-text description.
    pub description: Option<String>,
}

/// What the rules read of a generated obligation.
#[derive(Debug)]
pub struct ObligationFacts {
    /// `benchmark_facing` or `auxiliary` (absent reads as `auxiliary`).
    pub layer: Option<String>,
    /// Lean statement, if a string.
    pub lean_statement: Option<String>,
    /// Natural-language gloss, if a string.
    pub nl_gloss: Option<String>,
    /// The string entries of its linked semantic units.
    pub linked_semantic_units: Vec<String>,
}

/// What a packet's obligations cover.
#[derive(Debug)]
pub struct QualitySummary {
    /// Critical units some benchmark-facing obligation covers.
    pub critical_units_covered_by_direct_theorems: Vec<String>,
    /// Critical units only auxiliary obligations cover.
    pub critical_units_only_indirectly_covered: Vec<String>,
    /// Some benchmark-facing obligation is off the specification.
    pub off_spec_theorems_present: bool,
    /// Some benchmark-facing obligation is vacuous or filler.
    pub vacuous_theorems_present: bool,
}

/// An obligation kind that states the contract itself.
pub open spec fn is_contract_kind(kind: Seq<char>) -> bool {
    kind == "precondition"@ || kind == "postcondition"@ || kind == "optimality"@ || kind == "termination"@
}

/// The layer of an obligation: `benchmark_facing` when it states the
/// contract and links a critical unit, else `auxiliary`.
pub open spec fn layer_of(kind: Seq<char>, linked: Seq<Seq<char>>, critical: Seq<Seq<char>>) -> Seq<char> {
    if (exists|i: int| 0 <= i < linked.len() && critical.contains(#[trigger] linked[i])) && is_contract_kind(kind) {
        "benchmark_facing"@
    } else {
        "auxiliary"@
    }
}

/// Whether `v` is one of `set`.
fn member(set: &Vec<String>, v: &String) -> (b: bool)
    ensures
        b == string_views(set@).contains(v@),
{
    let mut k: usize = 0;
    while k < set.len()
        invariant
            k <= set@.len(),
            forall|j: int| 0 <= j < k ==> set@[j]@ != v@,
        decreases set@.len() - k,
    {
        if str_eq(set[k].as_str(), v.as_str()) {
            proof {
                assert(string_views(set@)[k as int] == v@);
            }
            return true;
        }
        k = k + 1;
    }
    proof {
        if string_views(set@).contains(v@) {
            let j = choose|j: int| 0 <= j < string_views(set@).len() && string_views(set@)[j] == v@;
            assert(set@[j]@ == v@);
        }
    }
    false
}

/// The layer of an obligation of `kind` linking `linked` (see `layer_of`).
pub fn obligation_layer(kind: &str, linked: &Vec<String>, critical_units: &Vec<String>) -> (layer: &'static str)
    ensures
        layer@ == layer_of(kind@, string_views(linked@), string_views(critical_units@)),
{
    let mut has_critical = false;
    let mut k: usize = 0;
    while k < linked.len()
        invariant
            k <= linked@.len(),
            has_critical == exists|i: int| 0 <= i < k && string_views(critical_units@).contains(#[trigger] string_views(linked@)[i]),
        decreases linked@.len() - k,
    {
        if member(critical_units, &linked[k]) {
            has_critical = true;
        }
        proof {
            assert(string_views(linked@)[k as int] == linked@[k as int]@);
        }
        k = k + 1;
    }
    let contract = str_eq(kind, "precondition") || str_eq(kind, "postcondition") || str_eq(kind, "optimality")
        || str_eq(kind, "termination");
    if has_critical && contract {
        "benchmark_facing"
    } else {
        "auxiliary"
    }
}

/// The layer a review packet gives a generated obligation: that of
/// `layer_of`, except that a precondition which merely restates its
/// assumption (judged on the lowercased statement and gloss) is auxiliary.
pub open spec fn packet_layer_of(
    kind: Seq<char>,
    linked: Seq<Seq<char>>,
    critical: Seq<Seq<char>>,
    statement: Seq<char>,
    gloss: Seq<char>,
) -> Seq<char> {
    if kind == "precondition"@ && tautological_precondition(ascii_lower_seq(statement), ascii_lower_seq(gloss)) {
        "auxiliary"@
    } else {
        layer_of(kind, linked, critical)
    }
}

/// A generated obligation as a review packet records it: its Lean
/// statement without redundant non-negativity conjuncts, and its layer
/// (see `packet_layer_of`, judged on that statement).
pub fn packet_obligation(
    kind: &str,
    linked: &Vec<String>,
    critical_units: &Vec<String>,
    lean_statement: &str,
    nl_gloss: &str,
) -> (r: (String, &'static str))
    ensures
        r.0@ == without_nat_nonneg(lean_statement@),
        r.1@ == packet_layer_of(kind@, string_views(linked@), string_views(critical_units@), r.0@, nl_gloss@),
{
    let statement = strip_redundant_nat_nonneg(lean_statement);
    let stmt_lower = string_from_chars(&lower_chars(chars_of(statement.as_str()).as_slice()));
    let gloss_lower = string_from_chars(&lower_chars(chars_of(nl_gloss).as_slice()));
    let layer = if str_eq(kind, "precondition")
        && is_tautological_precondition(stmt_lower.as_str(), gloss_lower.as_str()) {
        "auxiliary"
    } else {
        obligation_layer(kind, linked, critical_units)
    };
    (statement, layer)
}

/// Whether a critical unit described by `desc` (lowercased) is spoken to by
/// an obligation whose lowercased statement and gloss make up `text`.
pub open spec fn speaks_to(desc: Seq<char>, text: Seq<char>) -> bool {
    ||| contains_sub(desc, "sorted"@) && contains_sub(text, "sorted"@)
    ||| contains_sub(desc, "length"@) && contains_sub(text, "length"@)
    ||| contains_sub(desc, "source"@) && contains_sub(text, "source"@) && contains_sub(text, "some 0"@)
    ||| (contains_sub(desc, "bst"@) || contains_sub(desc, "binary search tree"@))
        && (contains_sub(text, "hbst : bst t"@) || contains_sub(text, "bst (bst_insert"@)
            || contains_sub(text, "bst_insert_preserves_bst"@))
    ||| contains_sub(desc, "non-negative"@)
        && (contains_sub(text, "non-negative"@) || contains_sub(text, ">= 0"@) || contains_sub(text, "≥ 0"@)
            || contains_sub(text, "u < n ∧ v < n"@))
    ||| contains_sub(desc, "start < stop"@)
        && ((contains_sub(text, ".1 <"@) && contains_sub(text, ".2"@)) || contains_sub(text, "start < stop"@))
    ||| contains_sub(desc, "pairwise non-overlapping"@)
        && (contains_sub(text, "pairwise"@) || contains_sub(text, "non-overlapping"@))
    ||| contains_sub(desc, "optimality"@)
        && (contains_sub(text, "optimality"@) || contains_sub(text, "no path"@) || contains_sub(text, "strictly larger"@))
    ||| contains_sub(desc, "unreachability"@)
        && (contains_sub(text, "none"@) && (contains_sub(text, "no path"@) || contains_sub(text, "unreachable"@)))
}

/// The unit is critical and has an id.
pub open spec fn is_critical(u: SemanticUnitFacts) -> bool {
    u.id is Some && (u.criticality matches Some(c) && c@ == "critical"@)
}

/// The unit is optional and has an id.
pub open spec fn is_optional(u: SemanticUnitFacts) -> bool {
    u.id is Some && (u.criticality matches Some(c) && c@ == "optional"@)
}

/// A unit's description, lowercased (empty when absent).
pub open spec fn desc_of(u: SemanticUnitFacts) -> Seq<char> {
    ascii_lower_seq(match u.description { Some(d) => d@, None => Seq::empty() })
}

/// Ids of the critical units among `units[..k]` that an obligation with
/// lowercased statement `stmt` and gloss `gloss` speaks to, in order.
pub open spec fn inferred_units(units: Seq<SemanticUnitFacts>, stmt: Seq<char>, gloss: Seq<char>, k: int) -> Seq<Seq<char>>
    decreases k,
{
    if k <= 0 || k > units.len() {
        Seq::empty()
    } else {
        let rest = inferred_units(units, stmt, gloss, k - 1);
        let u = units[k - 1];
        if is_critical(u) && speaks_to(desc_of(u), stmt + seq![' '] + gloss) {
            rest.push(u.id->0@)
        } else {
            rest
        }
    }
}

/// Whether `text` holds `needle`.
fn holds(text: &Vec<char>, needle: &str) -> (b: bool)
    ensures
        b == contains_sub(text@, needle@),
{
    contains(text.as_slice(), needle)
}

/// Whether `o` is `Some(s)` with `s` equal to `w`.
fn is_word(o: &Option<String>, w: &str) -> (b: bool)
    ensures
        b == (o matches Some(s) && s@ == w@),
{
    match o {
        Some(s) => str_eq(s.as_str(), w),
        None => false,
    }
}

/// Ids of the critical units an obligation speaks to, given its lowercased
/// statement and gloss.
pub fn infer_critical_units_for_obligation(units: &Vec<SemanticUnitFacts>, statement_lc: &str, gloss_lc: &str) -> (out: Vec<String>)
    ensures
        string_views(out@) == inferred_units(units@, statement_lc@, gloss_lc@, units@.len() as int),
{
    let mut tc = chars_of(statement_lc);
    tc.push(' ');
    let gc = chars_of(gloss_lc);
    let mut q: usize = 0;
    let ghost base = tc@;
    while q < gc.len()
        invariant
            q <= gc@.len(),
            tc@ == base + gc@.take(q as int),
        decreases gc@.len() - q,
    {
        tc.push(gc[q]);
        proof {
            assert(gc@.take(q + 1) == gc@.take(q as int).push(gc@[q as int]));
        }
        q = q + 1;
    }
    proof {
        assert(gc@.take(gc@.len() as int) =~= gc@);
        assert(tc@ =~= statement_lc@ + seq![' '] + gloss_lc@);
    }
    let text = tc;
    let mut out: Vec<String> = Vec::new();
    let mut k: usize = 0;
    proof {
        assert(string_views(out@) =~= Seq::<Seq<char>>::empty());
    }
    while k < units.len()
        invariant
            k <= units@.len(),
            text@ == statement_lc@ + seq![' '] + gloss_lc@,
            string_views(out@) == inferred_units(units@, statement_lc@, gloss_lc@, k as int),
        decreases units@.len() - k,
    {
        let u = &units[k];
        if u.id.is_some() && is_word(&u.criticality, "critical") {
            let desc = match &u.description {
                Some(d) => lower_chars(&chars_of(d.as_str())),
                None => Vec::new(),
            };
            proof {
                if u.description is None {
                    assert(desc@ =~= ascii_lower_seq(Seq::<char>::empty()));
                }
            }
            let m = (holds(&desc, "sorted") && holds(&text, "sorted"))
                || (holds(&desc, "length") && holds(&text, "length"))
                || (holds(&desc, "source") && holds(&text, "source") && holds(&text, "some 0"))
                || ((holds(&desc, "bst") || holds(&desc, "binary search tree"))
                    && (holds(&text, "hbst : bst t") || holds(&text, "bst (bst_insert")
                        || holds(&text, "bst_insert_preserves_bst")))
                || (holds(&desc, "non-negative")
                    && (holds(&text, "non-negative") || holds(&text, ">= 0") || holds(&text, "≥ 0")
                        || holds(&text, "u < n ∧ v < n")))
                || (holds(&desc, "start < stop")
                    && ((holds(&text, ".1 <") && holds(&text, ".2")) || holds(&text, "start < stop")))
                || (holds(&desc, "pairwise non-overlapping")
                    && (holds(&text, "pairwise") || holds(&text, "non-overlapping")))
                || (holds(&desc, "optimality")
                    && (holds(&text, "optimality") || holds(&text, "no path") || holds(&text, "strictly larger")))
                || (holds(&desc, "unreachability")
                    && (holds(&text, "none") && (holds(&text, "no path") || holds(&text, "unreachable"))));
            if m {
                let id = match &u.id {
                    Some(s) => string_from_chars(&chars_of(s.as_str())),
                    None => String::new(),
                };
                let ghost before = string_views(out@);
                out.push(id);
                proof {
                    assert(string_views(out@) =~= before.push(u.id->0@));
                }
            }
        }
        k = k + 1;
    }
    out
}

/// Ids of the units among `units[..k]` of criticality `level`, in order.
pub open spec fn unit_ids(units: Seq<SemanticUnitFacts>, level: Seq<char>, k: int) -> Seq<Seq<char>>
    decreases k,
{
    if k <= 0 || k > units.len() {
        Seq::empty()
    } else {
        let rest = unit_ids(units, level, k - 1);
        let u = units[k - 1];
        if u.id is Some && (u.criticality matches Some(c) && c@ == level) {
            rest.push(u.id->0@)
        } else {
            rest
        }
    }
}

/// An obligation's layer (absent reads as `auxiliary`).
pub open spec fn layer_text(o: ObligationFacts) -> Seq<char> {
    match o.layer { Some(l) => l@, None => "auxiliary"@ }
}

/// The obligation faces the benchmark.
pub open spec fn is_direct(o: ObligationFacts) -> bool {
    layer_text(o) == "benchmark_facing"@
}

/// An obligation's statement, lowercased (empty when absent).
pub open spec fn stmt_lc(o: ObligationFacts) -> Seq<char> {
    ascii_lower_seq(match o.lean_statement { Some(t) => t@, None => Seq::empty() })
}

/// An obligation's gloss, lowercased (empty when absent).
pub open spec fn gloss_lc(o: ObligationFacts) -> Seq<char> {
    ascii_lower_seq(match o.nl_gloss { Some(t) => t@, None => Seq::empty() })
}

/// Units an obligation covers: those it links and the critical ones it
/// speaks to.
pub open spec fn covers(units: Seq<SemanticUnitFacts>, o: ObligationFacts) -> Set<Seq<char>> {
    string_views(o.linked_semantic_units@).to_set()
        .union(inferred_units(units, stmt_lc(o), gloss_lc(o), units.len() as int).to_set())
}

/// Units covered by the obligations among `obs[..k]` that face the
/// benchmark (`direct`) or not.
pub open spec fn covered_by(units: Seq<SemanticUnitFacts>, obs: Seq<ObligationFacts>, direct: bool, k: int) -> Set<Seq<char>>
    decreases k,
{
    if k <= 0 || k > obs.len() {
        Set::empty()
    } else {
        let rest = covered_by(units, obs, direct, k - 1);
        if is_direct(obs[k - 1]) == direct { rest.union(covers(units, obs[k - 1])) } else { rest }
    }
}

/// A benchmark-facing obligation that is off the specification: it speaks
/// of stability, or links optional units only.
pub open spec fn off_spec(units: Seq<SemanticUnitFacts>, o: ObligationFacts) -> bool {
    let n = normalized(stmt_lc(o));
    let linked = string_views(o.linked_semantic_units@);
    &&& is_direct(o)
    &&& (contains_sub(n, "stable"@) || contains_sub(n, "stability"@) || contains_sub(gloss_lc(o), "stability"@)
        || (linked.len() > 0 && forall|j: int| 0 <= j < linked.len()
            ==> unit_ids(units, "optional"@, units.len() as int).contains(#[trigger] linked[j])))
}

/// A benchmark-facing obligation that is vacuous or filler.
pub open spec fn vacuous_direct(o: ObligationFacts) -> bool {
    is_direct(o) && vacuous_or_filler(normalized(stmt_lc(o)), gloss_lc(o))
}

/// The ids of `ids[..k]` that are in `yes` and not in `no`, in order.
pub open spec fn pick(ids: Seq<Seq<char>>, yes: Set<Seq<char>>, no: Set<Seq<char>>, k: int) -> Seq<Seq<char>>
    decreases k,
{
    if k <= 0 || k > ids.len() {
        Seq::empty()
    } else {
        let rest = pick(ids, yes, no, k - 1);
        if yes.contains(ids[k - 1]) && !no.contains(ids[k - 1]) { rest.push(ids[k - 1]) } else { rest }
    }
}

/// Ids of the units of criticality `level`, in order.
fn ids_of_level(units: &Vec<SemanticUnitFacts>, level: &str) -> (out: Vec<String>)
    ensures
        string_views(out@) == unit_ids(units@, level@, units@.len() as int),
{
    let mut out: Vec<String> = Vec::new();
    let mut k: usize = 0;
    proof {
        assert(string_views(out@) =~= Seq::<Seq<char>>::empty());
    }
    while k < units.len()
        invariant
            k <= units@.len(),
            string_views(out@) == unit_ids(units@, level@, k as int),
        decreases units@.len() - k,
    {
        let u = &units[k];
        if u.id.is_some() && is_word(&u.criticality, level) {
            let id = match &u.id {
                Some(s) => string_from_chars(&chars_of(s.as_str())),
                None => String::new(),
            };
            let ghost before = string_views(out@);
            out.push(id);
            proof {
                assert(string_views(out@) =~= before.push(u.id->0@));
            }
        }
        k = k + 1;
    }
    out
}

/// Adds the strings of `items` to `set` (as a set).
fn add_to(set: &mut Vec<String>, items: &Vec<String>)
    ensures
        string_views(final(set)@).to_set() == string_views(old(set)@).to_set().union(string_views(items@).to_set()),
{
    let ghost start = string_views(set@).to_set();
    let mut k: usize = 0;
    proof {
        assert(string_views(items@.take(0)).to_set() =~= Set::<Seq<char>>::empty());
        assert(start.union(Set::<Seq<char>>::empty()) =~= start);
    }
    while k < items.len()
        invariant
            k <= items@.len(),
            string_views(set@).to_set() == start.union(string_views(items@.take(k as int)).to_set()),
        decreases items@.len() - k,
    {
        let ghost before = set@;
        set.push(string_from_chars(&chars_of(items[k].as_str())));
        proof {
            assert(string_views(set@) =~= string_views(before).push(items@[k as int]@));
            crate::lean_text::lemma_push_to_set(string_views(before), items@[k as int]@);
            assert(string_views(items@.take(k + 1)) =~= string_views(items@.take(k as int)).push(items@[k as int]@));
            crate::lean_text::lemma_push_to_set(string_views(items@.take(k as int)), items@[k as int]@);
            assert(string_views(set@).to_set() =~= start.union(string_views(items@.take(k + 1)).to_set()));
        }
        k = k + 1;
    }
    proof {
        assert(items@.take(items@.len() as int) =~= items@);
    }
}

/// Lowercased text of an optional string (empty when absent).
fn lower_of(o: &Option<String>) -> (out: Vec<char>)
    ensures
        out@ == ascii_lower_seq(match o { Some(t) => t@, None => Seq::empty() }),
{
    match o {
        Some(t) => lower_chars(&chars_of(t.as_str())),
        None => {
            let v: Vec<char> = Vec::new();
            assert(v@ =~= ascii_lower_seq(Seq::<char>::empty()));
            v
        },
    }
}

/// Summarises what a packet's obligations cover: the critical units that a
/// benchmark-facing obligation covers, those that only auxiliary ones
/// cover, and whether any benchmark-facing obligation is off the
/// specification or vacuous.
pub fn build_quality_summary(units: &Vec<SemanticUnitFacts>, obligations: &Vec<ObligationFacts>) -> (q: QualitySummary)
    ensures
        ({
            let crit = unit_ids(units@, "critical"@, units@.len() as int);
            let direct = covered_by(units@, obligations@, true, obligations@.len() as int);
            let indirect = covered_by(units@, obligations@, false, obligations@.len() as int);
            &&& string_views(q.critical_units_covered_by_direct_theorems@) == pick(crit, direct, Set::empty(), crit.len() as int)
            &&& string_views(q.critical_units_only_indirectly_covered@) == pick(crit, indirect, direct, crit.len() as int)
            &&& q.off_spec_theorems_present == exists|i: int| 0 <= i < obligations@.len() && off_spec(units@, #[trigger] obligations@[i])
            &&& q.vacuous_theorems_present == exists|i: int| 0 <= i < obligations@.len() && vacuous_direct(#[trigger] obligations@[i])
        }),
{
    let critical = ids_of_level(units, "critical");
    let optional = ids_of_level(units, "optional");
    let mut direct: Vec<String> = Vec::new();
    let mut indirect: Vec<String> = Vec::new();
    let mut off = false;
    let mut vac = false;
    let mut k: usize = 0;
    proof {
        assert(string_views(direct@).to_set() =~= Set::<Seq<char>>::empty());
        assert(string_views(indirect@).to_set() =~= Set::<Seq<char>>::empty());
    }
    while k < obligations.len()
        invariant
            k <= obligations@.len(),
            string_views(optional@) == unit_ids(units@, "optional"@, units@.len() as int),
            string_views(direct@).to_set() == covered_by(units@, obligations@, true, k as int),
            string_views(indirect@).to_set() == covered_by(units@, obligations@, false, k as int),
            off == exists|i: int| 0 <= i < k && off_spec(units@, #[trigger] obligations@[i]),
            vac == exists|i: int| 0 <= i < k && vacuous_direct(#[trigger] obligations@[i]),
        decreases obligations@.len() - k,
    {
        let o = &obligations[k];
        let is_bench = match &o.layer {
            Some(l) => str_eq(l.as_str(), "benchmark_facing"),
            None => false,
        };
        proof {
            reveal_strlit("auxiliary");
            reveal_strlit("benchmark_facing");
            assert("auxiliary"@.len() != "benchmark_facing"@.len());
            assert(is_bench == is_direct(*o));
        }
        let stmt = lower_of(&o.lean_statement);
        let gloss = lower_of(&o.nl_gloss);
        let stmt_s = string_from_chars(&stmt);
        let gloss_s = string_from_chars(&gloss);
        let norm = normalize_text(stmt_s.as_str());
        let norm_c = chars_of(norm.as_str());
        if is_bench {
            if is_vacuous_or_filler(norm.as_str(), gloss_s.as_str()) {
                vac = true;
            }
            let mut only_optional = o.linked_semantic_units.len() > 0;
            let mut j: usize = 0;
            while j < o.linked_semantic_units.len()
                invariant
                    j <= o.linked_semantic_units@.len(),
                    only_optional == (o.linked_semantic_units@.len() > 0 && forall|t: int| 0 <= t < j
                        ==> string_views(optional@).contains(#[trigger] string_views(o.linked_semantic_units@)[t])),
                decreases o.linked_semantic_units@.len() - j,
            {
                if !member(&optional, &o.linked_semantic_units[j]) {
                    only_optional = false;
                }
                proof {
                    assert(string_views(o.linked_semantic_units@)[j as int] == o.linked_semantic_units@[j as int]@);
                }
                j = j + 1;
            }
            if holds(&norm_c, "stable") || holds(&norm_c, "stability") || holds(&gloss, "stability") || only_optional {
                off = true;
            }
        }
        let inferred = infer_critical_units_for_obligation(units, stmt_s.as_str(), gloss_s.as_str());
        if is_bench {
            add_to(&mut direct, &o.linked_semantic_units);
            add_to(&mut direct, &inferred);
        } else {
            add_to(&mut indirect, &o.linked_semantic_units);
            add_to(&mut indirect, &inferred);
        }
        proof {
            assert(off == exists|i: int| 0 <= i < k + 1 && off_spec(units@, #[trigger] obligations@[i])) by {
                if off_spec(units@, obligations@[k as int]) {
                    assert(0 <= k < k + 1);
                }
            }
            assert(vac == exists|i: int| 0 <= i < k + 1 && vacuous_direct(#[trigger] obligations@[i])) by {
                if vacuous_direct(obligations@[k as int]) {
                    assert(0 <= k < k + 1);
                }
            }
        }
        k = k + 1;
    }
    let ghost ds = string_views(direct@).to_set();
    let ghost is = string_views(indirect@).to_set();
    let mut first: Vec<String> = Vec::new();
    let mut second: Vec<String> = Vec::new();
    let mut c: usize = 0;
    proof {
        assert(string_views(first@) =~= Seq::<Seq<char>>::empty());
        assert(string_views(second@) =~= Seq::<Seq<char>>::empty());
    }
    while c < critical.len()
        invariant
            c <= critical@.len(),
            ds == string_views(direct@).to_set(),
            is == string_views(indirect@).to_set(),
            string_views(first@) == pick(string_views(critical@), ds, Set::empty(), c as int),
            string_views(second@) == pick(string_views(critical@), is, ds, c as int),
        decreases critical@.len() - c,
    {
        let id = &critical[c];
        proof {
            assert(string_views(critical@)[c as int] == id@);
        }
        let in_direct = member(&direct, id);
        let in_indirect = member(&indirect, id);
        if in_direct {
            let ghost before = string_views(first@);
            first.push(string_from_chars(&chars_of(id.as_str())));
            proof {
                assert(string_views(first@) =~= before.push(id@));
            }
        }
        if !in_direct && in_indirect {
            let ghost before = string_views(second@);
            second.push(string_from_chars(&chars_of(id.as_str())));
            proof {
                assert(string_views(second@) =~= before.push(id@));
            }
        }
        c = c + 1;
    }
    QualitySummary {
        critical_units_covered_by_direct_theorems: first,
        critical_units_only_indirectly_covered: second,
        off_spec_theorems_present: off,
        vacuous_theorems_present: vac,
    }
}

} // verus!
