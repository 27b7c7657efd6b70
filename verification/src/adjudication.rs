//! Adjudication of the annotations that several annotators gave one
//! `(instance, system)` pair: the adjudicator's record where the policy
//! prefers it, else a record synthesised by majority vote.
//!
//! The set-level scores of an annotation are fractions; they stay with the
//! caller, which averages them for a synthesised record.

use vstd::prelude::*;
use crate::text::{chars_of, string_from_chars, push_all, str_eq};
use crate::lean::{decimal, decimal_string};
use crate::prompts::{sorted_unique, string_views, insert_sorted_unique};
use crate::basics::ids::{InstanceId, SystemId};
use crate::basics::versions::RubricVersion;
use crate::lean_text::lemma_push_to_set;
use crate::coverage::{pair_lt, pair_less};
use crate::annotations::{
    AdjudicationPolicy, AnnotatedObligation, ConsistencyLabel, CriticalUnitCoverage, FaithfulnessLabel,
    consistency_rank, faithfulness_rank, mode_cons, mode_faith,
};

verus! {

broadcast use vstd::seq_lib::group_to_multiset_ensures;

/// Errors of the annotation layer that the library itself decides.
#[derive(Debug)]
pub enum AnnotationError {
    /// An annotation file failed schema validation.
    SchemaInvalid {
        /// File that failed.
        path: String,
        /// Human-readable message.
        error: String,
    },
    /// Adjudication required but no adjudicator record was provided.
    MissingAdjudicator(String, String),
    /// No annotations where some were expected (the path, if any).
    Empty(String),
}

/// One annotator's record for an `(instance, system)` pair, without its
/// set-level scores.
#[derive(Debug)]
pub struct Annotation {
    /// Schema version constant.
    pub schema_version: String,
    /// Rubric version the annotation was produced under.
    pub rubric_version: RubricVersion,
    /// Instance id.
    pub instance_id: InstanceId,
    /// System id.
    pub system_id: SystemId,
    /// Annotator id (e.g. `ann_01`, `adjudicator`).
    pub annotator_id: String,
    /// Critical unit coverage.
    pub critical_unit_coverage: CriticalUnitCoverage,
    /// Per-obligation labels.
    pub generated_obligations: Vec<AnnotatedObligation>,
    /// Free-form annotator notes.
    pub annotator_notes: Option<String>,
}

/// The annotations given to one `(instance, system)` pair.
#[derive(Debug)]
pub struct AnnotatorGroup {
    /// Non-adjudicator annotators.
    pub annotators: Vec<Annotation>,
    /// Adjudicator record, if any.
    pub adjudicator: Option<Annotation>,
}

impl AnnotatorGroup {
    /// Number of annotation records in the group.
    pub fn len(&self) -> (n: usize)
        requires
            self.annotators@.len() < usize::MAX,
        ensures
            n == self.annotators@.len() + if self.adjudicator is Some { 1int } else { 0int },
    {
        self.annotators.len() + if self.adjudicator.is_some() { 1 } else { 0 }
    }

    /// Whether the group holds no annotation at all.
    pub fn is_empty(&self) -> (b: bool)
        ensures
            b == (self.annotators@.len() == 0 && self.adjudicator is None),
    {
        self.annotators.len() == 0 && self.adjudicator.is_none()
    }
}

/// The canonical record of a group.
#[derive(Debug)]
pub struct AdjudicatedRecord {
    /// The adjudicated annotation.
    pub annotation: Annotation,
    /// Whether the adjudicator's own record was used.
    pub from_adjudicator: bool,
    /// Per-obligation disagreement counts across annotators.
    pub per_obligation_disagreements: Vec<u32>,
}

/// The obligations at position `idx` of the annotators that have one, in
/// annotator order.
pub open spec fn obligations_at(anns: Seq<Annotation>, idx: int) -> Seq<AnnotatedObligation>
    decreases anns.len(),
{
    if anns.len() == 0 {
        Seq::empty()
    } else {
        let rest = obligations_at(anns.drop_last(), idx);
        let go = anns.last().generated_obligations@;
        if 0 <= idx < go.len() {
            rest.push(go[idx])
        } else {
            rest
        }
    }
}

/// Largest number of obligations any annotator labelled.
pub open spec fn max_obligations(anns: Seq<Annotation>) -> nat
    decreases anns.len(),
{
    if anns.len() == 0 {
        0
    } else {
        let m = max_obligations(anns.drop_last());
        let l = anns.last().generated_obligations@.len();
        if l > m { l } else { m }
    }
}

/// Faithfulness labels of obligations.
pub open spec fn faith_labels(os: Seq<AnnotatedObligation>) -> Seq<FaithfulnessLabel> {
    os.map_values(|o: AnnotatedObligation| o.faithfulness_label)
}

/// Consistency labels of obligations.
pub open spec fn cons_labels(os: Seq<AnnotatedObligation>) -> Seq<ConsistencyLabel> {
    os.map_values(|o: AnnotatedObligation| o.consistency_label)
}

/// Number of different faithfulness labels in `ls`.
pub open spec fn distinct_faith(ls: Seq<FaithfulnessLabel>) -> nat {
    let m = ls.to_multiset();
    (if m.count(FaithfulnessLabel::Unfaithful) > 0 { 1nat } else { 0nat })
        + (if m.count(FaithfulnessLabel::Ambiguous) > 0 { 1nat } else { 0nat })
        + (if m.count(FaithfulnessLabel::Partial) > 0 { 1nat } else { 0nat })
        + (if m.count(FaithfulnessLabel::Faithful) > 0 { 1nat } else { 0nat })
}

/// Per obligation position, how many faithfulness labels beyond the first
/// the annotators gave; empty with fewer than two annotators.
pub open spec fn disagreements(anns: Seq<Annotation>) -> Seq<u32> {
    if anns.len() < 2 {
        Seq::empty()
    } else {
        Seq::new(
            max_obligations(anns),
            |idx: int| {
                let d = distinct_faith(faith_labels(obligations_at(anns, idx)));
                if d == 0 { 0u32 } else { (d - 1) as u32 }
            },
        )
    }
}

/// `res` is the majority faithfulness label of `ls`: the most frequent, ties
/// to the higher label, `Ambiguous` when `ls` is empty.
pub open spec fn is_faith_mode(ls: Seq<FaithfulnessLabel>, res: FaithfulnessLabel) -> bool {
    let m = ls.to_multiset();
    &&& ls.len() == 0 ==> res == FaithfulnessLabel::Ambiguous
    &&& ls.len() > 0 ==> m.count(res) > 0
    &&& forall|l: FaithfulnessLabel| #[trigger] m.count(l) <= m.count(res)
    &&& forall|l: FaithfulnessLabel| #[trigger] m.count(l) == m.count(res) && ls.len() > 0
        ==> faithfulness_rank(l) <= faithfulness_rank(res)
}

/// `res` is the majority consistency label of `ls`: the most frequent, ties
/// to the higher label, `NotApplicable` when `ls` is empty.
pub open spec fn is_cons_mode(ls: Seq<ConsistencyLabel>, res: ConsistencyLabel) -> bool {
    let m = ls.to_multiset();
    &&& ls.len() == 0 ==> res == ConsistencyLabel::NotApplicable
    &&& ls.len() > 0 ==> m.count(res) > 0
    &&& forall|l: ConsistencyLabel| #[trigger] m.count(l) <= m.count(res)
    &&& forall|l: ConsistencyLabel| #[trigger] m.count(l) == m.count(res) && ls.len() > 0
        ==> consistency_rank(l) <= consistency_rank(res)
}

/// Number of obligations flagged vacuous.
pub open spec fn vacuous_votes(os: Seq<AnnotatedObligation>) -> nat
    decreases os.len(),
{
    if os.len() == 0 {
        0
    } else {
        vacuous_votes(os.drop_last()) + if os.last().is_vacuous { 1nat } else { 0nat }
    }
}

/// All semantic units linked by the obligations.
pub open spec fn linked_union(os: Seq<AnnotatedObligation>) -> Set<Seq<char>>
    decreases os.len(),
{
    if os.len() == 0 {
        Set::empty()
    } else {
        linked_union(os.drop_last()).union(string_views(os.last().linked_semantic_units@).to_set())
    }
}

/// Semantic units some annotator marked covered.
pub open spec fn covered_union(anns: Seq<Annotation>) -> Set<Seq<char>>
    decreases anns.len(),
{
    if anns.len() == 0 {
        Set::empty()
    } else {
        covered_union(anns.drop_last()).union(string_views(anns.last().critical_unit_coverage.covered@).to_set())
    }
}

/// Semantic units some annotator marked missed.
pub open spec fn missed_union(anns: Seq<Annotation>) -> Set<Seq<char>>
    decreases anns.len(),
{
    if anns.len() == 0 {
        Set::empty()
    } else {
        missed_union(anns.drop_last()).union(string_views(anns.last().critical_unit_coverage.missed@).to_set())
    }
}

/// `o` merges the obligations at position `idx`: majority labels, vacuous
/// when more than half say so, the union of linked units (sorted, once
/// each), no notes.
pub open spec fn merged_obligation(anns: Seq<Annotation>, idx: int, o: AnnotatedObligation) -> bool {
    let at = obligations_at(anns, idx);
    &&& o.obligation_index == if idx <= u32::MAX { idx as u32 } else { u32::MAX }
    &&& is_faith_mode(faith_labels(at), o.faithfulness_label)
    &&& is_cons_mode(cons_labels(at), o.consistency_label)
    &&& o.is_vacuous == (vacuous_votes(at) * 2 > at.len())
    &&& sorted_unique(string_views(o.linked_semantic_units@))
    &&& string_views(o.linked_semantic_units@).to_set() == linked_union(at)
    &&& o.notes is None
}

/// `c` merges the annotators' coverage: units covered by any (sorted, once
/// each), and units missed by any but covered by none (sorted, once each).
pub open spec fn merged_coverage(anns: Seq<Annotation>, c: CriticalUnitCoverage) -> bool {
    &&& sorted_unique(string_views(c.covered@))
    &&& string_views(c.covered@).to_set() == covered_union(anns)
    &&& sorted_unique(string_views(c.missed@))
    &&& string_views(c.missed@).to_set() == missed_union(anns).difference(covered_union(anns))
}

/// The note on a record synthesised from `n` annotators.
pub open spec fn majority_note(n: nat) -> Seq<char> {
    "synthesised via majority vote from "@ + decimal(n) + " annotators"@
}

/// `a` is the record synthesised by majority vote from `anns`: the first
/// annotator's versions and ids, annotator `adjudicator`, merged coverage,
/// one merged obligation per position.
pub open spec fn majority_record(anns: Seq<Annotation>, a: Annotation) -> bool {
    &&& anns.len() > 0
    &&& a.schema_version@ == anns[0].schema_version@
    &&& a.rubric_version@ == anns[0].rubric_version@
    &&& a.instance_id@ == anns[0].instance_id@
    &&& a.system_id@ == anns[0].system_id@
    &&& a.annotator_id@ == "adjudicator"@
    &&& merged_coverage(anns, a.critical_unit_coverage)
    &&& a.generated_obligations@.len() == max_obligations(anns)
    &&& forall|idx: int| 0 <= idx < a.generated_obligations@.len()
        ==> merged_obligation(anns, idx, #[trigger] a.generated_obligations@[idx])
    &&& a.annotator_notes matches Some(n) && n@ == majority_note(anns.len())
}

/// A copy of a string.
fn copy_string(s: &String) -> (out: String)
    ensures
        out@ == s@,
{
    string_from_chars(&chars_of(s.as_str()))
}

/// Adds the strings of `items` to the sorted set `out`.
fn add_all(out: &mut Vec<String>, items: &Vec<String>)
    requires
        sorted_unique(string_views(old(out)@)),
    ensures
        sorted_unique(string_views(final(out)@)),
        string_views(final(out)@).to_set() == string_views(old(out)@).to_set().union(string_views(items@).to_set()),
{
    let ghost start = string_views(out@).to_set();
    let mut k: usize = 0;
    while k < items.len()
        invariant
            k <= items@.len(),
            sorted_unique(string_views(out@)),
            string_views(out@).to_set() == start.union(string_views(items@.take(k as int)).to_set()),
        decreases items@.len() - k,
    {
        insert_sorted_unique(out, copy_string(&items[k]));
        proof {
            assert(string_views(items@.take(k + 1)) =~= string_views(items@.take(k as int)).push(items@[k as int]@));
            lemma_push_to_set(string_views(items@.take(k as int)), items@[k as int]@);
            assert(string_views(items@.take(k + 1)).to_set() =~= string_views(items@.take(k as int)).to_set().insert(items@[k as int]@));
        }
        k = k + 1;
    }
    proof {
        assert(items@.take(items@.len() as int) =~= items@);
    }
}

/// Whether `s` is one of `v`.
fn contains_string(v: &Vec<String>, s: &String) -> (b: bool)
    ensures
        b == string_views(v@).contains(s@),
{
    let mut k: usize = 0;
    while k < v.len()
        invariant
            k <= v@.len(),
            forall|j: int| 0 <= j < k ==> v@[j]@ != s@,
        decreases v@.len() - k,
    {
        if str_eq(v[k].as_str(), s.as_str()) {
            proof {
                assert(string_views(v@)[k as int] == s@);
            }
            return true;
        }
        k = k + 1;
    }
    proof {
        if string_views(v@).contains(s@) {
            let j = choose|j: int| 0 <= j < string_views(v@).len() && string_views(v@)[j] == s@;
            assert(v@[j]@ == s@);
        }
    }
    false
}

/// The annotators' merged coverage.
fn merge_coverage(anns: &Vec<Annotation>) -> (c: CriticalUnitCoverage)
    ensures
        merged_coverage(anns@, c),
{
    let mut covered: Vec<String> = Vec::new();
    let mut k: usize = 0;
    proof {
        assert(string_views(covered@) =~= Seq::<Seq<char>>::empty());
        assert(string_views(covered@).to_set() =~= Set::<Seq<char>>::empty());
        assert(anns@.take(0) =~= Seq::<Annotation>::empty());
    }
    while k < anns.len()
        invariant
            k <= anns@.len(),
            sorted_unique(string_views(covered@)),
            string_views(covered@).to_set() == covered_union(anns@.take(k as int)),
        decreases anns@.len() - k,
    {
        add_all(&mut covered, &anns[k].critical_unit_coverage.covered);
        proof {
            assert(anns@.take(k + 1).drop_last() =~= anns@.take(k as int));
        }
        k = k + 1;
    }
    proof {
        assert(anns@.take(anns@.len() as int) =~= anns@);
    }
    let mut missed: Vec<String> = Vec::new();
    proof {
        assert(string_views(missed@) =~= Seq::<Seq<char>>::empty());
        assert(string_views(missed@).to_set() =~= Set::<Seq<char>>::empty());
    }
    let ghost cu = covered_union(anns@);
    k = 0;
    while k < anns.len()
        invariant
            k <= anns@.len(),
            string_views(covered@).to_set() == cu,
            cu == covered_union(anns@),
            sorted_unique(string_views(missed@)),
            string_views(missed@).to_set() == missed_union(anns@.take(k as int)).difference(cu),
        decreases anns@.len() - k,
    {
        let items = &anns[k].critical_unit_coverage.missed;
        let ghost before = string_views(missed@).to_set();
        let mut t: usize = 0;
        while t < items.len()
            invariant
                t <= items@.len(),
                string_views(covered@).to_set() == cu,
                sorted_unique(string_views(missed@)),
                string_views(missed@).to_set() == before.union(string_views(items@.take(t as int)).to_set()).difference(cu),
            decreases items@.len() - t,
        {
            let ghost prev = string_views(missed@).to_set();
            let item = &items[t];
            proof {
                assert(string_views(items@.take(t + 1)) =~= string_views(items@.take(t as int)).push(item@));
                lemma_push_to_set(string_views(items@.take(t as int)), item@);
                assert(string_views(items@.take(t + 1)).to_set() =~= string_views(items@.take(t as int)).to_set().insert(item@));
            }
            if !contains_string(&covered, item) {
                insert_sorted_unique(&mut missed, copy_string(item));
                proof {
                    assert(string_views(missed@).to_set() =~= before.union(string_views(items@.take(t + 1)).to_set()).difference(cu));
                }
            } else {
                proof {
                    assert(cu.contains(item@));
                    assert(string_views(missed@).to_set() =~= before.union(string_views(items@.take(t + 1)).to_set()).difference(cu));
                }
            }
            t = t + 1;
        }
        proof {
            assert(items@.take(items@.len() as int) =~= items@);
            assert(anns@.take(k + 1).drop_last() =~= anns@.take(k as int));
            assert(string_views(missed@).to_set() =~= missed_union(anns@.take(k + 1)).difference(cu));
        }
        k = k + 1;
    }
    proof {
        assert(anns@.take(anns@.len() as int) =~= anns@);
    }
    CriticalUnitCoverage { covered, missed }
}

/// Largest number of obligations any annotator labelled.
fn max_obligation_count(anns: &Vec<Annotation>) -> (n: usize)
    ensures
        n == max_obligations(anns@),
{
    let mut n: usize = 0;
    let mut k: usize = 0;
    proof {
        assert(anns@.take(0) =~= Seq::<Annotation>::empty());
    }
    while k < anns.len()
        invariant
            k <= anns@.len(),
            n == max_obligations(anns@.take(k as int)),
        decreases anns@.len() - k,
    {
        let l = anns[k].generated_obligations.len();
        proof {
            assert(anns@.take(k + 1).drop_last() =~= anns@.take(k as int));
        }
        if l > n {
            n = l;
        }
        k = k + 1;
    }
    proof {
        assert(anns@.take(anns@.len() as int) =~= anns@);
    }
    n
}

/// What the annotators say of the obligation at `idx`: its faithfulness and
/// consistency labels, the number of vacuity votes and the number of votes,
/// in annotator order.
fn votes_at(anns: &Vec<Annotation>, idx: usize) -> (r: (Vec<FaithfulnessLabel>, Vec<ConsistencyLabel>, usize, usize))
    ensures
        r.0@ == faith_labels(obligations_at(anns@, idx as int)),
        r.1@ == cons_labels(obligations_at(anns@, idx as int)),
        r.2 == vacuous_votes(obligations_at(anns@, idx as int)),
        r.3 == obligations_at(anns@, idx as int).len(),
        r.2 <= r.3,
{
    let mut faith: Vec<FaithfulnessLabel> = Vec::new();
    let mut cons: Vec<ConsistencyLabel> = Vec::new();
    let mut vac: usize = 0;
    let mut total: usize = 0;
    let mut k: usize = 0;
    proof {
        assert(anns@.take(0) =~= Seq::<Annotation>::empty());
        assert(faith@ =~= faith_labels(obligations_at(anns@.take(0), idx as int)));
        assert(cons@ =~= cons_labels(obligations_at(anns@.take(0), idx as int)));
    }
    while k < anns.len()
        invariant
            k <= anns@.len(),
            faith@ == faith_labels(obligations_at(anns@.take(k as int), idx as int)),
            cons@ == cons_labels(obligations_at(anns@.take(k as int), idx as int)),
            vac == vacuous_votes(obligations_at(anns@.take(k as int), idx as int)),
            total == obligations_at(anns@.take(k as int), idx as int).len(),
            vac <= total,
            total <= k,
        decreases anns@.len() - k,
    {
        let ghost before = obligations_at(anns@.take(k as int), idx as int);
        proof {
            assert(anns@.take(k + 1).drop_last() =~= anns@.take(k as int));
            assert(anns@.take(k + 1).last() == anns@[k as int]);
        }
        let go = &anns[k].generated_obligations;
        if idx < go.len() {
            let o = &go[idx];
            faith.push(o.faithfulness_label);
            cons.push(o.consistency_label);
            if o.is_vacuous {
                vac = vac + 1;
            }
            total = total + 1;
            proof {
                let now = obligations_at(anns@.take(k + 1), idx as int);
                assert(now == before.push(go@[idx as int]));
                assert(now.drop_last() =~= before);
                assert(faith@ =~= faith_labels(now));
                assert(cons@ =~= cons_labels(now));
            }
        }
        k = k + 1;
    }
    proof {
        assert(anns@.take(anns@.len() as int) =~= anns@);
    }
    (faith, cons, vac, total)
}

/// The union of the units linked at `idx`, sorted, each once.
fn linked_at(anns: &Vec<Annotation>, idx: usize) -> (out: Vec<String>)
    ensures
        sorted_unique(string_views(out@)),
        string_views(out@).to_set() == linked_union(obligations_at(anns@, idx as int)),
{
    let mut out: Vec<String> = Vec::new();
    let mut k: usize = 0;
    proof {
        assert(anns@.take(0) =~= Seq::<Annotation>::empty());
        assert(string_views(out@) =~= Seq::<Seq<char>>::empty());
        assert(string_views(out@).to_set() =~= Set::<Seq<char>>::empty());
    }
    while k < anns.len()
        invariant
            k <= anns@.len(),
            sorted_unique(string_views(out@)),
            string_views(out@).to_set() == linked_union(obligations_at(anns@.take(k as int), idx as int)),
        decreases anns@.len() - k,
    {
        let ghost before = obligations_at(anns@.take(k as int), idx as int);
        proof {
            assert(anns@.take(k + 1).drop_last() =~= anns@.take(k as int));
            assert(anns@.take(k + 1).last() == anns@[k as int]);
        }
        let go = &anns[k].generated_obligations;
        if idx < go.len() {
            add_all(&mut out, &go[idx].linked_semantic_units);
            proof {
                let now = obligations_at(anns@.take(k + 1), idx as int);
                assert(now == before.push(go@[idx as int]));
                assert(now.drop_last() =~= before);
            }
        }
        k = k + 1;
    }
    proof {
        assert(anns@.take(anns@.len() as int) =~= anns@);
    }
    out
}

/// Whether `l` is among `ls`.
fn has_faith(ls: &Vec<FaithfulnessLabel>, l: FaithfulnessLabel) -> (b: bool)
    ensures
        b == (ls@.to_multiset().count(l) > 0),
{
    let mut k: usize = 0;
    while k < ls.len()
        invariant
            k <= ls@.len(),
            forall|j: int| 0 <= j < k ==> ls@[j] != l,
        decreases ls@.len() - k,
    {
        if ls[k] == l {
            proof {
                assert(ls@.contains(l));
            }
            return true;
        }
        k = k + 1;
    }
    proof {
        assert(!ls@.contains(l));
    }
    false
}

/// Per obligation position, how many faithfulness labels beyond the first
/// the annotators gave (nothing with fewer than two annotators).
pub fn count_disagreements(group: &AnnotatorGroup) -> (out: Vec<u32>)
    ensures
        out@ == disagreements(group.annotators@),
{
    let anns = &group.annotators;
    let mut out: Vec<u32> = Vec::new();
    if anns.len() < 2 {
        proof {
            assert(out@ =~= disagreements(anns@));
        }
        return out;
    }
    let n = max_obligation_count(anns);
    let mut idx: usize = 0;
    while idx < n
        invariant
            anns@.len() >= 2,
            n == max_obligations(anns@),
            idx <= n,
            out@ == disagreements(anns@).take(idx as int),
        decreases n - idx,
    {
        let (faith, _cons, _vac, _total) = votes_at(anns, idx);
        let mut d: u32 = 0;
        if has_faith(&faith, FaithfulnessLabel::Unfaithful) {
            d = d + 1;
        }
        if has_faith(&faith, FaithfulnessLabel::Ambiguous) {
            d = d + 1;
        }
        if has_faith(&faith, FaithfulnessLabel::Partial) {
            d = d + 1;
        }
        if has_faith(&faith, FaithfulnessLabel::Faithful) {
            d = d + 1;
        }
        let v: u32 = if d == 0 { 0 } else { d - 1 };
        out.push(v);
        proof {
            assert(d == distinct_faith(faith_labels(obligations_at(anns@, idx as int))));
            assert(out@ =~= disagreements(anns@).take(idx + 1));
        }
        idx = idx + 1;
    }
    proof {
        assert(disagreements(anns@).take(n as int) =~= disagreements(anns@));
    }
    out
}

/// The annotators' obligations merged position by position.
fn merge_obligations(anns: &Vec<Annotation>) -> (out: Vec<AnnotatedObligation>)
    ensures
        out@.len() == max_obligations(anns@),
        forall|idx: int| 0 <= idx < out@.len() ==> merged_obligation(anns@, idx, #[trigger] out@[idx]),
{
    let n = max_obligation_count(anns);
    let mut out: Vec<AnnotatedObligation> = Vec::new();
    let mut idx: usize = 0;
    while idx < n
        invariant
            n == max_obligations(anns@),
            idx <= n,
            out@.len() == idx,
            forall|j: int| 0 <= j < idx ==> merged_obligation(anns@, j, #[trigger] out@[j]),
        decreases n - idx,
    {
        let (faith, cons, vac, total) = votes_at(anns, idx);
        let faithfulness_label = mode_faith(faith.as_slice());
        let consistency_label = mode_cons(cons.as_slice());
        let linked = linked_at(anns, idx);
        let index: u32 = if idx <= 4294967295usize { idx as u32 } else { 4294967295u32 };
        let o = AnnotatedObligation {
            obligation_index: index,
            faithfulness_label,
            consistency_label,
            is_vacuous: vac > total - vac,
            linked_semantic_units: linked,
            notes: None,
        };
        let ghost before = out@;
        out.push(o);
        proof {
            assert(out@[idx as int] == o);
            assert forall|j: int| 0 <= j <= idx implies merged_obligation(anns@, j, #[trigger] out@[j]) by {
                if j < idx {
                    assert(out@[j] == before[j]);
                }
            }
        }
        idx = idx + 1;
    }
    out
}

/// The record synthesised by majority vote from the annotators.
fn synthesize_majority(annotators: Vec<Annotation>) -> (res: Result<Annotation, AnnotationError>)
    ensures
        annotators@.len() == 0 ==> (res matches Err(AnnotationError::MissingAdjudicator(i, s))
            && i@ == "(empty group)"@ && s@ == "(empty group)"@),
        annotators@.len() > 0 ==> (res matches Ok(a) && majority_record(annotators@, a)),
{
    if annotators.len() == 0 {
        return Err(AnnotationError::MissingAdjudicator("(empty group)".to_owned(), "(empty group)".to_owned()));
    }
    let ghost anns = annotators@;
    let coverage = merge_coverage(&annotators);
    let merged = merge_obligations(&annotators);
    let mut note = string_from_chars(&chars_of("synthesised via majority vote from "));
    let digits = decimal_string(annotators.len() as u64);
    push_all(&mut note, string_from_chars(&digits).as_str());
    push_all(&mut note, " annotators");
    let mut rest = annotators;
    let first = rest.remove(0);
    proof {
        assert(first == anns[0]);
    }
    let a = Annotation {
        schema_version: first.schema_version,
        rubric_version: first.rubric_version,
        instance_id: first.instance_id,
        system_id: first.system_id,
        annotator_id: "adjudicator".to_owned(),
        critical_unit_coverage: coverage,
        generated_obligations: merged,
        annotator_notes: Some(note),
    };
    Ok(a)
}

/// Adjudicates the annotations of one `(instance, system)` pair.
///
/// An empty group is an error. Under `PreferAdjudicator` the adjudicator's
/// record is used when there is one; without one, more than one annotator
/// is an error. Otherwise a single annotator's record is used as it is, and
/// several are merged by majority vote.
pub fn adjudicate_group(group: AnnotatorGroup, policy: AdjudicationPolicy) -> (res: Result<AdjudicatedRecord, AnnotationError>)
    ensures
        ({
            let anns = group.annotators@;
            let prefer = policy == AdjudicationPolicy::PreferAdjudicator;
            if anns.len() == 0 && group.adjudicator is None {
                res matches Err(AnnotationError::Empty(p)) && p@.len() == 0
            } else if prefer && group.adjudicator is Some {
                res matches Ok(r) && r.annotation == group.adjudicator->0 && r.from_adjudicator
                    && r.per_obligation_disagreements@ == disagreements(anns)
            } else if prefer && anns.len() > 1 {
                res matches Err(AnnotationError::MissingAdjudicator(i, s))
                    && i@ == anns[0].instance_id@ && s@ == anns[0].system_id@
            } else if anns.len() == 1 {
                res matches Ok(r) && r.annotation == anns[0] && !r.from_adjudicator
                    && r.per_obligation_disagreements@ == disagreements(anns)
            } else if anns.len() == 0 {
                res matches Err(AnnotationError::MissingAdjudicator(i, s))
                    && i@ == "(empty group)"@ && s@ == "(empty group)"@
            } else {
                res matches Ok(r) && majority_record(anns, r.annotation) && !r.from_adjudicator
                    && r.per_obligation_disagreements@ == disagreements(anns)
            }
        }),
{
    if group.is_empty() {
        return Err(AnnotationError::Empty(String::new()));
    }
    let per_obligation_disagreements = count_disagreements(&group);
    let ghost anns = group.annotators@;
    let AnnotatorGroup { annotators, adjudicator } = group;
    let prefer = match policy {
        AdjudicationPolicy::PreferAdjudicator => true,
        AdjudicationPolicy::AlwaysMajority => false,
    };
    if prefer {
        match adjudicator {
            Some(a) => {
                return Ok(AdjudicatedRecord { annotation: a, from_adjudicator: true, per_obligation_disagreements });
            },
            None => {},
        }
        if annotators.len() > 1 {
            let iid = string_from_chars(&chars_of(annotators[0].instance_id.as_str()));
            let sid = string_from_chars(&chars_of(annotators[0].system_id.as_str()));
            return Err(AnnotationError::MissingAdjudicator(iid, sid));
        }
    }
    if annotators.len() == 1 {
        let mut rest = annotators;
        let only = rest.remove(0);
        return Ok(AdjudicatedRecord { annotation: only, from_adjudicator: false, per_obligation_disagreements });
    }
    match synthesize_majority(annotators) {
        Ok(a) => Ok(AdjudicatedRecord { annotation: a, from_adjudicator: false, per_obligation_disagreements }),
        Err(e) => Err(e),
    }
}

/// The pack key of a record: its instance id, then its system id.
pub open spec fn record_key<T>(r: (Annotation, T)) -> (Seq<char>, Seq<char>) {
    (r.0.instance_id@, r.0.system_id@)
}

/// `s` with `x` inserted after every record whose key does not come after
/// its own.
pub open spec fn insert_record<T>(s: Seq<(Annotation, T)>, x: (Annotation, T)) -> Seq<(Annotation, T)>
    decreases s.len(),
{
    if s.len() == 0 {
        seq![x]
    } else if !pair_lt(record_key(x), record_key(s.last())) {
        s.push(x)
    } else {
        insert_record(s.drop_last(), x).push(s.last())
    }
}

/// `s` stably sorted by instance id, then system id.
pub open spec fn sort_records<T>(s: Seq<(Annotation, T)>) -> Seq<(Annotation, T)>
    decreases s.len(),
{
    if s.len() == 0 {
        Seq::empty()
    } else {
        insert_record(sort_records(s.drop_last()), s.last())
    }
}

/// Where `insert_record` puts `x`, found by scanning back from the end.
proof fn lemma_insert_record_at<T>(s: Seq<(Annotation, T)>, x: (Annotation, T), p: int)
    requires
        0 <= p <= s.len(),
        p == 0 || !pair_lt(record_key(x), record_key(s[p - 1])),
        forall|j: int| p <= j < s.len() ==> pair_lt(record_key(x), record_key(#[trigger] s[j])),
    ensures
        insert_record(s, x) == s.take(p).push(x) + s.skip(p),
    decreases s.len() - p,
{
    if s.len() == p {
        if s.len() == 0 {
            assert(s.take(p).push(x) + s.skip(p) =~= seq![x]);
        } else {
            assert(s.take(p) =~= s);
            assert(s.take(p).push(x) + s.skip(p) =~= s.push(x));
        }
    } else {
        assert(pair_lt(record_key(x), record_key(s.last())));
        let t = s.drop_last();
        assert forall|j: int| p <= j < t.len() implies pair_lt(record_key(x), record_key(#[trigger] t[j])) by {
            assert(t[j] == s[j]);
        }
        if p > 0 {
            assert(t[p - 1] == s[p - 1]);
        }
        lemma_insert_record_at(t, x, p);
        assert(t.take(p) =~= s.take(p));
        assert((t.take(p).push(x) + t.skip(p)).push(s.last()) =~= s.take(p).push(x) + s.skip(p));
    }
}

/// An adjudicated pack: the schema version, the rubric version of its first
/// record, and the records (each with what the caller keeps beside it, such
/// as its scores) ordered by instance id, then system id.
#[verifier::reject_recursive_types(T)]
pub struct AnnotationPack<T> {
    /// Schema version constant (`schema_v1`).
    pub schema_version: String,
    /// Rubric version of the first record.
    pub rubric_version: String,
    /// The records, ordered by instance id, then system id.
    pub records: Vec<(Annotation, T)>,
}

/// Packs adjudicated records, one per `(instance, system)` key: fails with
/// an empty-input error when there are none, else orders the records by
/// instance id, then system id, and takes the rubric version of the first
/// record in that order.
pub fn from_adjudicated<T>(records: Vec<(Annotation, T)>) -> (res: Result<AnnotationPack<T>, AnnotationError>)
    requires
        forall|i: int, j: int| 0 <= i < j < records@.len()
            ==> record_key(#[trigger] records@[i]) != record_key(#[trigger] records@[j]),
    ensures
        match res {
            Ok(p) => records@.len() > 0
                && p.schema_version@ == "schema_v1"@
                && p.records@ == sort_records(records@)
                && p.records@.len() == records@.len()
                && p.rubric_version@ == sort_records(records@)[0].0.rubric_version@,
            Err(AnnotationError::Empty(path)) => records@.len() == 0 && path@ == Seq::<char>::empty(),
            Err(_) => false,
        },
{
    if records.len() == 0 {
        return Err(AnnotationError::Empty(String::new()));
    }
    let ghost orig = records@;
    let ghost mut k: int = 0;
    let mut rest = records;
    let mut out: Vec<(Annotation, T)> = Vec::new();
    while rest.len() > 0
        invariant
            0 <= k <= orig.len(),
            rest@ == orig.skip(k),
            out@ == sort_records(orig.take(k)),
            out@.len() == k,
        decreases rest@.len(),
    {
        let x = rest.remove(0);
        let ghost s = out@;
        proof {
            assert(x == orig[k]);
            assert(orig.take(k + 1).drop_last() =~= orig.take(k));
            assert(orig.take(k + 1).last() == orig[k]);
            assert(orig.skip(k + 1) =~= orig.skip(k).remove(0));
        }
        let mut p = out.len();
        while p > 0 && pair_less(x.0.instance_id.as_str(), x.0.system_id.as_str(),
            out[p - 1].0.instance_id.as_str(), out[p - 1].0.system_id.as_str())
            invariant
                p <= out@.len(),
                s == out@,
                forall|j: int| p <= j < s.len() ==> pair_lt(record_key(x), record_key(#[trigger] s[j])),
            decreases p,
        {
            p = p - 1;
        }
        proof {
            lemma_insert_record_at(s, x, p as int);
        }
        out.insert(p, x);
        proof {
            assert(out@ =~= s.take(p as int).push(x) + s.skip(p as int));
            k = k + 1;
        }
    }
    proof {
        assert(orig.take(k) =~= orig);
    }
    let rubric_version = string_from_chars(&chars_of(out[0].0.rubric_version.as_str()));
    let schema_version = string_from_chars(&chars_of("schema_v1"));
    Ok(AnnotationPack { schema_version, rubric_version, records: out })
}

} // verus!
