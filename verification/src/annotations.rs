use vstd::prelude::*;
use crate::text::str_eq;

verus! {

broadcast use vstd::seq_lib::group_to_multiset_ensures;

/// Faithfulness label, ordered `Unfaithful < Partial < Ambiguous < Faithful`
/// (the order of ordinal statistics, and of ties in a majority vote).
#[derive(Debug, Clone, Copy, PartialEq, Eq, Structural, Hash, PartialOrd, Ord)]
pub enum FaithfulnessLabel {
    /// The obligation misrepresents the semantics.
    Unfaithful,
    /// The obligation captures semantics only partially.
    Partial,
    /// The annotator could not decide.
    Ambiguous,
    /// The obligation faithfully captures the semantics.
    Faithful,
}

/// Canonical name of a faithfulness label.
pub open spec fn faithfulness_name(l: FaithfulnessLabel) -> Seq<char> {
    match l {
        FaithfulnessLabel::Faithful => "faithful"@,
        FaithfulnessLabel::Partial => "partial"@,
        FaithfulnessLabel::Unfaithful => "unfaithful"@,
        FaithfulnessLabel::Ambiguous => "ambiguous"@,
    }
}

/// The label whose canonical name is `s`, if any.
pub open spec fn faithfulness_from_name(s: Seq<char>) -> Option<FaithfulnessLabel> {
    if s == "faithful"@ {
        Some(FaithfulnessLabel::Faithful)
    } else if s == "partial"@ {
        Some(FaithfulnessLabel::Partial)
    } else if s == "unfaithful"@ {
        Some(FaithfulnessLabel::Unfaithful)
    } else if s == "ambiguous"@ {
        Some(FaithfulnessLabel::Ambiguous)
    } else {
        None
    }
}

/// Ordinal rank of a faithfulness label.
pub open spec fn faithfulness_rank(l: FaithfulnessLabel) -> int {
    match l {
        FaithfulnessLabel::Unfaithful => 0,
        FaithfulnessLabel::Partial => 1,
        FaithfulnessLabel::Ambiguous => 2,
        FaithfulnessLabel::Faithful => 3,
    }
}

impl FaithfulnessLabel {
    /// Parses the canonical string form; `None` for any other string.
    pub fn parse(s: &str) -> (res: Option<Self>)
        ensures
            res == faithfulness_from_name(s@),
    {
        if str_eq(s, "faithful") {
            Some(FaithfulnessLabel::Faithful)
        } else if str_eq(s, "partial") {
            Some(FaithfulnessLabel::Partial)
        } else if str_eq(s, "unfaithful") {
            Some(FaithfulnessLabel::Unfaithful)
        } else if str_eq(s, "ambiguous") {
            Some(FaithfulnessLabel::Ambiguous)
        } else {
            None
        }
    }

    /// Canonical string form.
    pub fn as_str(self) -> (s: &'static str)
        ensures
            s@ == faithfulness_name(self),
    {
        match self {
            FaithfulnessLabel::Faithful => "faithful",
            FaithfulnessLabel::Partial => "partial",
            FaithfulnessLabel::Unfaithful => "unfaithful",
            FaithfulnessLabel::Ambiguous => "ambiguous",
        }
    }

    /// Ordinal rank in `[0, 4)`, matching the label order
    /// `Unfaithful < Partial < Ambiguous < Faithful`.
    pub fn ord(self) -> (r: u8)
        ensures
            r == faithfulness_rank(self),
    {
        match self {
            FaithfulnessLabel::Unfaithful => 0,
            FaithfulnessLabel::Partial => 1,
            FaithfulnessLabel::Ambiguous => 2,
            FaithfulnessLabel::Faithful => 3,
        }
    }
}

/// Parsing the canonical name of a faithfulness label gives the label back.
pub proof fn lemma_faithfulness_round_trip(l: FaithfulnessLabel)
    ensures
        faithfulness_from_name(faithfulness_name(l)) == Some(l),
{
    reveal_strlit("faithful");
    reveal_strlit("partial");
    reveal_strlit("unfaithful");
    reveal_strlit("ambiguous");
    assert("faithful"@.len() == 8);
    assert("partial"@.len() == 7);
    assert("unfaithful"@.len() == 10);
    assert("ambiguous"@.len() == 9);
}

/// Consistency label, ordered `Consistent < Inconsistent < NotApplicable`.
#[derive(Debug, Clone, Copy, PartialEq, Eq, Structural, Hash, PartialOrd, Ord)]
pub enum ConsistencyLabel {
    /// The obligation is consistent with the reference Rust implementation.
    Consistent,
    /// The obligation contradicts the reference.
    Inconsistent,
    /// The obligation is structural and does not apply.
    NotApplicable,
}

/// Canonical name of a consistency label.
pub open spec fn consistency_name(l: ConsistencyLabel) -> Seq<char> {
    match l {
        ConsistencyLabel::Consistent => "consistent"@,
        ConsistencyLabel::Inconsistent => "inconsistent"@,
        ConsistencyLabel::NotApplicable => "not_applicable"@,
    }
}

/// The consistency label whose canonical name is `s`, if any.
pub open spec fn consistency_from_name(s: Seq<char>) -> Option<ConsistencyLabel> {
    if s == "consistent"@ {
        Some(ConsistencyLabel::Consistent)
    } else if s == "inconsistent"@ {
        Some(ConsistencyLabel::Inconsistent)
    } else if s == "not_applicable"@ {
        Some(ConsistencyLabel::NotApplicable)
    } else {
        None
    }
}

/// Rank of a consistency label in its order.
pub open spec fn consistency_rank(l: ConsistencyLabel) -> int {
    match l {
        ConsistencyLabel::Consistent => 0,
        ConsistencyLabel::Inconsistent => 1,
        ConsistencyLabel::NotApplicable => 2,
    }
}

impl ConsistencyLabel {
    /// Parses the canonical string form; `None` for any other string.
    pub fn parse(s: &str) -> (res: Option<Self>)
        ensures
            res == consistency_from_name(s@),
    {
        if str_eq(s, "consistent") {
            Some(ConsistencyLabel::Consistent)
        } else if str_eq(s, "inconsistent") {
            Some(ConsistencyLabel::Inconsistent)
        } else if str_eq(s, "not_applicable") {
            Some(ConsistencyLabel::NotApplicable)
        } else {
            None
        }
    }

    /// Canonical string form.
    pub fn as_str(self) -> (s: &'static str)
        ensures
            s@ == consistency_name(self),
    {
        match self {
            ConsistencyLabel::Consistent => "consistent",
            ConsistencyLabel::Inconsistent => "inconsistent",
            ConsistencyLabel::NotApplicable => "not_applicable",
        }
    }
}

/// Parsing the canonical name of a consistency label gives the label back.
pub proof fn lemma_consistency_round_trip(l: ConsistencyLabel)
    ensures
        consistency_from_name(consistency_name(l)) == Some(l),
{
    reveal_strlit("consistent");
    reveal_strlit("inconsistent");
    reveal_strlit("not_applicable");
    assert("consistent"@.len() == 10);
    assert("inconsistent"@.len() == 12);
    assert("not_applicable"@.len() == 14);
}

/// Majority faithfulness label: the most frequent one, ties going to the
/// higher label, `Ambiguous` when there is none.
pub fn mode_faith(labels: &[FaithfulnessLabel]) -> (res: FaithfulnessLabel)
    ensures
        labels@.len() == 0 ==> res == FaithfulnessLabel::Ambiguous,
        labels@.len() > 0 ==> labels@.to_multiset().count(res) > 0,
        forall|l: FaithfulnessLabel| #[trigger] labels@.to_multiset().count(l) <= labels@.to_multiset().count(res),
        forall|l: FaithfulnessLabel| #[trigger] labels@.to_multiset().count(l) == labels@.to_multiset().count(res)
            && labels@.len() > 0 ==> faithfulness_rank(l) <= faithfulness_rank(res),
{
    let all = [
        FaithfulnessLabel::Unfaithful,
        FaithfulnessLabel::Partial,
        FaithfulnessLabel::Ambiguous,
        FaithfulnessLabel::Faithful,
    ];
    let ghost m = labels@.to_multiset();
    let mut best = FaithfulnessLabel::Ambiguous;
    let mut best_count: usize = 0;
    let mut r: usize = 0;
    while r < 4
        invariant
            0 <= r <= 4,
            m == labels@.to_multiset(),
            all@ == seq![FaithfulnessLabel::Unfaithful, FaithfulnessLabel::Partial,
                FaithfulnessLabel::Ambiguous, FaithfulnessLabel::Faithful],
            best_count > 0 ==> best_count == m.count(best),
            best_count == 0 ==> best == FaithfulnessLabel::Ambiguous,
            best_count > 0 ==> faithfulness_rank(best) < r,
            forall|k: int| 0 <= k < r ==> #[trigger] m.count(all@[k]) <= best_count,
            forall|k: int| 0 <= k < r && m.count(all@[k]) == best_count && best_count > 0
                ==> faithfulness_rank(#[trigger] all@[k]) <= faithfulness_rank(best),
        decreases 4 - r,
    {
        let l = all[r];
        let c = count_faith(labels, l);
        if c > 0 && c >= best_count {
            best = l;
            best_count = c;
        }
        r = r + 1;
    }
    proof {
        assert forall|l: FaithfulnessLabel| #[trigger] m.count(l) <= m.count(best) by {
            match l {
                FaithfulnessLabel::Unfaithful => assert(all@[0] == l),
                FaithfulnessLabel::Ambiguous => assert(all@[2] == l),
                FaithfulnessLabel::Partial => assert(all@[1] == l),
                FaithfulnessLabel::Faithful => assert(all@[3] == l),
            }
        }
        assert forall|l: FaithfulnessLabel| #[trigger] m.count(l) == m.count(best) && labels@.len() > 0
            implies faithfulness_rank(l) <= faithfulness_rank(best) by {
            match l {
                FaithfulnessLabel::Unfaithful => assert(all@[0] == l),
                FaithfulnessLabel::Ambiguous => assert(all@[2] == l),
                FaithfulnessLabel::Partial => assert(all@[1] == l),
                FaithfulnessLabel::Faithful => assert(all@[3] == l),
            }
            if best_count == 0 {
                lemma_nonempty_has_count(labels@);
                let x = labels@[0];
                match x {
                    FaithfulnessLabel::Unfaithful => assert(all@[0] == x),
                    FaithfulnessLabel::Ambiguous => assert(all@[2] == x),
                    FaithfulnessLabel::Partial => assert(all@[1] == x),
                    FaithfulnessLabel::Faithful => assert(all@[3] == x),
                }
            }
        }
        if labels@.len() > 0 && best_count == 0 {
            lemma_nonempty_has_count(labels@);
            let x = labels@[0];
            match x {
                FaithfulnessLabel::Unfaithful => assert(all@[0] == x),
                FaithfulnessLabel::Ambiguous => assert(all@[2] == x),
                FaithfulnessLabel::Partial => assert(all@[1] == x),
                FaithfulnessLabel::Faithful => assert(all@[3] == x),
            }
        }
        if labels@.len() == 0 {
            assert(labels@ =~= Seq::<FaithfulnessLabel>::empty());
        }
    }
    best
}

/// The first entry of a non-empty sequence occurs in it.
proof fn lemma_nonempty_has_count<A>(s: Seq<A>)
    requires
        s.len() > 0,
    ensures
        s.to_multiset().count(s[0]) > 0,
{
    assert(s.contains(s[0]));
    vstd::seq_lib::lemma_seq_contains_after_push(s, s[0], s[0]);
    s.to_multiset_ensures();
}

/// Number of entries equal to `l`.
fn count_faith(labels: &[FaithfulnessLabel], l: FaithfulnessLabel) -> (c: usize)
    ensures
        c == labels@.to_multiset().count(l),
{
    let mut c: usize = 0;
    let mut i: usize = 0;
    while i < labels.len()
        invariant
            0 <= i <= labels@.len(),
            c == labels@.take(i as int).to_multiset().count(l),
            c <= i,
        decreases labels@.len() - i,
    {
        proof {
            assert(labels@.take(i + 1) == labels@.take(i as int).push(labels@[i as int]));
        }
        if labels[i] == l {
            c = c + 1;
        }
        i = i + 1;
    }
    proof {
        assert(labels@.take(labels@.len() as int) == labels@);
    }
    c
}

/// Majority consistency label: the most frequent one, ties going to the higher
/// label, `NotApplicable` when there is none.
pub fn mode_cons(labels: &[ConsistencyLabel]) -> (res: ConsistencyLabel)
    ensures
        labels@.len() == 0 ==> res == ConsistencyLabel::NotApplicable,
        labels@.len() > 0 ==> labels@.to_multiset().count(res) > 0,
        forall|l: ConsistencyLabel| #[trigger] labels@.to_multiset().count(l) <= labels@.to_multiset().count(res),
        forall|l: ConsistencyLabel| #[trigger] labels@.to_multiset().count(l) == labels@.to_multiset().count(res)
            && labels@.len() > 0 ==> consistency_rank(l) <= consistency_rank(res),
{
    let all = [ConsistencyLabel::Consistent, ConsistencyLabel::Inconsistent, ConsistencyLabel::NotApplicable];
    let ghost m = labels@.to_multiset();
    let mut best = ConsistencyLabel::NotApplicable;
    let mut best_count: usize = 0;
    let mut r: usize = 0;
    while r < 3
        invariant
            0 <= r <= 3,
            m == labels@.to_multiset(),
            all@ == seq![ConsistencyLabel::Consistent, ConsistencyLabel::Inconsistent, ConsistencyLabel::NotApplicable],
            best_count > 0 ==> best_count == m.count(best),
            best_count == 0 ==> best == ConsistencyLabel::NotApplicable,
            best_count > 0 ==> consistency_rank(best) < r,
            forall|k: int| 0 <= k < r ==> #[trigger] m.count(all@[k]) <= best_count,
            forall|k: int| 0 <= k < r && m.count(all@[k]) == best_count && best_count > 0
                ==> consistency_rank(#[trigger] all@[k]) <= consistency_rank(best),
        decreases 3 - r,
    {
        let l = all[r];
        let c = count_cons(labels, l);
        if c > 0 && c >= best_count {
            best = l;
            best_count = c;
        }
        r = r + 1;
    }
    proof {
        assert forall|l: ConsistencyLabel| #[trigger] m.count(l) <= m.count(best) by {
            match l {
                ConsistencyLabel::Consistent => assert(all@[0] == l),
                ConsistencyLabel::Inconsistent => assert(all@[1] == l),
                ConsistencyLabel::NotApplicable => assert(all@[2] == l),
            }
        }
        assert forall|l: ConsistencyLabel| #[trigger] m.count(l) == m.count(best) && labels@.len() > 0
            implies consistency_rank(l) <= consistency_rank(best) by {
            match l {
                ConsistencyLabel::Consistent => assert(all@[0] == l),
                ConsistencyLabel::Inconsistent => assert(all@[1] == l),
                ConsistencyLabel::NotApplicable => assert(all@[2] == l),
            }
            if best_count == 0 {
                lemma_nonempty_has_count(labels@);
                let x = labels@[0];
                match x {
                    ConsistencyLabel::Consistent => assert(all@[0] == x),
                    ConsistencyLabel::Inconsistent => assert(all@[1] == x),
                    ConsistencyLabel::NotApplicable => assert(all@[2] == x),
                }
            }
        }
        if labels@.len() > 0 && best_count == 0 {
            lemma_nonempty_has_count(labels@);
            let x = labels@[0];
            match x {
                ConsistencyLabel::Consistent => assert(all@[0] == x),
                ConsistencyLabel::Inconsistent => assert(all@[1] == x),
                ConsistencyLabel::NotApplicable => assert(all@[2] == x),
            }
        }
        if labels@.len() == 0 {
            assert(labels@ =~= Seq::<ConsistencyLabel>::empty());
        }
    }
    best
}

/// Number of entries equal to `l`.
fn count_cons(labels: &[ConsistencyLabel], l: ConsistencyLabel) -> (c: usize)
    ensures
        c == labels@.to_multiset().count(l),
{
    let mut c: usize = 0;
    let mut i: usize = 0;
    while i < labels.len()
        invariant
            0 <= i <= labels@.len(),
            c == labels@.take(i as int).to_multiset().count(l),
            c <= i,
        decreases labels@.len() - i,
    {
        proof {
            assert(labels@.take(i + 1) == labels@.take(i as int).push(labels@[i as int]));
        }
        if labels[i] == l {
            c = c + 1;
        }
        i = i + 1;
    }
    proof {
        assert(labels@.take(labels@.len() as int) == labels@);
    }
    c
}

/// Policy used when picking a canonical record out of a multi-annotator group.
#[derive(Debug, Clone, Copy, PartialEq, Eq)]
pub enum AdjudicationPolicy {
    /// Prefer the adjudicator record if present, otherwise fall back to the
    /// majority vote across annotators.
    PreferAdjudicator,
    /// Ignore the adjudicator record and always reduce via majority vote.
    AlwaysMajority,
}

/// Critical-unit coverage record.
#[derive(Debug, Clone)]
pub struct CriticalUnitCoverage {
    /// Semantic units covered by the generated set.
    pub covered: Vec<String>,
    /// Semantic units missed by the generated set.
    pub missed: Vec<String>,
}

/// Per-obligation annotator labels.
#[derive(Debug, Clone)]
pub struct AnnotatedObligation {
    /// Index into the generated obligation list.
    pub obligation_index: u32,
    /// Faithfulness label.
    pub faithfulness_label: FaithfulnessLabel,
    /// Consistency label.
    pub consistency_label: ConsistencyLabel,
    /// Vacuity flag.
    pub is_vacuous: bool,
    /// Linked semantic units.
    pub linked_semantic_units: Vec<String>,
    /// Free-form notes.
    pub notes: Option<String>,
}

} // verus!
