use vstd::prelude::*;

verus! {

/// Algorithmic domain an instance belongs to.
#[derive(Debug, Clone, Copy, PartialEq, Eq, Structural, Hash, PartialOrd, Ord)]
pub enum Domain {
    /// Array and slice problems (search, partitioning, windowing).
    Arrays,
    /// Sorting algorithms and their invariants.
    Sorting,
    /// Graph algorithms (shortest path, connectivity, traversal).
    Graph,
    /// Greedy algorithms.
    Greedy,
    /// Dynamic programming.
    Dp,
    /// Tree / forest problems.
    Trees,
}

/// Canonical snake_case name of a domain.
pub open spec fn domain_name(d: Domain) -> Seq<char> {
    match d {
        Domain::Arrays => "arrays"@,
        Domain::Sorting => "sorting"@,
        Domain::Graph => "graph"@,
        Domain::Greedy => "greedy"@,
        Domain::Dp => "dp"@,
        Domain::Trees => "trees"@,
    }
}

impl Domain {
    /// All variants in declaration order.
    pub const ALL: [Domain; 6] = [
        Domain::Arrays,
        Domain::Sorting,
        Domain::Graph,
        Domain::Greedy,
        Domain::Dp,
        Domain::Trees,
    ];

    /// Canonical snake_case string form.
    pub fn as_str(self) -> (s: &'static str)
        ensures
            s@ == domain_name(self),
    {
        match self {
            Domain::Arrays => "arrays",
            Domain::Sorting => "sorting",
            Domain::Graph => "graph",
            Domain::Greedy => "greedy",
            Domain::Dp => "dp",
            Domain::Trees => "trees",
        }
    }
}

/// Difficulty level for calibration / split analysis.
#[derive(Debug, Clone, Copy, PartialEq, Eq, Structural, Hash, PartialOrd, Ord)]
pub enum Difficulty {
    /// Short, well-known problems.
    Easy,
    /// Non-trivial implementation.
    Medium,
    /// Conceptually subtle or adversarial.
    Hard,
}

/// Kind of Lean obligation.
#[derive(Debug, Clone, Copy, PartialEq, Eq, Structural, Hash, PartialOrd, Ord)]
pub enum ObligationKind {
    /// Input precondition.
    Precondition,
    /// Output postcondition.
    Postcondition,
    /// Loop or recursion invariant.
    Invariant,
    /// Termination argument.
    Termination,
    /// Bounds or complexity statement.
    Bounds,
    /// Uniqueness of a returned value.
    Uniqueness,
    /// Monotonicity property.
    Monotonicity,
    /// Optimality (greedy / DP).
    Optimality,
    /// Structural well-formedness of a data structure (`structural` on the wire).
    Structure,
    /// Auxiliary helper lemma.
    Auxiliary,
    /// Fallback when the generator did not classify.
    Unknown,
}

/// Annotator label for semantic faithfulness of a single obligation.
#[derive(Debug, Clone, Copy, PartialEq, Eq, Structural, Hash, PartialOrd, Ord)]
pub enum FaithfulnessLabel {
    /// Captures the intended meaning fully.
    Faithful,
    /// Captures part of the intended meaning but is incomplete.
    Partial,
    /// Does not reflect the intended meaning.
    Unfaithful,
    /// Could not be decided by the annotator (for adjudication).
    Ambiguous,
}

/// Annotator label for consistency with the reference Rust implementation.
#[derive(Debug, Clone, Copy, PartialEq, Eq, Structural, Hash, PartialOrd, Ord)]
pub enum ConsistencyLabel {
    /// Agrees with reference behavior.
    Consistent,
    /// Contradicted by reference behavior.
    Inconsistent,
    /// Not decidable from behavior alone.
    NotApplicable,
}

/// Importance ranking of a reference obligation.
#[derive(Debug, Clone, Copy, PartialEq, Eq, Structural, Hash, PartialOrd, Ord)]
pub enum Importance {
    /// Must be captured for a faithful obligation set.
    Critical,
    /// Strengthens the set but not required.
    Supporting,
    /// Nice to have.
    Optional,
}

/// Relevance of an obligation to a machine-checkable proof.
#[derive(Debug, Clone, Copy, PartialEq, Eq, Structural, Hash, PartialOrd, Ord)]
pub enum ProofRelevance {
    /// Directly proves part of the main theorem.
    Direct,
    /// Used as an auxiliary lemma.
    Auxiliary,
    /// Not used in any proof obligation (`none` on the wire).
    Unused,
}

} // verus!
