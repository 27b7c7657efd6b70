use vstd::prelude::*;
use crate::text::str_eq;

verus! {

/// Errors produced by the behavioral harness (apart from JSON failures).
#[derive(Debug)]
pub enum BehaviorError {
    /// The harness config references an unknown input generator.
    UnknownGenerator(String),
    /// The harness config references an oracle check that is unknown.
    UnknownOracleCheck(String),
    /// No adapter has been registered for the given instance id.
    UnknownInstance(String),
    /// Input generator failed to produce a valid input.
    Generator(String),
}

/// Harness kind.
#[derive(Debug, Clone, Copy, PartialEq, Eq, Structural)]
pub enum HarnessKind {
    /// Exact per-input output comparison.
    ExactOutput,
    /// Randomized property-based checks.
    PropertyBased,
    /// Compare against a trusted reference on small inputs.
    ReferenceRelational,
    /// Focused edge-case battery.
    EdgeCase,
}

/// A single falsification record.
#[derive(Debug, Clone)]
pub struct Falsification {
    /// Oracle check that failed.
    pub oracle_check: String,
    /// Compact input representation.
    pub input_repr: String,
    /// Observed output (compact).
    pub observed: String,
    /// Expected behavior description.
    pub expected: String,
    /// Trial index (0-based) at which the falsification was first observed.
    pub trial: u32,
}

/// Aggregate stats for a single oracle check.
#[derive(Debug, Clone)]
pub struct OracleCheckStats {
    /// Check name.
    pub name: String,
    /// How many trials this check was evaluated against.
    pub trials_evaluated: u32,
    /// How many trials this check rejected.
    pub violations: u32,
}

/// Report summarizing a harness run.
#[derive(Debug, Clone)]
pub struct HarnessReport {
    /// Instance id the run targeted.
    pub instance_id: String,
    /// Config seed (propagated for reproducibility).
    pub seed: u64,
    /// Total trials executed.
    pub trials_run: u32,
    /// Per-oracle stats.
    pub oracle_stats: Vec<OracleCheckStats>,
    /// First falsification seen for each oracle (at most one per oracle).
    pub falsifications: Vec<Falsification>,
}

impl HarnessReport {
    /// Whether any falsification was observed.
    pub fn any_falsified(&self) -> (b: bool)
        ensures
            b == (self.falsifications@.len() > 0),
    {
        self.falsifications.len() > 0
    }
}

/// Position of the first entry of `names` equal to `name`.
#[verifier::opaque]
pub open spec fn first_index(names: Seq<Seq<char>>, name: Seq<char>) -> Option<int> {
    if exists|i: int| 0 <= i < names.len() && #[trigger] names[i] == name {
        Some(choose|i: int| 0 <= i < names.len() && #[trigger] names[i] == name
            && forall|j: int| 0 <= j < i ==> names[j] != name)
    } else {
        None
    }
}

/// Per-oracle bookkeeping inside a trial loop.
pub struct OracleState {
    stats: Vec<OracleCheckStats>,
    falsifications: Vec<Falsification>,
    oracle_names: Vec<String>,
}

impl OracleState {
    /// Names of the configured oracle checks, in configuration order.
    pub closed spec fn names(&self) -> Seq<Seq<char>> {
        self.oracle_names@.map_values(|s: String| s@)
    }

    /// `(trials_evaluated, violations)` of each configured check.
    pub closed spec fn counts(&self) -> Seq<(u32, u32)> {
        self.stats@.map_values(|s: OracleCheckStats| (s.trials_evaluated, s.violations))
    }

    /// Recorded falsifications, as `(oracle, input, observed, expected, trial)`.
    pub closed spec fn records(&self) -> Seq<(Seq<char>, Seq<char>, Seq<char>, Seq<char>, u32)> {
        self.falsifications@.map_values(|f: Falsification| (f.oracle_check@, f.input_repr@, f.observed@, f.expected@, f.trial))
    }

    /// One stats entry per configured check, named after it.
    pub closed spec fn well_formed(&self) -> bool {
        &&& self.stats@.len() == self.oracle_names@.len()
        &&& forall|i: int| 0 <= i < self.stats@.len() ==> (#[trigger] self.stats@[i]).name@ == self.oracle_names@[i]@
            && self.stats@[i].violations <= self.stats@[i].trials_evaluated
    }

    /// A well-formed state has one counter per configured name, and no
    /// check was rejected more often than it was evaluated.
    pub proof fn lemma_counts_match_names(&self)
        requires
            self.well_formed(),
        ensures
            self.counts().len() == self.names().len(),
            forall|i: int| 0 <= i < self.counts().len() ==> (#[trigger] self.counts()[i]).1 <= self.counts()[i].0,
    {
        assert forall|i: int| 0 <= i < self.counts().len() implies (#[trigger] self.counts()[i]).1 <= self.counts()[i].0 by {
            assert(self.counts()[i] == (self.stats@[i].trials_evaluated, self.stats@[i].violations));
        }
    }

    /// Fresh state: every configured check at zero, no falsification.
    pub fn new(oracle_names: &[String]) -> (st: Self)
        ensures
            st.well_formed(),
            st.names() == oracle_names@.map_values(|s: String| s@),
            st.counts() == Seq::new(oracle_names@.len(), |i: int| (0u32, 0u32)),
            st.records().len() == 0,
    {
        let mut stats: Vec<OracleCheckStats> = Vec::new();
        let mut names: Vec<String> = Vec::new();
        let mut i: usize = 0;
        while i < oracle_names.len()
            invariant
                0 <= i <= oracle_names@.len(),
                stats@.len() == i,
                names@.len() == i,
                forall|j: int| 0 <= j < i ==> (#[trigger] stats@[j]).name@ == oracle_names@[j]@
                    && stats@[j].trials_evaluated == 0 && stats@[j].violations == 0,
                forall|j: int| 0 <= j < i ==> (#[trigger] names@[j])@ == oracle_names@[j]@,
            decreases oracle_names@.len() - i,
        {
            stats.push(OracleCheckStats { name: oracle_names[i].clone(), trials_evaluated: 0, violations: 0 });
            names.push(oracle_names[i].clone());
            i = i + 1;
        }
        let st = OracleState { stats, falsifications: Vec::new(), oracle_names: names };
        assert(st.names() =~= oracle_names@.map_values(|s: String| s@));
        assert(st.counts() =~= Seq::new(oracle_names@.len(), |i: int| (0u32, 0u32)));
        assert(st.records() =~= Seq::empty());
        st
    }

    /// Records the outcome of check `name` at `trial`: `Ok(())` when it held,
    /// `Err((observed, expected))` when it was falsified. Checks that are not
    /// configured are ignored; only the first falsification of each check is
    /// kept.
    pub fn check(&mut self, name: &str, trial: u32, input_repr: &str, outcome: Result<(), (String, String)>)
        requires
            old(self).well_formed(),
            match first_index(old(self).names(), name@) {
                Some(p) => old(self).counts()[p].0 < u32::MAX,
                None => true,
            },
        ensures
            final(self).well_formed(),
            final(self).names() == old(self).names(),
            match first_index(old(self).names(), name@) {
                None => final(self).counts() == old(self).counts() && final(self).records() == old(self).records(),
                Some(p) => {
                    &&& final(self).counts() == old(self).counts().update(p, (
                        (old(self).counts()[p].0 + 1) as u32,
                        if outcome is Err { (old(self).counts()[p].1 + 1) as u32 } else { old(self).counts()[p].1 },
                    ))
                    &&& final(self).records() == match outcome {
                        Err((obs, exp)) => if exists|k: int| 0 <= k < old(self).records().len()
                            && (#[trigger] old(self).records()[k]).0 == name@ {
                            old(self).records()
                        } else {
                            old(self).records().push((name@, input_repr@, obs@, exp@, trial))
                        },
                        Ok(_) => old(self).records(),
                    }
                },
            },
    {
        reveal(first_index);
        let ghost names = self.names();
        let n = self.oracle_names.len();
        let mut p: usize = 0;
        while p < n
            invariant_except_break
                self.well_formed(),
                names == self.names(),
                n == self.oracle_names@.len(),
                0 <= p <= n,
                forall|j: int| 0 <= j < p ==> #[trigger] names[j] != name@,
            ensures
                0 <= p <= n,
                forall|j: int| 0 <= j < p ==> #[trigger] names[j] != name@,
                p < n ==> names[p as int] == name@,
            decreases n - p,
        {
            proof {
                assert(names[p as int] == self.oracle_names@[p as int]@);
            }
            if str_eq(self.oracle_names[p].as_str(), name) {
                break;
            }
            p = p + 1;
        }
        if p == n {
            proof {
                assert(!(exists|i: int| 0 <= i < names.len() && #[trigger] names[i] == name@));
            }
            return;
        }
        proof {
            assert(names[p as int] == name@);
            let q = first_index(names, name@)->0;
            if q < p {
                assert(names[q] != name@);
            }
            if q > p {
                assert(names[p as int] != name@);
            }
        }
        let ghost old_counts = self.counts();
        let ghost old_records = self.records();
        let falsified = outcome.is_err();
        proof {
            assert(old_counts[p as int] == (self.stats@[p as int].trials_evaluated, self.stats@[p as int].violations));
            assert(old_counts[p as int].0 < u32::MAX);
        }
        let st = OracleCheckStats {
            name: self.stats[p].name.clone(),
            trials_evaluated: self.stats[p].trials_evaluated + 1,
            violations: if falsified { self.stats[p].violations + 1 } else { self.stats[p].violations },
        };
        proof {
            assert(old_counts[p as int] == (self.stats@[p as int].trials_evaluated, self.stats@[p as int].violations));
        }
        self.stats.set(p, st);
        proof {
            assert(self.counts() =~= old_counts.update(p as int, (
                (old_counts[p as int].0 + 1) as u32,
                if outcome is Err { (old_counts[p as int].1 + 1) as u32 } else { old_counts[p as int].1 },
            )));
        }
        match outcome {
            Err((observed, expected)) => {
                let mut already = false;
                let mut k: usize = 0;
                while k < self.falsifications.len()
                    invariant
                        old_records == self.records(),
                        0 <= k <= old_records.len(),
                        already == exists|t: int| 0 <= t < k && (#[trigger] old_records[t]).0 == name@,
                    decreases old_records.len() - k,
                {
                    proof {
                        assert(old_records[k as int].0 == self.falsifications@[k as int].oracle_check@);
                    }
                    if str_eq(self.falsifications[k].oracle_check.as_str(), name) {
                        already = true;
                    }
                    k = k + 1;
                }
                if !already {
                    let f = Falsification {
                        oracle_check: name.to_owned(),
                        input_repr: input_repr.to_owned(),
                        observed,
                        expected,
                        trial,
                    };
                    self.falsifications.push(f);
                    proof {
                        assert(self.records() =~= old_records.push((name@, input_repr@, observed@, expected@, trial)));
                    }
                }
            },
            Ok(_) => {},
        }
    }

    /// The report of a finished run.
    pub fn finalize(self, seed: u64, num_trials: u32, instance_id: &str) -> (r: HarnessReport)
        ensures
            r.instance_id@ == instance_id@,
            r.seed == seed,
            r.trials_run == num_trials,
            r.oracle_stats@.map_values(|s: OracleCheckStats| (s.trials_evaluated, s.violations)) == self.counts(),
            r.oracle_stats@.map_values(|s: OracleCheckStats| s.name@) == self.names() || !self.well_formed(),
            r.falsifications@.map_values(|f: Falsification| (f.oracle_check@, f.input_repr@, f.observed@, f.expected@, f.trial)) == self.records(),
    {
        let r = HarnessReport {
            instance_id: instance_id.to_owned(),
            seed,
            trials_run: num_trials,
            oracle_stats: self.stats,
            falsifications: self.falsifications,
        };
        proof {
            if self.well_formed() {
                assert(r.oracle_stats@.map_values(|s: OracleCheckStats| s.name@) =~= self.names());
            }
        }
        r
    }
}

/// Every configured check name is one of `known`.
pub open spec fn all_known(config: Seq<Seq<char>>, known: Seq<Seq<char>>) -> bool {
    forall|i: int| 0 <= i < config.len() ==> known.contains(#[trigger] config[i])
}

/// Rejects unknown oracle checks, so a misconfiguration cannot go unnoticed:
/// the first configured name that is not known is reported.
pub fn require_known_oracles(oracle_checks: &[String], known: &[&str]) -> (res: Result<(), BehaviorError>)
    ensures
        match res {
            Ok(_) => all_known(oracle_checks@.map_values(|s: String| s@), known@.map_values(|s: &str| s@)),
            Err(BehaviorError::UnknownOracleCheck(name)) => exists|i: int| 0 <= i < oracle_checks@.len()
                && oracle_checks@[i]@ == name@
                && !known@.map_values(|s: &str| s@).contains(name@)
                && all_known(oracle_checks@.take(i).map_values(|s: String| s@), known@.map_values(|s: &str| s@)),
            Err(_) => false,
        },
{
    let ghost kn = known@.map_values(|s: &str| s@);
    let mut i: usize = 0;
    while i < oracle_checks.len()
        invariant
            kn == known@.map_values(|s: &str| s@),
            0 <= i <= oracle_checks@.len(),
            all_known(oracle_checks@.take(i as int).map_values(|s: String| s@), kn),
        decreases oracle_checks@.len() - i,
    {
        let o = oracle_checks[i].as_str();
        let mut found = false;
        let mut k: usize = 0;
        while k < known.len()
            invariant
                kn == known@.map_values(|s: &str| s@),
                0 <= k <= known@.len(),
                o@ == oracle_checks@[i as int]@,
                found == exists|t: int| 0 <= t < k && #[trigger] kn[t] == o@,
            decreases known@.len() - k,
        {
            proof {
                assert(kn[k as int] == known@[k as int]@);
            }
            if str_eq(known[k], o) {
                found = true;
            }
            k = k + 1;
        }
        if !found {
            proof {
                if kn.contains(o@) {
                    let t = choose|t: int| 0 <= t < kn.len() && kn[t] == o@;
                }
            }
            return Err(BehaviorError::UnknownOracleCheck(oracle_checks[i].clone()));
        }
        proof {
            let t = choose|t: int| 0 <= t < k && #[trigger] kn[t] == o@;
            let pre = oracle_checks@.take(i + 1).map_values(|s: String| s@);
            assert forall|j: int| 0 <= j < pre.len() implies kn.contains(#[trigger] pre[j]) by {
                if j < i {
                    assert(pre[j] == oracle_checks@.take(i as int).map_values(|s: String| s@)[j]);
                } else {
                    assert(kn[t] == pre[j]);
                }
            }
        }
        i = i + 1;
    }
    proof {
        assert(oracle_checks@.take(oracle_checks@.len() as int) == oracle_checks@);
    }
    Ok(())
}

/// Clamps a length range to a working window: the upper end to `hard_cap`,
/// the lower end to the upper one.
pub fn clamp_len(min_len: usize, max_len: usize, hard_cap: usize) -> (r: (usize, usize))
    ensures
        r.1 == (if max_len <= hard_cap { max_len } else { hard_cap }),
        r.0 == (if min_len <= r.1 { min_len } else { r.1 }),
{
    let mx = if max_len <= hard_cap { max_len } else { hard_cap };
    let mn = if min_len <= mx { min_len } else { mx };
    (mn, mx)
}

} // verus!
