//! The runs an experiment plans: one per system, provider and seed, systems
//! outermost and seeds innermost, each with a run id
//! `run_<date>_<system>_<split>_<nnn>` that numbers the runs of its system
//! from `001` in plan order.

use vstd::prelude::*;
use crate::lean::{decimal, decimal_string};
use crate::text::{chars_of, push_all, str_eq, string_from_chars, string_push};

verus! {

/// One planned run (its sampling temperature, a fraction, stays with the
/// caller).
#[derive(Debug)]
pub struct PlannedRun {
    /// `run_<date>_<system>_<split>_<nnn>`.
    pub run_id: String,
    /// The system generating.
    pub system_id: String,
    /// The provider configuration used.
    pub provider_config: String,
    /// The generation seed.
    pub seed: u64,
    /// The token limit of each generation.
    pub max_tokens: u32,
}

/// One combination of system, provider and seed.
pub type Combo = (Seq<char>, Seq<char>, u64);

/// The combinations of system `s` with each provider and seed, providers
/// outermost.
pub open spec fn system_row(s: Seq<char>, providers: Seq<String>, seeds: Seq<u64>) -> Seq<Combo>
    decreases providers.len(),
{
    if providers.len() == 0 {
        Seq::empty()
    } else {
        system_row(s, providers.drop_last(), seeds)
            + seeds.map_values(|e: u64| (s, providers.last()@, e))
    }
}

/// Every combination of system, provider and seed, systems outermost.
pub open spec fn combos(systems: Seq<String>, providers: Seq<String>, seeds: Seq<u64>) -> Seq<Combo>
    decreases systems.len(),
{
    if systems.len() == 0 {
        Seq::empty()
    } else {
        combos(systems.drop_last(), providers, seeds) + system_row(systems.last()@, providers, seeds)
    }
}

/// How many of the first `k` combinations are of system `s`.
pub open spec fn runs_of_system(c: Seq<Combo>, k: int, s: Seq<char>) -> nat
    decreases k,
{
    if k <= 0 {
        0
    } else {
        runs_of_system(c, k - 1, s) + if c[k - 1].0 == s { 1nat } else { 0nat }
    }
}

/// `n` in decimal, padded with zeros to three digits.
pub open spec fn padded3(n: nat) -> Seq<char> {
    if n < 10 {
        "00"@ + decimal(n)
    } else if n < 100 {
        "0"@ + decimal(n)
    } else {
        decimal(n)
    }
}

/// The run id of the `t`-th planned run.
pub open spec fn planned_run_id(date: Seq<char>, split: Seq<char>, c: Seq<Combo>, t: int) -> Seq<char> {
    "run_"@ + date + "_"@ + c[t].0 + "_"@ + split + "_"@ + padded3(runs_of_system(c, t, c[t].0) + 1)
}

/// `runs` are the runs planned for the combinations `c`.
pub open spec fn plan_of(runs: Seq<PlannedRun>, c: Seq<Combo>, date: Seq<char>, split: Seq<char>, max_tokens: u32) -> bool {
    &&& runs.len() == c.len()
    &&& forall|t: int| 0 <= t < runs.len() ==> {
        &&& (#[trigger] runs[t]).system_id@ == c[t].0
        &&& runs[t].provider_config@ == c[t].1
        &&& runs[t].seed == c[t].2
        &&& runs[t].max_tokens == max_tokens
        &&& runs[t].run_id@ == planned_run_id(date, split, c, t)
    }
}

proof fn lemma_runs_of_system_prefix(c: Seq<Combo>, x: Combo, k: int, s: Seq<char>)
    requires
        0 <= k <= c.len(),
    ensures
        runs_of_system(c.push(x), k, s) == runs_of_system(c, k, s),
    decreases k,
{
    if k > 0 {
        lemma_runs_of_system_prefix(c, x, k - 1, s);
        assert(c.push(x)[k - 1] == c[k - 1]);
    }
}

proof fn lemma_row_prefix(s: Seq<char>, providers: Seq<String>, seeds: Seq<u64>, j: int)
    requires
        0 <= j < providers.len(),
    ensures
        system_row(s, providers.take(j + 1), seeds)
            == system_row(s, providers.take(j), seeds) + seeds.map_values(|e: u64| (s, providers[j]@, e)),
{
    let p2 = providers.take(j + 1);
    assert(p2.drop_last() =~= providers.take(j));
    assert(p2.last() == providers[j]);
}

proof fn lemma_row_grows(s: Seq<char>, providers: Seq<String>, seeds: Seq<u64>, j: int)
    requires
        0 <= j <= providers.len(),
    ensures
        system_row(s, providers.take(j), seeds).len() <= system_row(s, providers, seeds).len(),
    decreases providers.len() - j,
{
    if j < providers.len() {
        lemma_row_prefix(s, providers, seeds, j);
        lemma_row_grows(s, providers, seeds, j + 1);
    } else {
        assert(providers.take(j) =~= providers);
    }
}

proof fn lemma_combos_prefix(systems: Seq<String>, providers: Seq<String>, seeds: Seq<u64>, i: int)
    requires
        0 <= i < systems.len(),
    ensures
        combos(systems.take(i + 1), providers, seeds)
            == combos(systems.take(i), providers, seeds) + system_row(systems[i]@, providers, seeds),
{
    let s2 = systems.take(i + 1);
    assert(s2.drop_last() =~= systems.take(i));
    assert(s2.last() == systems[i]);
}

proof fn lemma_combos_grow(systems: Seq<String>, providers: Seq<String>, seeds: Seq<u64>, i: int)
    requires
        0 <= i <= systems.len(),
    ensures
        combos(systems.take(i), providers, seeds).len() <= combos(systems, providers, seeds).len(),
    decreases systems.len() - i,
{
    if i < systems.len() {
        lemma_combos_prefix(systems, providers, seeds, i);
        lemma_combos_grow(systems, providers, seeds, i + 1);
    } else {
        assert(systems.take(i) =~= systems);
    }
}

/// A copy of a string.
fn owned(s: &str) -> (out: String)
    ensures
        out@ == s@,
{
    string_from_chars(&chars_of(s))
}

/// `n` in decimal, zero-padded to three digits.
fn padded3_string(n: u64) -> (out: String)
    ensures
        out@ == padded3(n as nat),
{
    let mut out = if n < 10 {
        owned("00")
    } else if n < 100 {
        owned("0")
    } else {
        String::new()
    };
    let digits = decimal_string(n);
    let ghost before = out@;
    let mut i: usize = 0;
    while i < digits.len()
        invariant
            i <= digits@.len(),
            out@ == before + digits@.take(i as int),
        decreases digits@.len() - i,
    {
        string_push(&mut out, digits[i]);
        proof {
            assert(digits@.take(i as int + 1) =~= digits@.take(i as int).push(digits@[i as int]));
        }
        i = i + 1;
    }
    proof {
        assert(digits@.take(digits@.len() as int) =~= digits@);
        if n >= 100 {
            assert(before =~= Seq::<char>::empty());
            assert(before + digits@ =~= digits@);
        }
    }
    out
}

/// Appends the run of the next combination `(system, provider, seed)`.
fn plan_next(
    runs: &mut Vec<PlannedRun>,
    Ghost(c): Ghost<Seq<Combo>>,
    date: &str,
    split: &str,
    system: &str,
    provider: &str,
    seed: u64,
    max_tokens: u32,
)
    requires
        plan_of(old(runs)@, c, date@, split@, max_tokens),
        c.len() < u32::MAX,
    ensures
        plan_of(final(runs)@, c.push((system@, provider@, seed)), date@, split@, max_tokens),
{
    let ghost c2 = c.push((system@, provider@, seed));
    let mut count: u64 = 0;
    let mut q: usize = 0;
    while q < runs.len()
        invariant
            plan_of(runs@, c, date@, split@, max_tokens),
            q <= runs@.len(),
            count == runs_of_system(c, q as int, system@),
            count <= q,
            runs@.len() == c.len(),
            c.len() < u32::MAX,
        decreases runs@.len() - q,
    {
        if str_eq(runs[q].system_id.as_str(), system) {
            count = count + 1;
        }
        q = q + 1;
    }
    proof {
        lemma_runs_of_system_prefix(c, (system@, provider@, seed), c.len() as int, system@);
        assert(c2[c.len() as int].0 == system@);
    }
    let mut id = owned("run_");
    push_all(&mut id, date);
    push_all(&mut id, "_");
    push_all(&mut id, system);
    push_all(&mut id, "_");
    push_all(&mut id, split);
    push_all(&mut id, "_");
    let nnn = padded3_string(count + 1);
    push_all(&mut id, nnn.as_str());
    let ghost old_runs = runs@;
    runs.push(PlannedRun {
        run_id: id,
        system_id: owned(system),
        provider_config: owned(provider),
        seed,
        max_tokens,
    });
    proof {
        assert forall|t: int| 0 <= t < runs@.len() implies {
            &&& (#[trigger] runs@[t]).system_id@ == c2[t].0
            &&& runs@[t].provider_config@ == c2[t].1
            &&& runs@[t].seed == c2[t].2
            &&& runs@[t].max_tokens == max_tokens
            &&& runs@[t].run_id@ == planned_run_id(date@, split@, c2, t)
        } by {
            if t < c.len() {
                assert(runs@[t] == old_runs[t]);
                assert(c2[t] == c[t]);
                lemma_runs_of_system_prefix(c, (system@, provider@, seed), t, c[t].0);
            }
        }
    }
}

/// Plans an experiment's runs: for each system, provider and seed, in that
/// nesting, one run with the experiment's token limit (2048 when it sets
/// none); see `planned_run_id` for the run ids.
pub fn materialise_plan(
    date: &str,
    split: &str,
    systems: &Vec<String>,
    providers: &Vec<String>,
    seeds: &Vec<u64>,
    max_tokens: Option<u32>,
) -> (runs: Vec<PlannedRun>)
    requires
        combos(systems@, providers@, seeds@).len() <= u32::MAX,
    ensures
        plan_of(runs@, combos(systems@, providers@, seeds@), date@, split@,
            match max_tokens { Some(m) => m, None => 2048u32 }),
{
    let limit: u32 = match max_tokens {
        Some(m) => m,
        None => 2048,
    };
    let mut runs: Vec<PlannedRun> = Vec::new();
    let ghost mut c: Seq<Combo> = Seq::empty();
    let mut i: usize = 0;
    while i < systems.len()
        invariant
            i <= systems@.len(),
            c == combos(systems@.take(i as int), providers@, seeds@),
            plan_of(runs@, c, date@, split@, limit),
            combos(systems@, providers@, seeds@).len() <= u32::MAX,
        decreases systems@.len() - i,
    {
        let system = systems[i].as_str();
        let ghost base = c;
        proof {
            lemma_combos_prefix(systems@, providers@, seeds@, i as int);
            lemma_combos_grow(systems@, providers@, seeds@, i as int + 1);
        }
        let mut j: usize = 0;
        while j < providers.len()
            invariant
                i < systems@.len(),
                system@ == systems@[i as int]@,
                j <= providers@.len(),
                base == combos(systems@.take(i as int), providers@, seeds@),
                c == base + system_row(system@, providers@.take(j as int), seeds@),
                plan_of(runs@, c, date@, split@, limit),
                base.len() + system_row(system@, providers@, seeds@).len() <= u32::MAX,
            decreases providers@.len() - j,
        {
            let provider = providers[j].as_str();
            let ghost mid = c;
            proof {
                lemma_row_prefix(system@, providers@, seeds@, j as int);
                lemma_row_grows(system@, providers@, seeds@, j as int + 1);
            }
            let mut k: usize = 0;
            while k < seeds.len()
                invariant
                    j < providers@.len(),
                    provider@ == providers@[j as int]@,
                    k <= seeds@.len(),
                    c == mid + seeds@.take(k as int).map_values(|e: u64| (system@, provider@, e)),
                    plan_of(runs@, c, date@, split@, limit),
                    mid.len() + seeds@.len() <= u32::MAX,
                decreases seeds@.len() - k,
            {
                plan_next(&mut runs, Ghost(c), date, split, system, provider, seeds[k], limit);
                proof {
                    let f = |e: u64| (system@, provider@, e);
                    assert(seeds@.take(k as int + 1).map_values(f)
                        =~= seeds@.take(k as int).map_values(f).push(f(seeds@[k as int])));
                    c = c.push((system@, provider@, seeds@[k as int]));
                    assert(c =~= mid + seeds@.take(k as int + 1).map_values(f));
                }
                k = k + 1;
            }
            proof {
                let f = |e: u64| (system@, provider@, e);
                assert(seeds@.take(seeds@.len() as int) =~= seeds@);
                assert(c =~= base + system_row(system@, providers@.take(j as int + 1), seeds@));
            }
            j = j + 1;
        }
        proof {
            assert(providers@.take(providers@.len() as int) =~= providers@);
            assert(c =~= combos(systems@.take(i as int + 1), providers@, seeds@));
        }
        i = i + 1;
    }
    proof {
        assert(systems@.take(systems@.len() as int) =~= systems@);
    }
    runs
}

} // verus!
