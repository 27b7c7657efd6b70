//! Recording one trial's oracle outcomes, and what a whole run's counters
//! hold.

use vstd::prelude::*;
use crate::harness::{first_index, OracleState};

verus! {

/// Position `i` holds the first occurrence of its name.
pub open spec fn is_first(names: Seq<Seq<char>>, i: int) -> bool {
    0 <= i < names.len() && forall|j: int| 0 <= j < i ==> names[j] != names[i]
}

/// Some check named in `checked` is first found at position `i` of `names`.
pub open spec fn checked_at(checked: Seq<Seq<char>>, names: Seq<Seq<char>>, i: int) -> bool {
    exists|j: int| 0 <= j < checked.len() && first_index(names, #[trigger] checked[j]) == Some(i)
}

/// The names of a trial's checks.
pub open spec fn check_names(checks: Seq<(&str, Result<(), (String, String)>)>) -> Seq<Seq<char>> {
    checks.map_values(|c: (&str, Result<(), (String, String)>)| c.0@)
}

/// Some failed check of the trial is first found at position `i`.
pub open spec fn failed_at(checks: Seq<(&str, Result<(), (String, String)>)>, names: Seq<Seq<char>>, i: int) -> bool {
    exists|j: int| 0 <= j < checks.len() && (#[trigger] checks[j]).1 is Err && first_index(names, checks[j].0@) == Some(i)
}

/// Some failed check of the trial is named `name`.
pub open spec fn failed_named(checks: Seq<(&str, Result<(), (String, String)>)>, name: Seq<char>) -> bool {
    exists|j: int| 0 <= j < checks.len() && (#[trigger] checks[j]).1 is Err && checks[j].0@ == name
}

/// Every outcome of a trial is `Ok`.
pub open spec fn all_ok(checks: Seq<(&str, Result<(), (String, String)>)>) -> bool {
    forall|j: int| 0 <= j < checks.len() ==> (#[trigger] checks[j]).1 is Ok
}

/// `first_index` finds exactly the first occurrence.
pub proof fn lemma_first_index(names: Seq<Seq<char>>, x: Seq<char>, p: int)
    ensures
        first_index(names, x) == Some(p) <==> (0 <= p < names.len() && names[p] == x
            && forall|j: int| 0 <= j < p ==> names[j] != x),
{
    reveal(first_index);
    if 0 <= p < names.len() && names[p] == x && forall|j: int| 0 <= j < p ==> names[j] != x {
        assert(exists|i: int| 0 <= i < names.len() && #[trigger] names[i] == x);
        let q = choose|i: int| 0 <= i < names.len() && #[trigger] names[i] == x
            && forall|j: int| 0 <= j < i ==> names[j] != x;
        assert(q == p) by {
            if q < p {
                assert(names[q] == x);
            } else if q > p {
                assert(names[p] == x);
            }
        }
    }
    if first_index(names, x) == Some(p) {
        let w = choose|i: int| 0 <= i < names.len() && #[trigger] names[i] == x;
        lemma_least_occurrence(names, x, w);
    }
}

/// Some occurrence of `x` at or before `i` has none before it.
proof fn lemma_least_occurrence(names: Seq<Seq<char>>, x: Seq<char>, i: int)
    requires
        0 <= i < names.len(),
        names[i] == x,
    ensures
        exists|m: int| 0 <= m < names.len() && #[trigger] names[m] == x
            && forall|j: int| 0 <= j < m ==> names[j] != x,
    decreases i,
{
    if exists|j: int| 0 <= j < i && names[j] == x {
        let j = choose|j: int| 0 <= j < i && names[j] == x;
        lemma_least_occurrence(names, x, j);
    } else {
        assert(names[i] == x && forall|j: int| 0 <= j < i ==> names[j] != x);
    }
}

/// When every configured name is among the checked ones, the positions
/// checked are exactly the first occurrences.
pub proof fn lemma_checked_are_firsts(checked: Seq<Seq<char>>, names: Seq<Seq<char>>, i: int)
    requires
        forall|k: int| 0 <= k < names.len() ==> checked.contains(#[trigger] names[k]),
        0 <= i < names.len(),
    ensures
        checked_at(checked, names, i) <==> is_first(names, i),
{
    if is_first(names, i) {
        let j = choose|j: int| 0 <= j < checked.len() && checked[j] == names[i];
        lemma_first_index(names, checked[j], i);
    }
    if checked_at(checked, names, i) {
        let j = choose|j: int| 0 <= j < checked.len() && first_index(names, #[trigger] checked[j]) == Some(i);
        lemma_first_index(names, checked[j], i);
    }
}

/// A name of the trial that comes after the first `j` is not found where
/// any of those was: the names are distinct.
proof fn lemma_fresh_name(all: Seq<(&str, Result<(), (String, String)>)>, names: Seq<Seq<char>>, j: int)
    requires
        0 <= j < all.len(),
        forall|a: int, b: int| 0 <= a < b < all.len() ==> all[a].0@ != all[b].0@,
    ensures
        first_index(names, all[j].0@) matches Some(p) ==>
            !checked_at(check_names(all).take(j), names, p) && !failed_at(all.take(j), names, p),
{
    if first_index(names, all[j].0@) is Some {
        let p = first_index(names, all[j].0@)->0;
        lemma_first_index(names, all[j].0@, p);
        if checked_at(check_names(all).take(j), names, p) {
            let k = choose|k: int| 0 <= k < check_names(all).take(j).len()
                && first_index(names, #[trigger] check_names(all).take(j)[k]) == Some(p);
            lemma_first_index(names, check_names(all).take(j)[k], p);
            assert(check_names(all)[k] == all[k].0@);
        }
        if failed_at(all.take(j), names, p) {
            let k = choose|k: int| 0 <= k < all.take(j).len() && (#[trigger] all.take(j)[k]).1 is Err
                && first_index(names, all.take(j)[k].0@) == Some(p);
            lemma_first_index(names, all.take(j)[k].0@, p);
            assert(all.take(j)[k] == all[k]);
        }
    }
}

/// Extending the prefix of names by check `j` adds exactly where that check
/// is first found.
proof fn lemma_checked_step_at(all: Seq<(&str, Result<(), (String, String)>)>, names: Seq<Seq<char>>, j: int, i: int)
    requires
        0 <= j < all.len(),
    ensures
        checked_at(check_names(all).take(j + 1), names, i)
            == (checked_at(check_names(all).take(j), names, i) || first_index(names, all[j].0@) == Some(i)),
{
    let cn = check_names(all);
    let pre = cn.take(j);
    let ext = cn.take(j + 1);
    assert(ext[j] == all[j].0@);
    assert forall|k: int| 0 <= k < j implies #[trigger] ext[k] == pre[k] by {}
    if checked_at(pre, names, i) {
        let k = choose|k: int| 0 <= k < pre.len() && first_index(names, #[trigger] pre[k]) == Some(i);
        assert(ext[k] == pre[k]);
    }
    if checked_at(ext, names, i) {
        let k = choose|k: int| 0 <= k < ext.len() && first_index(names, #[trigger] ext[k]) == Some(i);
        if k < j {
            assert(pre[k] == ext[k]);
        }
    }
}

/// Extending the prefix of outcomes by check `j` adds exactly where that
/// check, if it failed, is first found.
proof fn lemma_failed_step_at(all: Seq<(&str, Result<(), (String, String)>)>, names: Seq<Seq<char>>, j: int, i: int)
    requires
        0 <= j < all.len(),
    ensures
        failed_at(all.take(j + 1), names, i)
            == (failed_at(all.take(j), names, i) || (all[j].1 is Err && first_index(names, all[j].0@) == Some(i))),
{
    let pre = all.take(j);
    let ext = all.take(j + 1);
    assert(ext[j] == all[j]);
    assert forall|k: int| 0 <= k < j implies #[trigger] ext[k] == pre[k] by {}
    if failed_at(pre, names, i) {
        let k = choose|k: int| 0 <= k < pre.len() && (#[trigger] pre[k]).1 is Err && first_index(names, pre[k].0@) == Some(i);
        assert(ext[k] == pre[k]);
    }
    if failed_at(ext, names, i) {
        let k = choose|k: int| 0 <= k < ext.len() && (#[trigger] ext[k]).1 is Err && first_index(names, ext[k].0@) == Some(i);
        if k < j {
            assert(pre[k] == ext[k]);
        }
    }
}

/// Records the outcomes of one trial, check after check, in order. The
/// names must be pairwise distinct, so that no counter moves twice.
pub fn record_trial(st: &mut OracleState, trial: u32, input_repr: &str, checks: Vec<(&str, Result<(), (String, String)>)>)
    requires
        old(st).well_formed(),
        forall|a: int, b: int| 0 <= a < b < checks@.len() ==> checks@[a].0@ != checks@[b].0@,
        forall|i: int| 0 <= i < old(st).counts().len() ==> (#[trigger] old(st).counts()[i]).0 < u32::MAX,
    ensures
        final(st).well_formed(),
        final(st).names() == old(st).names(),
        final(st).counts().len() == old(st).counts().len(),
        forall|i: int| 0 <= i < old(st).counts().len() ==> (#[trigger] final(st).counts()[i]).0
            == old(st).counts()[i].0 + (if checked_at(check_names(checks@), old(st).names(), i) { 1int } else { 0int }),
        all_ok(checks@) ==> final(st).records() == old(st).records(),
        all_ok(checks@) ==> forall|i: int| 0 <= i < old(st).counts().len()
            ==> (#[trigger] final(st).counts()[i]).1 == old(st).counts()[i].1,
        forall|i: int| 0 <= i < old(st).counts().len() ==> (#[trigger] final(st).counts()[i]).1
            == old(st).counts()[i].1 + (if failed_at(checks@, old(st).names(), i) { 1int } else { 0int }),
        final(st).records().len() >= old(st).records().len(),
        forall|k: int| 0 <= k < old(st).records().len() ==> #[trigger] final(st).records()[k] == old(st).records()[k],
        forall|k: int| old(st).records().len() <= k < final(st).records().len()
            ==> failed_named(checks@, (#[trigger] final(st).records()[k]).0),
{
    let ghost names = st.names();
    let ghost c0 = st.counts();
    let ghost r0 = st.records();
    let ghost all = checks@;
    let ghost cn = check_names(all);
    proof {
        st.lemma_counts_match_names();
    }
    let n = checks.len();
    assert(all.len() == n);
    let mut rest = checks;
    let mut j: usize = 0;
    while rest.len() > 0
        invariant
            all.len() == j + rest@.len(),
            all.len() <= usize::MAX,
            rest@ == all.skip(j as int),
            cn == check_names(all),
            st.well_formed(),
            st.names() == names,
            st.counts().len() == c0.len(),
            c0.len() == names.len(),
            forall|a: int, b: int| 0 <= a < b < all.len() ==> all[a].0@ != all[b].0@,
            forall|i: int| 0 <= i < c0.len() ==> (#[trigger] c0[i]).0 < u32::MAX,
            forall|i: int| 0 <= i < c0.len() ==> (#[trigger] st.counts()[i]).0
                == c0[i].0 + (if checked_at(cn.take(j as int), names, i) { 1int } else { 0int }),
            all_ok(all) ==> st.records() == r0,
            all_ok(all) ==> forall|i: int| 0 <= i < c0.len() ==> (#[trigger] st.counts()[i]).1 == c0[i].1,
            forall|i: int| 0 <= i < c0.len() ==> (#[trigger] st.counts()[i]).1
                == c0[i].1 + (if failed_at(all.take(j as int), names, i) { 1int } else { 0int }),
            st.records().len() >= r0.len(),
            forall|k: int| 0 <= k < r0.len() ==> #[trigger] st.records()[k] == r0[k],
            forall|k: int| r0.len() <= k < st.records().len() ==> failed_named(all, (#[trigger] st.records()[k]).0),
        decreases rest@.len(),
    {
        let ghost before = st.counts();
        let ghost before_records = st.records();
        let (name, outcome) = rest.remove(0);
        proof {
            assert(all[j as int] == (name, outcome));
            assert(cn[j as int] == name@);
            assert(rest@ =~= all.skip(j + 1));
            st.lemma_counts_match_names();
            lemma_fresh_name(all, names, j as int);
            match first_index(names, name@) {
                Some(p) => {
                    lemma_first_index(names, name@, p);
                    assert(st.counts()[p].0 == c0[p].0);
                    assert(st.counts()[p].1 <= st.counts()[p].0);
                },
                None => {},
            }
        }
        st.check(name, trial, input_repr, outcome);
        proof {
                        assert forall|i: int| 0 <= i < c0.len() implies (#[trigger] st.counts()[i]).0
                == c0[i].0 + (if checked_at(cn.take(j + 1), names, i) { 1int } else { 0int }) by {
                lemma_checked_step_at(all, names, j as int, i);
            }
            assert forall|i: int| 0 <= i < c0.len() implies (#[trigger] st.counts()[i]).1
                == c0[i].1 + (if failed_at(all.take(j + 1), names, i) { 1int } else { 0int }) by {
                lemma_failed_step_at(all, names, j as int, i);
                assert(all[j as int].1 == outcome);
                assert(before[i].1 == c0[i].1 + (if failed_at(all.take(j as int), names, i) { 1int } else { 0int }));
                match first_index(names, name@) {
                    Some(p) => {
                        if i == p {
                            assert(!failed_at(all.take(j as int), names, p));
                        }
                    },
                    None => {},
                }
            }
            if all_ok(all) {
                assert(all[j as int].1 is Ok);
            }
            assert forall|k: int| r0.len() <= k < st.records().len() implies failed_named(all, (#[trigger] st.records()[k]).0) by {
                if k >= before_records.len() {
                    assert(all[j as int].1 is Err);
                    assert(st.records()[k].0 == name@);
                } else {
                    assert(st.records()[k] == before_records[k]);
                }
            }
        }
        j = j + 1;
    }
    proof {
        assert(cn.take(j as int) =~= cn);
        assert(all.take(j as int) =~= all);
    }
}

} // verus!
