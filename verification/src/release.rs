use vstd::prelude::*;
use crate::basics::versions::BenchmarkVersion;
use crate::lint::{issue_view, LintIssue, LintSeverity};
use crate::splits::{Split, SplitName, split_name_str, names_increasing};
use crate::text::{push_all, str_eq, chars_of, string_from_chars};
use crate::basics::enums::Domain;
use crate::records::BenchmarkManifest;
use crate::manifest::{count_domains, count_views, domain_counts, rollup_hash, rollup_input, entry_views};
use crate::hashing::{hex_of, sha256_of};
use crate::lean::{decimal, decimal_string};
use crate::render::{bracketed, braced, bracket_parts, brace_parts};
use crate::lint::{path_push, push_path, LintReport};
use crate::splits::split_from_str;

verus! {

/// Minimal view of an experiment config used by the release-coherence pass.
#[derive(Debug, Clone)]
pub struct ExperimentConfigSummary {
    /// Canonical experiment id.
    pub experiment_id: String,
    /// Benchmark version this experiment targets.
    pub benchmark_version: BenchmarkVersion,
    /// Split the experiment runs on.
    pub split: String,
    /// System ids referenced by the experiment.
    pub systems: Vec<String>,
    /// Workspace-relative provider config paths.
    pub providers: Vec<String>,
    /// Source file path, for reporting.
    pub source_path: String,
}

/// The ids of a split, as text.
pub open spec fn split_ids(sp: Split) -> Seq<Seq<char>> {
    sp.instance_ids@.map_values(|id: crate::basics::ids::InstanceId| id@)
}

/// Issues for the ids of split `sp` at positions `t` and above: a repeat of an
/// earlier id is reported as a duplicate, an id outside `known` as unknown.
pub open spec fn id_issues_from(sp: Split, known: Seq<Seq<char>>, t: int)
    -> Seq<(Seq<char>, LintSeverity, Seq<char>, Seq<char>, Option<Seq<char>>)>
    decreases split_ids(sp).len() - t,
{
    let ids = split_ids(sp);
    if t < 0 || t >= ids.len() {
        Seq::empty()
    } else {
        let id = ids[t];
        let name = split_name_str(sp.split);
        let dup = if ids.take(t).contains(id) {
            seq![(id, LintSeverity::Error, "SPLIT_DUPLICATE_INSTANCE"@,
                "split '"@ + name + "' contains duplicate instance id '"@ + id + "'"@, Some(sp.source_path@))]
        } else {
            Seq::empty()
        };
        let unknown = if !known.contains(id) {
            seq![(id, LintSeverity::Error, "SPLIT_UNKNOWN_INSTANCE"@,
                "split '"@ + name + "' references instance '"@ + id + "' which is not present in the benchmark"@,
                Some(sp.source_path@))]
        } else {
            Seq::empty()
        };
        dup + unknown + id_issues_from(sp, known, t + 1)
    }
}

/// Issues for the ids of the splits at positions `k` and above.
pub open spec fn split_issues_from(splits: Seq<Split>, known: Seq<Seq<char>>, k: int)
    -> Seq<(Seq<char>, LintSeverity, Seq<char>, Seq<char>, Option<Seq<char>>)>
    decreases splits.len() - k,
{
    if k < 0 || k >= splits.len() {
        Seq::empty()
    } else {
        id_issues_from(splits[k], known, 0) + split_issues_from(splits, known, k + 1)
    }
}

/// Issue for a required split that is missing.
pub open spec fn missing_issue(name: SplitName) -> (Seq<char>, LintSeverity, Seq<char>, Seq<char>, Option<Seq<char>>) {
    ("<global>"@, LintSeverity::Error, "SPLIT_REQUIRED_MISSING"@,
        "required split '"@ + split_name_str(name) + "' is missing (expected file splits/"@
            + split_name_str(name) + ".json)"@, None)
}

/// Some split is named `name`.
pub open spec fn has_split(splits: Seq<Split>, name: SplitName) -> bool {
    exists|k: int| 0 <= k < splits.len() && #[trigger] splits[k].split == name
}

/// Every issue `check_splits` reports, in order: missing required splits,
/// duplicate and unknown ids split by split, then an empty eval split.
pub open spec fn split_check_issues(splits: Seq<Split>, known: Seq<Seq<char>>)
    -> Seq<(Seq<char>, LintSeverity, Seq<char>, Seq<char>, Option<Seq<char>>)>
{
    let dev = if has_split(splits, SplitName::Dev) { Seq::empty() } else { seq![missing_issue(SplitName::Dev)] };
    let eval = if has_split(splits, SplitName::Eval) { Seq::empty() } else { seq![missing_issue(SplitName::Eval)] };
    let empty_eval = if exists|k: int| 0 <= k < splits.len() && #[trigger] splits[k].split == SplitName::Eval
        && splits[k].instance_ids@.len() == 0 {
        let k = choose|k: int| 0 <= k < splits.len() && #[trigger] splits[k].split == SplitName::Eval
            && splits[k].instance_ids@.len() == 0;
        seq![("<global>"@, LintSeverity::Error, "SPLIT_EMPTY_EVAL"@,
            "eval split is empty; a released benchmark must have a non-empty eval"@, Some(splits[k].source_path@))]
    } else {
        Seq::empty()
    };
    dev + eval + split_issues_from(splits, known, 0) + empty_eval
}

/// `s` occurs among the first `t` entries.
fn seen_before(ids: &Vec<crate::basics::ids::InstanceId>, t: usize) -> (b: bool)
    requires
        t < ids@.len(),
    ensures
        b == ids@.map_values(|id: crate::basics::ids::InstanceId| id@).take(t as int).contains(ids@[t as int]@),
{
    let ghost v = ids@.map_values(|id: crate::basics::ids::InstanceId| id@);
    let mut i: usize = 0;
    while i < t
        invariant
            0 <= i <= t < ids@.len(),
            v == ids@.map_values(|id: crate::basics::ids::InstanceId| id@),
            forall|j: int| 0 <= j < i ==> v[j] != v[t as int],
        decreases t - i,
    {
        if str_eq(ids[i].as_str(), ids[t].as_str()) {
            proof {
                assert(v.take(t as int)[i as int] == v[t as int]);
            }
            return true;
        }
        i = i + 1;
    }
    proof {
        if v.take(t as int).contains(v[t as int]) {
            let j = choose|j: int| 0 <= j < v.take(t as int).len() && v.take(t as int)[j] == v[t as int];
            assert(v[j] == v.take(t as int)[j]);
        }
    }
    false
}

/// Whether `id` is one of `known`.
fn is_known(known: &[String], id: &str) -> (b: bool)
    ensures
        b == known@.map_values(|s: String| s@).contains(id@),
{
    let ghost kv = known@.map_values(|s: String| s@);
    let mut i: usize = 0;
    while i < known.len()
        invariant
            0 <= i <= known@.len(),
            kv == known@.map_values(|s: String| s@),
            forall|j: int| 0 <= j < i ==> kv[j] != id@,
        decreases known@.len() - i,
    {
        if str_eq(known[i].as_str(), id) {
            proof {
                assert(kv[i as int] == id@);
            }
            return true;
        }
        i = i + 1;
    }
    false
}

/// Builds `a + b + c + d + e` from pieces.
fn message5(a: &str, b: &str, c: &str, d: &str, e: &str) -> (out: String)
    ensures
        out@ == a@ + b@ + c@ + d@ + e@,
{
    let mut out = String::new();
    push_all(&mut out, a);
    push_all(&mut out, b);
    push_all(&mut out, c);
    push_all(&mut out, d);
    push_all(&mut out, e);
    assert(out@ =~= a@ + b@ + c@ + d@ + e@);
    out
}

/// Release-coherence checks on the splits: required splits present, no
/// duplicate or unknown ids, a non-empty eval split. Issues are appended to
/// `issues` in that order.
pub fn check_splits(splits: &[Split], instance_ids: &[String], issues: &mut Vec<LintIssue>)
    requires
        names_increasing(splits@),
    ensures
        final(issues)@.map_values(|i: LintIssue| issue_view(i))
            == old(issues)@.map_values(|i: LintIssue| issue_view(i))
                + split_check_issues(splits@, instance_ids@.map_values(|s: String| s@)),
{
    let ghost known = instance_ids@.map_values(|s: String| s@);
    let ghost start = issues@.map_values(|i: LintIssue| issue_view(i));
    let required = SplitName::REQUIRED;
    let mut r: usize = 0;
    while r < 2
        invariant
            required@ == seq![SplitName::Dev, SplitName::Eval],
            0 <= r <= 2,
            issues@.map_values(|i: LintIssue| issue_view(i)) == start
                + (if r >= 1 && !has_split(splits@, SplitName::Dev) { seq![missing_issue(SplitName::Dev)] } else { Seq::empty() })
                + (if r >= 2 && !has_split(splits@, SplitName::Eval) { seq![missing_issue(SplitName::Eval)] } else { Seq::empty() }),
        decreases 2 - r,
    {
        let name = required[r];
        let mut found = false;
        let mut k: usize = 0;
        while k < splits.len()
            invariant
                0 <= k <= splits@.len(),
                found == exists|j: int| 0 <= j < k && #[trigger] splits@[j].split == name,
            decreases splits@.len() - k,
        {
            if splits[k].split == name {
                found = true;
            }
            k = k + 1;
        }
        let ghost before = issues@.map_values(|i: LintIssue| issue_view(i));
        if !found {
            let n = name.as_str();
            let message = message5("required split '", n, "' is missing (expected file splits/", n, ".json)");
            issues.push(LintIssue {
                instance_id: "<global>".to_owned(),
                severity: LintSeverity::Error,
                code: "SPLIT_REQUIRED_MISSING",
                message,
                path: None,
            });
            proof {
                assert(issues@.map_values(|i: LintIssue| issue_view(i)) =~= before.push(missing_issue(name)));
            }
        }
        proof {
            if r == 0 {
                assert(issues@.map_values(|i: LintIssue| issue_view(i)) =~= start
                    + (if !has_split(splits@, SplitName::Dev) { seq![missing_issue(SplitName::Dev)] } else { Seq::empty() })
                    + Seq::empty());
            } else {
                assert(issues@.map_values(|i: LintIssue| issue_view(i)) =~= start
                    + (if !has_split(splits@, SplitName::Dev) { seq![missing_issue(SplitName::Dev)] } else { Seq::empty() })
                    + (if !has_split(splits@, SplitName::Eval) { seq![missing_issue(SplitName::Eval)] } else { Seq::empty() }));
            }
        }
        r = r + 1;
    }
    let ghost after_required = issues@.map_values(|i: LintIssue| issue_view(i));
    let mut k: usize = 0;
    while k < splits.len()
        invariant
            0 <= k <= splits@.len(),
            known == instance_ids@.map_values(|s: String| s@),
            issues@.map_values(|i: LintIssue| issue_view(i)) + split_issues_from(splits@, known, k as int)
                == after_required + split_issues_from(splits@, known, 0),
        decreases splits@.len() - k,
    {
        let sp = &splits[k];
        let name = sp.split.as_str();
        let ghost ids = split_ids(*sp);
        let mut t: usize = 0;
        while t < sp.instance_ids.len()
            invariant
                0 <= t <= ids.len(),
                ids == split_ids(*sp),
                sp == &splits@[k as int],
                name@ == split_name_str(sp.split),
                known == instance_ids@.map_values(|s: String| s@),
                issues@.map_values(|i: LintIssue| issue_view(i)) + id_issues_from(*sp, known, t as int)
                    + split_issues_from(splits@, known, k + 1)
                    == after_required + split_issues_from(splits@, known, 0),
            decreases ids.len() - t,
        {
            let iid = sp.instance_ids[t].as_str();
            let ghost before = issues@.map_values(|i: LintIssue| issue_view(i));
            proof {
                assert(ids[t as int] == iid@);
            }
            let dup = seen_before(&sp.instance_ids, t);
            if dup {
                let message = message5("split '", name, "' contains duplicate instance id '", iid, "'");
                issues.push(LintIssue {
                    instance_id: iid.to_owned(),
                    severity: LintSeverity::Error,
                    code: "SPLIT_DUPLICATE_INSTANCE",
                    message,
                    path: Some(sp.source_path.clone()),
                });
            }
            let ghost mid = issues@.map_values(|i: LintIssue| issue_view(i));
            let known_id = is_known(instance_ids, iid);
            if !known_id {
                let message = message5("split '", name, "' references instance '", iid,
                    "' which is not present in the benchmark");
                issues.push(LintIssue {
                    instance_id: iid.to_owned(),
                    severity: LintSeverity::Error,
                    code: "SPLIT_UNKNOWN_INSTANCE",
                    message,
                    path: Some(sp.source_path.clone()),
                });
            }
            proof {
                let d = if dup {
                    seq![(iid@, LintSeverity::Error, "SPLIT_DUPLICATE_INSTANCE"@,
                        "split '"@ + name@ + "' contains duplicate instance id '"@ + iid@ + "'"@, Some(sp.source_path@))]
                } else {
                    Seq::empty()
                };
                let u = if !known_id {
                    seq![(iid@, LintSeverity::Error, "SPLIT_UNKNOWN_INSTANCE"@,
                        "split '"@ + name@ + "' references instance '"@ + iid@ + "' which is not present in the benchmark"@,
                        Some(sp.source_path@))]
                } else {
                    Seq::empty()
                };
                assert(mid =~= before + d);
                assert(issues@.map_values(|i: LintIssue| issue_view(i)) =~= mid + u);
                assert(id_issues_from(*sp, known, t as int) == d + u + id_issues_from(*sp, known, t + 1));
                assert(issues@.map_values(|i: LintIssue| issue_view(i)) + id_issues_from(*sp, known, t + 1)
                    + split_issues_from(splits@, known, k + 1)
                    =~= before + id_issues_from(*sp, known, t as int) + split_issues_from(splits@, known, k + 1));
            }
            t = t + 1;
        }
        proof {
            assert(id_issues_from(*sp, known, t as int) =~= Seq::empty());
            assert(split_issues_from(splits@, known, k as int)
                == id_issues_from(splits@[k as int], known, 0) + split_issues_from(splits@, known, k + 1));
        }
        k = k + 1;
    }
    let ghost after_ids = issues@.map_values(|i: LintIssue| issue_view(i));
    proof {
        assert(split_issues_from(splits@, known, k as int) =~= Seq::empty());
        assert(after_ids =~= after_required + split_issues_from(splits@, known, 0));
    }
    let mut e: usize = 0;
    let mut eval_pos: usize = splits.len();
    while e < splits.len()
        invariant
            0 <= e <= splits@.len(),
            eval_pos == splits@.len() || (eval_pos < e && splits@[eval_pos as int].split == SplitName::Eval),
            eval_pos == splits@.len() ==> forall|j: int| 0 <= j < e ==> #[trigger] splits@[j].split != SplitName::Eval,
        decreases splits@.len() - e,
    {
        if splits[e].split == SplitName::Eval {
            eval_pos = e;
        }
        e = e + 1;
    }
    if eval_pos < splits.len() && splits[eval_pos].is_empty() {
        issues.push(LintIssue {
            instance_id: "<global>".to_owned(),
            severity: LintSeverity::Error,
            code: "SPLIT_EMPTY_EVAL",
            message: "eval split is empty; a released benchmark must have a non-empty eval".to_owned(),
            path: Some(splits[eval_pos].source_path.clone()),
        });
        proof {
            let kk = choose|j: int| 0 <= j < splits@.len() && #[trigger] splits@[j].split == SplitName::Eval
                && splits@[j].instance_ids@.len() == 0;
            if kk != eval_pos {
                assert(splits@[kk].split != splits@[eval_pos as int].split);
            }
            assert(issues@.map_values(|i: LintIssue| issue_view(i)) =~= after_ids + seq![("<global>"@, LintSeverity::Error,
                "SPLIT_EMPTY_EVAL"@, "eval split is empty; a released benchmark must have a non-empty eval"@,
                Some(splits@[kk].source_path@))]);
        }
    } else {
        proof {
            if exists|j: int| 0 <= j < splits@.len() && #[trigger] splits@[j].split == SplitName::Eval
                && splits@[j].instance_ids@.len() == 0 {
                let kk = choose|j: int| 0 <= j < splits@.len() && #[trigger] splits@[j].split == SplitName::Eval
                    && splits@[j].instance_ids@.len() == 0;
                if eval_pos < splits@.len() && kk != eval_pos {
                    assert(splits@[kk].split != splits@[eval_pos as int].split);
                }
            }
        }
    }
    proof {
        assert(issues@.map_values(|i: LintIssue| issue_view(i)) =~= start
            + split_check_issues(splits@, known));
    }
}


/// What `format!("{:?}", s)` gives for a string: the string quoted, with
/// the escapes of `str::escape_debug`. Named, not spelled out.
pub uninterp spec fn quoted_of(s: Seq<char>) -> Seq<char>;

/// `format!("{:?}", s)`: std's `Debug` text of a string. Its result is named
/// by `quoted_of`.
#[verifier::external_body]
fn quoted(s: &str) -> (out: String)
    ensures
        out@ == quoted_of(s@),
{
    format!("{:?}", s)
}

/// `Debug` text of a list of strings.
pub open spec fn debug_strings(items: Seq<Seq<char>>) -> Seq<char> {
    bracketed(items.map_values(|x: Seq<char>| quoted_of(x)))
}

/// `Debug` text of a map from strings to counts.
pub open spec fn debug_counts(entries: Seq<(Seq<char>, int)>) -> Seq<char> {
    braced(entries.map_values(|e: (Seq<char>, int)| quoted_of(e.0) + ": "@ + decimal(e.1 as nat)))
}

/// The entries of `a[..k]` that are not in `b`, in order.
pub open spec fn missing_from(a: Seq<Seq<char>>, b: Seq<Seq<char>>, k: int) -> Seq<Seq<char>>
    decreases k,
{
    if k <= 0 || k > a.len() {
        Seq::empty()
    } else {
        let r = missing_from(a, b, k - 1);
        if b.contains(a[k - 1]) { r } else { r.push(a[k - 1]) }
    }
}

/// Nothing of `a[..k]` is missing from `b` exactly when all of it is in `b`.
proof fn lemma_missing_empty(a: Seq<Seq<char>>, b: Seq<Seq<char>>, k: int)
    requires
        0 <= k <= a.len(),
    ensures
        (missing_from(a, b, k).len() == 0) == (forall|i: int| 0 <= i < k ==> b.contains(#[trigger] a[i])),
    decreases k,
{
    if k > 0 {
        lemma_missing_empty(a, b, k - 1);
    }
}

/// Two lists hold the same set exactly when each holds all of the other.
proof fn lemma_same_set(a: Seq<Seq<char>>, b: Seq<Seq<char>>)
    ensures
        (a.to_set() == b.to_set()) == ((forall|i: int| 0 <= i < a.len() ==> b.contains(#[trigger] a[i]))
            && (forall|i: int| 0 <= i < b.len() ==> a.contains(#[trigger] b[i]))),
{
    if (forall|i: int| 0 <= i < a.len() ==> b.contains(#[trigger] a[i]))
        && (forall|i: int| 0 <= i < b.len() ==> a.contains(#[trigger] b[i])) {
        assert forall|x: Seq<char>| a.to_set().contains(x) == b.to_set().contains(x) by {
            if a.contains(x) {
                let i = choose|i: int| 0 <= i < a.len() && a[i] == x;
            }
            if b.contains(x) {
                let i = choose|i: int| 0 <= i < b.len() && b[i] == x;
            }
        }
        assert(a.to_set() =~= b.to_set());
    }
    if a.to_set() == b.to_set() {
        assert forall|i: int| 0 <= i < a.len() implies b.contains(#[trigger] a[i]) by {
            assert(a.to_set().contains(a[i]));
        }
        assert forall|i: int| 0 <= i < b.len() implies a.contains(#[trigger] b[i]) by {
            assert(b.to_set().contains(b[i]));
        }
    }
}

/// The ids of a manifest's instance hashes.
pub open spec fn manifest_ids(m: BenchmarkManifest) -> Seq<Seq<char>> {
    m.instance_hashes@.map_values(|e: (String, String)| e.0@)
}

/// The rollup entries of the benchmark: each id with `sha256:` and the
/// hash of its directory.
pub open spec fn fresh_entries(ids: Seq<Seq<char>>, dir_hashes: Seq<Seq<char>>) -> Seq<(Seq<char>, Seq<char>)> {
    Seq::new(ids.len(), |i: int| (ids[i], "sha256:"@ + dir_hashes[i]))
}

/// The issues of the manifest check: a missing manifest; otherwise a
/// different instance set, different per-domain counts, and a content hash
/// that differs from the one recomputed from the directory hashes (or the
/// error met recomputing them).
pub open spec fn manifest_issues(
    manifest: Option<BenchmarkManifest>,
    ids: Seq<Seq<char>>,
    domains: Seq<Domain>,
    dir_hashes: Result<Seq<Seq<char>>, Seq<char>>,
) -> Seq<(Seq<char>, LintSeverity, Seq<char>, Seq<char>, Option<Seq<char>>)> {
    match manifest {
        None => seq![("<global>"@, LintSeverity::Error, "MANIFEST_MISSING"@,
            "benchmark manifest not found; regenerate with `cta benchmark manifest`"@, None)],
        Some(m) => {
            let mids = manifest_ids(m);
            let set_part = if mids.to_set() != ids.to_set() {
                seq![("<global>"@, LintSeverity::Error, "MANIFEST_INSTANCE_SET_MISMATCH"@,
                    "manifest instance set disagrees with loaded benchmark: only-in-manifest="@
                        + debug_strings(missing_from(mids, ids, mids.len() as int)) + ", only-on-disk="@
                        + debug_strings(missing_from(ids, mids, ids.len() as int)), None)]
            } else {
                Seq::empty()
            };
            let on_disk = domain_counts(domains);
            let count_part = if count_views(m.instance_count_by_domain@) != on_disk {
                seq![("<global>"@, LintSeverity::Error, "MANIFEST_DOMAIN_COUNT_MISMATCH"@,
                    "manifest instance_count_by_domain="@ + debug_counts(count_views(m.instance_count_by_domain@))
                        + " disagrees with on-disk counts="@ + debug_counts(on_disk), None)]
            } else {
                Seq::empty()
            };
            let hash_part = match dir_hashes {
                Ok(hs) => {
                    let fresh = "sha256:"@ + hex_of(sha256_of(rollup_input(fresh_entries(ids, hs))));
                    if fresh != m.content_hash@ {
                        seq![("<global>"@, LintSeverity::Error, "MANIFEST_CONTENT_HASH_STALE"@,
                            "manifest content_hash="@ + m.content_hash@ + " does not match recomputed="@ + fresh
                                + "; regenerate with `cta benchmark manifest --version "@ + m.benchmark_version@ + "`"@,
                            None)]
                    } else {
                        Seq::empty()
                    }
                },
                Err(e) => seq![("<global>"@, LintSeverity::Error, "MANIFEST_RECOMPUTE_FAILED"@,
                    "failed to recompute manifest for comparison: "@ + e, None)],
            }
            ;
            set_part + count_part + hash_part
        },
    }
}

/// The entries of `a` that are not in `b`, in order.
fn missing_strings(a: &Vec<String>, b: &Vec<String>) -> (out: Vec<String>)
    ensures
        out@.map_values(|s: String| s@) == missing_from(a@.map_values(|s: String| s@), b@.map_values(|s: String| s@), a@.len() as int),
{
    let ghost av = a@.map_values(|s: String| s@);
    let ghost bv = b@.map_values(|s: String| s@);
    let mut out: Vec<String> = Vec::new();
    let mut k: usize = 0;
    while k < a.len()
        invariant
            k <= a@.len(),
            av == a@.map_values(|s: String| s@),
            bv == b@.map_values(|s: String| s@),
            out@.map_values(|s: String| s@) == missing_from(av, bv, k as int),
        decreases a@.len() - k,
    {
        proof {
            assert(av[k as int] == a@[k as int]@);
        }
        if !is_known(b.as_slice(), a[k].as_str()) {
            let ghost before = out@.map_values(|s: String| s@);
            out.push(string_from_chars(&chars_of(a[k].as_str())));
            proof {
                assert(out@.map_values(|s: String| s@) =~= before.push(av[k as int]));
            }
        }
        k = k + 1;
    }
    out
}

/// `Debug` text of a list of strings.
fn strings_debug(items: &Vec<String>) -> (out: String)
    ensures
        out@ == debug_strings(items@.map_values(|s: String| s@)),
{
    let mut parts: Vec<String> = Vec::new();
    let mut k: usize = 0;
    while k < items.len()
        invariant
            k <= items@.len(),
            parts@.map_values(|s: String| s@) == items@.map_values(|s: String| s@).take(k as int).map_values(|x: Seq<char>| quoted_of(x)),
        decreases items@.len() - k,
    {
        let q = quoted(items[k].as_str());
        let ghost before = parts@.map_values(|s: String| s@);
        parts.push(q);
        proof {
            assert(parts@.map_values(|s: String| s@) =~= before.push(q@));
            assert(items@.map_values(|s: String| s@).take(k + 1).map_values(|x: Seq<char>| quoted_of(x))
                =~= items@.map_values(|s: String| s@).take(k as int).map_values(|x: Seq<char>| quoted_of(x)).push(quoted_of(items@[k as int]@)));
        }
        k = k + 1;
    }
    proof {
        assert(items@.map_values(|s: String| s@).take(items@.len() as int) =~= items@.map_values(|s: String| s@));
    }
    bracket_parts(&parts)
}

/// `Debug` text of a map from strings to counts.
fn counts_debug(entries: &Vec<(String, u32)>) -> (out: String)
    ensures
        out@ == debug_counts(count_views(entries@)),
{
    let ghost cv = count_views(entries@);
    let mut parts: Vec<String> = Vec::new();
    let mut k: usize = 0;
    while k < entries.len()
        invariant
            k <= entries@.len(),
            cv == count_views(entries@),
            parts@.map_values(|s: String| s@)
                == cv.take(k as int).map_values(|e: (Seq<char>, int)| quoted_of(e.0) + ": "@ + decimal(e.1 as nat)),
        decreases entries@.len() - k,
    {
        let mut p = quoted(entries[k].0.as_str());
        push_all(&mut p, ": ");
        push_all(&mut p, string_from_chars(&decimal_string(entries[k].1 as u64)).as_str());
        let ghost before = parts@.map_values(|s: String| s@);
        parts.push(p);
        proof {
            assert(cv[k as int] == (entries@[k as int].0@, entries@[k as int].1 as int));
            assert(parts@.map_values(|s: String| s@) =~= before.push(p@));
            assert(cv.take(k + 1).map_values(|e: (Seq<char>, int)| quoted_of(e.0) + ": "@ + decimal(e.1 as nat))
                =~= cv.take(k as int).map_values(|e: (Seq<char>, int)| quoted_of(e.0) + ": "@ + decimal(e.1 as nat)).push(p@));
        }
        k = k + 1;
    }
    proof {
        assert(cv.take(cv.len() as int) =~= cv);
    }
    brace_parts(&parts)
}

/// Appends one issue with no path.
fn push_global(issues: &mut Vec<LintIssue>, code: &'static str, message: String)
    ensures
        final(issues)@.map_values(|i: LintIssue| issue_view(i))
            == old(issues)@.map_values(|i: LintIssue| issue_view(i)).push(("<global>"@, LintSeverity::Error, code@, message@, None)),
{
    let ghost before = issues@.map_values(|i: LintIssue| issue_view(i));
    let issue = LintIssue {
        instance_id: string_from_chars(&chars_of("<global>")),
        severity: LintSeverity::Error,
        code,
        message,
        path: None,
    };
    issues.push(issue);
    proof {
        assert(issues@.map_values(|i: LintIssue| issue_view(i)) =~= before.push(issue_view(issue)));
    }
}

/// Release-coherence checks on the manifest, given the benchmark's instance
/// ids and domains (in id order) and the hashes of their directories (or
/// the error met computing them). Issues are appended in the order of
/// `manifest_issues`.
pub fn check_manifest(
    manifest: &Option<BenchmarkManifest>,
    instance_ids: &Vec<String>,
    domains: &Vec<Domain>,
    dir_hashes: &Result<Vec<String>, String>,
    issues: &mut Vec<LintIssue>,
)
    requires
        domains@.len() <= u32::MAX,
        dir_hashes matches Ok(hs) ==> hs@.len() == instance_ids@.len(),
    ensures
        final(issues)@.map_values(|i: LintIssue| issue_view(i))
            == old(issues)@.map_values(|i: LintIssue| issue_view(i)) + manifest_issues(*manifest,
                instance_ids@.map_values(|s: String| s@), domains@,
                match dir_hashes { Ok(hs) => Ok(hs@.map_values(|s: String| s@)), Err(e) => Err(e@) }),
{
    let ghost start = issues@.map_values(|i: LintIssue| issue_view(i));
    let ghost ids = instance_ids@.map_values(|s: String| s@);
    let m = match manifest {
        None => {
            push_global(issues, "MANIFEST_MISSING",
                string_from_chars(&chars_of("benchmark manifest not found; regenerate with `cta benchmark manifest`")));
            return;
        },
        Some(m) => m,
    };
    let mut mids: Vec<String> = Vec::new();
    let mut k: usize = 0;
    while k < m.instance_hashes.len()
        invariant
            k <= m.instance_hashes@.len(),
            mids@.map_values(|s: String| s@) == manifest_ids(*m).take(k as int),
        decreases m.instance_hashes@.len() - k,
    {
        let ghost before = mids@.map_values(|s: String| s@);
        mids.push(string_from_chars(&chars_of(m.instance_hashes[k].0.as_str())));
        proof {
            assert(mids@.map_values(|s: String| s@) =~= before.push(m.instance_hashes@[k as int].0@));
            assert(manifest_ids(*m).take(k + 1) =~= manifest_ids(*m).take(k as int).push(m.instance_hashes@[k as int].0@));
        }
        k = k + 1;
    }
    proof {
        assert(manifest_ids(*m).take(m.instance_hashes@.len() as int) =~= manifest_ids(*m));
    }
    let ghost mv = manifest_ids(*m);
    let only_manifest = missing_strings(&mids, instance_ids);
    let only_disk = missing_strings(instance_ids, &mids);
    proof {
        lemma_missing_empty(mv, ids, mv.len() as int);
        lemma_missing_empty(ids, mv, ids.len() as int);
        lemma_same_set(mv, ids);
    }
    let ghost set_part = if mv.to_set() != ids.to_set() {
        seq![("<global>"@, LintSeverity::Error, "MANIFEST_INSTANCE_SET_MISMATCH"@,
            "manifest instance set disagrees with loaded benchmark: only-in-manifest="@
                + debug_strings(missing_from(mv, ids, mv.len() as int)) + ", only-on-disk="@
                + debug_strings(missing_from(ids, mv, ids.len() as int)), None)]
    } else {
        Seq::empty()
    };
    if only_manifest.len() > 0 || only_disk.len() > 0 {
        let mut msg = string_from_chars(&chars_of("manifest instance set disagrees with loaded benchmark: only-in-manifest="));
        push_all(&mut msg, strings_debug(&only_manifest).as_str());
        push_all(&mut msg, ", only-on-disk=");
        push_all(&mut msg, strings_debug(&only_disk).as_str());
        push_global(issues, "MANIFEST_INSTANCE_SET_MISMATCH", msg);
    }
    assert(issues@.map_values(|i: LintIssue| issue_view(i)) =~= start + set_part);
    let on_disk = count_domains(domains.as_slice());
    let ghost od = domain_counts(domains@);
    let same_counts = same_count_lists(&m.instance_count_by_domain, &on_disk);
    let ghost count_part = if count_views(m.instance_count_by_domain@) != od {
        seq![("<global>"@, LintSeverity::Error, "MANIFEST_DOMAIN_COUNT_MISMATCH"@,
            "manifest instance_count_by_domain="@ + debug_counts(count_views(m.instance_count_by_domain@))
                + " disagrees with on-disk counts="@ + debug_counts(od), None)]
    } else {
        Seq::empty()
    };
    if !same_counts {
        let mut msg = string_from_chars(&chars_of("manifest instance_count_by_domain="));
        push_all(&mut msg, counts_debug(&m.instance_count_by_domain).as_str());
        push_all(&mut msg, " disagrees with on-disk counts=");
        push_all(&mut msg, counts_debug(&on_disk).as_str());
        push_global(issues, "MANIFEST_DOMAIN_COUNT_MISMATCH", msg);
    }
    assert(issues@.map_values(|i: LintIssue| issue_view(i)) =~= start + set_part + count_part);
    match dir_hashes {
        Ok(hs) => {
            let mut entries: Vec<(String, String)> = Vec::new();
            let mut j: usize = 0;
            while j < instance_ids.len()
                invariant
                    j <= instance_ids@.len(),
                    hs@.len() == instance_ids@.len(),
                    entry_views(entries@) == fresh_entries(ids, hs@.map_values(|s: String| s@)).take(j as int),
                    ids == instance_ids@.map_values(|s: String| s@),
                decreases instance_ids@.len() - j,
            {
                let mut h = string_from_chars(&chars_of("sha256:"));
                push_all(&mut h, hs[j].as_str());
                let ghost before = entry_views(entries@);
                entries.push((string_from_chars(&chars_of(instance_ids[j].as_str())), h));
                proof {
                    assert(entry_views(entries@) =~= before.push((instance_ids@[j as int]@, "sha256:"@ + hs@[j as int]@)));
                    assert(fresh_entries(ids, hs@.map_values(|s: String| s@)).take(j + 1)
                        =~= fresh_entries(ids, hs@.map_values(|s: String| s@)).take(j as int).push((ids[j as int], "sha256:"@ + hs@[j as int]@)));
                }
                j = j + 1;
            }
            proof {
                assert(fresh_entries(ids, hs@.map_values(|s: String| s@)).take(ids.len() as int)
                    =~= fresh_entries(ids, hs@.map_values(|s: String| s@)));
            }
            let fresh = rollup_hash(&entries);
            if !str_eq(fresh.as_str(), m.content_hash.as_str()) {
                let mut msg = string_from_chars(&chars_of("manifest content_hash="));
                push_all(&mut msg, m.content_hash.as_str());
                push_all(&mut msg, " does not match recomputed=");
                push_all(&mut msg, fresh.as_str());
                push_all(&mut msg, "; regenerate with `cta benchmark manifest --version ");
                push_all(&mut msg, m.benchmark_version.as_str());
                push_all(&mut msg, "`");
                push_global(issues, "MANIFEST_CONTENT_HASH_STALE", msg);
            }
        },
        Err(e) => {
            let mut msg = string_from_chars(&chars_of("failed to recompute manifest for comparison: "));
            push_all(&mut msg, e.as_str());
            push_global(issues, "MANIFEST_RECOMPUTE_FAILED", msg);
        },
    }
    assert(issues@.map_values(|i: LintIssue| issue_view(i)) =~= start + manifest_issues(*manifest, ids, domains@,
        match dir_hashes { Ok(hs) => Ok(hs@.map_values(|s: String| s@)), Err(e) => Err(e@) }));
}

/// Whether two count lists are equal.
fn same_count_lists(a: &Vec<(String, u32)>, b: &Vec<(String, u32)>) -> (r: bool)
    ensures
        r == (count_views(a@) == count_views(b@)),
{
    if a.len() != b.len() {
        proof {
            assert(count_views(a@).len() != count_views(b@).len());
        }
        return false;
    }
    let mut k: usize = 0;
    while k < a.len()
        invariant
            k <= a@.len(),
            a@.len() == b@.len(),
            forall|j: int| 0 <= j < k ==> count_views(a@)[j] == count_views(b@)[j],
        decreases a@.len() - k,
    {
        if !str_eq(a[k].0.as_str(), b[k].0.as_str()) || a[k].1 != b[k].1 {
            proof {
                assert(count_views(a@)[k as int] != count_views(b@)[k as int]);
            }
            return false;
        }
        k = k + 1;
    }
    assert(count_views(a@) =~= count_views(b@));
    true
}


/// An experiment config together with what the file system says of the
/// configs it names.
#[derive(Debug, Clone)]
pub struct ExperimentFacts {
    /// The experiment config.
    pub summary: ExperimentConfigSummary,
    /// For each system (same order), whether its prompt config is a file.
    pub prompt_present: Vec<bool>,
    /// For each provider config (same order), whether it is a file.
    pub provider_present: Vec<bool>,
}

/// Where the prompt config of `system` lives: `configs/prompts/<system>.json`
/// under the workspace root.
pub open spec fn prompt_path(root: Seq<char>, system: Seq<char>) -> Seq<char> {
    path_push(path_push(path_push(root, "configs"@), "prompts"@), system + ".json"@)
}

/// Where a provider config lives: the workspace-relative path under the
/// workspace root (an absolute path stands as it is).
pub open spec fn provider_path(root: Seq<char>, provider: Seq<char>) -> Seq<char> {
    path_push(root, provider)
}

/// `prompt_path(root, system)`.
pub fn prompt_config_path(root: &str, system: &str) -> (out: String)
    ensures
        out@ == prompt_path(root@, system@),
{
    let mut out = string_from_chars(&chars_of(root));
    push_path(&mut out, "configs");
    push_path(&mut out, "prompts");
    let mut file = string_from_chars(&chars_of(system));
    push_all(&mut file, ".json");
    push_path(&mut out, file.as_str());
    out
}

/// `provider_path(root, provider)`.
pub fn provider_config_path(root: &str, provider: &str) -> (out: String)
    ensures
        out@ == provider_path(root@, provider@),
{
    let mut out = string_from_chars(&chars_of(root));
    push_path(&mut out, provider);
    out
}

/// The experiment's issue located at its config file.
pub open spec fn exp_issue(f: ExperimentFacts, code: Seq<char>, msg: Seq<char>)
    -> (Seq<char>, LintSeverity, Seq<char>, Seq<char>, Option<Seq<char>>) {
    ("<global>"@, LintSeverity::Error, code, msg, Some(f.summary.source_path@))
}

/// Issues for the systems `systems[..k]` whose prompt config is missing.
pub open spec fn system_issues(root: Seq<char>, f: ExperimentFacts, k: int)
    -> Seq<(Seq<char>, LintSeverity, Seq<char>, Seq<char>, Option<Seq<char>>)>
    decreases k,
{
    if k <= 0 || k > f.summary.systems@.len() {
        Seq::empty()
    } else {
        let sys = f.summary.systems@[k - 1]@;
        system_issues(root, f, k - 1) + if f.prompt_present@[k - 1] {
            Seq::empty()
        } else {
            seq![exp_issue(f, "EXPERIMENT_REFERENCES_UNKNOWN_SYSTEM"@,
                "experiment '"@ + f.summary.experiment_id@ + "' references system '"@ + sys
                    + "' but no prompt config exists at "@ + prompt_path(root, sys))]
        }
    }
}

/// Issues for the provider configs `providers[..k]` that are missing.
pub open spec fn provider_issues(root: Seq<char>, f: ExperimentFacts, k: int)
    -> Seq<(Seq<char>, LintSeverity, Seq<char>, Seq<char>, Option<Seq<char>>)>
    decreases k,
{
    if k <= 0 || k > f.summary.providers@.len() {
        Seq::empty()
    } else {
        let prov = f.summary.providers@[k - 1]@;
        provider_issues(root, f, k - 1) + if f.provider_present@[k - 1] {
            Seq::empty()
        } else {
            seq![exp_issue(f, "EXPERIMENT_REFERENCES_MISSING_PROVIDER_CONFIG"@,
                "experiment '"@ + f.summary.experiment_id@ + "' references provider config '"@ + prov
                    + "' but "@ + provider_path(root, prov) + " is missing"@)]
        }
    }
}

/// The position of the split named `name`, if one is.
pub open spec fn split_at(splits: Seq<Split>, name: SplitName) -> Option<int> {
    if exists|k: int| 0 <= k < splits.len() && #[trigger] splits[k].split == name {
        Some(choose|k: int| 0 <= k < splits.len() && #[trigger] splits[k].split == name)
    } else {
        None
    }
}

/// The issues of one experiment: an unknown split name (and nothing more);
/// otherwise an empty or unshipped split, then each system without a prompt
/// config, then each missing provider config.
#[verifier::opaque]
pub open spec fn experiment_issues(root: Seq<char>, splits: Seq<Split>, f: ExperimentFacts)
    -> Seq<(Seq<char>, LintSeverity, Seq<char>, Seq<char>, Option<Seq<char>>)> {
    let id = f.summary.experiment_id@;
    match split_from_str(f.summary.split@) {
        None => seq![exp_issue(f, "EXPERIMENT_UNKNOWN_SPLIT"@,
            "experiment '"@ + id + "' references unknown split '"@ + f.summary.split@ + "'"@)],
        Some(name) => {
            let split_part = match split_at(splits, name) {
                Some(k) => if splits[k].instance_ids@.len() == 0 {
                    seq![exp_issue(f, "EXPERIMENT_REFERENCES_EMPTY_SPLIT"@,
                        "experiment '"@ + id + "' references empty split '"@ + split_name_str(name) + "' at "@
                            + splits[k].source_path@)]
                } else {
                    Seq::empty()
                },
                None => seq![exp_issue(f, "EXPERIMENT_REFERENCES_EMPTY_SPLIT"@,
                    "experiment '"@ + id + "' references split '"@ + split_name_str(name)
                        + "' which is not shipped with this benchmark version"@)],
            };
            split_part + system_issues(root, f, f.summary.systems@.len() as int)
                + provider_issues(root, f, f.summary.providers@.len() as int)
        },
    }
}

/// The issues of `experiments[..k]`, one experiment after another.
pub open spec fn experiments_issues(root: Seq<char>, splits: Seq<Split>, experiments: Seq<ExperimentFacts>, k: int)
    -> Seq<(Seq<char>, LintSeverity, Seq<char>, Seq<char>, Option<Seq<char>>)>
    decreases k,
{
    if k <= 0 || k > experiments.len() {
        Seq::empty()
    } else {
        experiments_issues(root, splits, experiments, k - 1) + experiment_issues(root, splits, experiments[k - 1])
    }
}

/// The facts line up with the names they describe.
pub open spec fn facts_aligned(f: ExperimentFacts) -> bool {
    &&& f.prompt_present@.len() == f.summary.systems@.len()
    &&& f.provider_present@.len() == f.summary.providers@.len()
}

/// Appends an issue located at an experiment config.
fn push_at(issues: &mut Vec<LintIssue>, code: &'static str, message: String, path: &str)
    ensures
        final(issues)@.map_values(|i: LintIssue| issue_view(i))
            == old(issues)@.map_values(|i: LintIssue| issue_view(i)).push(("<global>"@, LintSeverity::Error, code@, message@, Some(path@))),
{
    let ghost before = issues@.map_values(|i: LintIssue| issue_view(i));
    let issue = LintIssue {
        instance_id: string_from_chars(&chars_of("<global>")),
        severity: LintSeverity::Error,
        code,
        message,
        path: Some(string_from_chars(&chars_of(path))),
    };
    issues.push(issue);
    proof {
        assert(issues@.map_values(|i: LintIssue| issue_view(i)) =~= before.push(issue_view(issue)));
    }
}

/// `"experiment '" + id + middle`, a common message head.
fn exp_message(id: &str, middle: &str) -> (out: String)
    ensures
        out@ == "experiment '"@ + id@ + middle@,
{
    let mut out = string_from_chars(&chars_of("experiment '"));
    push_all(&mut out, id);
    push_all(&mut out, middle);
    out
}

/// Finds the split named `name`.
fn find_split(splits: &[Split], name: SplitName) -> (r: Option<usize>)
    requires
        names_increasing(splits@),
    ensures
        match r {
            Some(k) => split_at(splits@, name) == Some(k as int) && k < splits@.len(),
            None => split_at(splits@, name) is None,
        },
{
    let mut k: usize = 0;
    while k < splits.len()
        invariant
            k <= splits@.len(),
            names_increasing(splits@),
            forall|j: int| 0 <= j < k ==> splits@[j].split != name,
        decreases splits@.len() - k,
    {
        if splits[k].split == name {
            proof {
                let c = choose|c: int| 0 <= c < splits@.len() && #[trigger] splits@[c].split == name;
                if c != k {
                    if c < k {
                        assert(splits@[c].split != name);
                    } else {
                        assert(splits@[k as int].split != splits@[c].split);
                    }
                }
            }
            return Some(k);
        }
        k = k + 1;
    }
    None
}

/// Appends the issues of one experiment.
fn check_experiment(root: &str, splits: &[Split], f: &ExperimentFacts, issues: &mut Vec<LintIssue>)
    requires
        names_increasing(splits@),
        facts_aligned(*f),
    ensures
        final(issues)@.map_values(|i: LintIssue| issue_view(i))
            == old(issues)@.map_values(|i: LintIssue| issue_view(i)) + experiment_issues(root@, splits@, *f),
{
    reveal(experiment_issues);
    let ghost start = issues@.map_values(|i: LintIssue| issue_view(i));
    let s = &f.summary;
    let id = s.experiment_id.as_str();
    let path = s.source_path.as_str();
    let name = match SplitName::parse(s.split.as_str()) {
        None => {
            let mut msg = exp_message(id, "' references unknown split '");
            push_all(&mut msg, s.split.as_str());
            push_all(&mut msg, "'");
            push_at(issues, "EXPERIMENT_UNKNOWN_SPLIT", msg, path);
            assert(issues@.map_values(|i: LintIssue| issue_view(i)) =~= start + experiment_issues(root@, splits@, *f));
            return;
        },
        Some(n) => n,
    };
    let ghost split_part = match split_at(splits@, name) {
        Some(k) => if splits@[k].instance_ids@.len() == 0 {
            seq![exp_issue(*f, "EXPERIMENT_REFERENCES_EMPTY_SPLIT"@,
                "experiment '"@ + id@ + "' references empty split '"@ + split_name_str(name) + "' at "@
                    + splits@[k].source_path@)]
        } else {
            Seq::empty()
        },
        None => seq![exp_issue(*f, "EXPERIMENT_REFERENCES_EMPTY_SPLIT"@,
            "experiment '"@ + id@ + "' references split '"@ + split_name_str(name)
                + "' which is not shipped with this benchmark version"@)],
    };
    match find_split(splits, name) {
        Some(k) => {
            if splits[k].is_empty() {
                let mut msg = exp_message(id, "' references empty split '");
                push_all(&mut msg, name.as_str());
                push_all(&mut msg, "' at ");
                push_all(&mut msg, splits[k].source_path.as_str());
                push_at(issues, "EXPERIMENT_REFERENCES_EMPTY_SPLIT", msg, path);
            }
        },
        None => {
            let mut msg = exp_message(id, "' references split '");
            push_all(&mut msg, name.as_str());
            push_all(&mut msg, "' which is not shipped with this benchmark version");
            push_at(issues, "EXPERIMENT_REFERENCES_EMPTY_SPLIT", msg, path);
        },
    }
    assert(issues@.map_values(|i: LintIssue| issue_view(i)) =~= start + split_part);
    let mut k: usize = 0;
    while k < s.systems.len()
        invariant
            k <= s.systems@.len(),
            *s == f.summary,
            facts_aligned(*f),
            id@ == f.summary.experiment_id@,
            path@ == f.summary.source_path@,
            issues@.map_values(|i: LintIssue| issue_view(i)) == start + split_part + system_issues(root@, *f, k as int),
        decreases s.systems@.len() - k,
    {
        if !f.prompt_present[k] {
            let mut msg = exp_message(id, "' references system '");
            push_all(&mut msg, s.systems[k].as_str());
            push_all(&mut msg, "' but no prompt config exists at ");
            push_all(&mut msg, prompt_config_path(root, s.systems[k].as_str()).as_str());
            push_at(issues, "EXPERIMENT_REFERENCES_UNKNOWN_SYSTEM", msg, path);
        }
        assert(issues@.map_values(|i: LintIssue| issue_view(i)) =~= start + split_part + system_issues(root@, *f, k + 1));
        k = k + 1;
    }
    let ghost mid = start + split_part + system_issues(root@, *f, s.systems@.len() as int);
    let mut p: usize = 0;
    while p < s.providers.len()
        invariant
            p <= s.providers@.len(),
            *s == f.summary,
            facts_aligned(*f),
            id@ == f.summary.experiment_id@,
            path@ == f.summary.source_path@,
            issues@.map_values(|i: LintIssue| issue_view(i)) == mid + provider_issues(root@, *f, p as int),
        decreases s.providers@.len() - p,
    {
        if !f.provider_present[p] {
            let mut msg = exp_message(id, "' references provider config '");
            push_all(&mut msg, s.providers[p].as_str());
            push_all(&mut msg, "' but ");
            push_all(&mut msg, provider_config_path(root, s.providers[p].as_str()).as_str());
            push_all(&mut msg, " is missing");
            push_at(issues, "EXPERIMENT_REFERENCES_MISSING_PROVIDER_CONFIG", msg, path);
        }
        assert(issues@.map_values(|i: LintIssue| issue_view(i)) =~= mid + provider_issues(root@, *f, p + 1));
        p = p + 1;
    }
    assert(issues@.map_values(|i: LintIssue| issue_view(i)) =~= start + experiment_issues(root@, splits@, *f));
}

/// Release-coherence checks on the experiment configs, one after another:
/// the split each names must be known, shipped and non-empty, and the
/// prompt config of each system and each provider config must exist.
pub fn check_experiments(root: &str, splits: &[Split], experiments: &Vec<ExperimentFacts>, issues: &mut Vec<LintIssue>)
    requires
        names_increasing(splits@),
        forall|k: int| 0 <= k < experiments@.len() ==> facts_aligned(#[trigger] experiments@[k]),
    ensures
        final(issues)@.map_values(|i: LintIssue| issue_view(i))
            == old(issues)@.map_values(|i: LintIssue| issue_view(i))
                + experiments_issues(root@, splits@, experiments@, experiments@.len() as int),
{
    let ghost start = issues@.map_values(|i: LintIssue| issue_view(i));
    let mut k: usize = 0;
    while k < experiments.len()
        invariant
            k <= experiments@.len(),
            names_increasing(splits@),
            forall|j: int| 0 <= j < experiments@.len() ==> facts_aligned(#[trigger] experiments@[j]),
            issues@.map_values(|i: LintIssue| issue_view(i)) == start + experiments_issues(root@, splits@, experiments@, k as int),
        decreases experiments@.len() - k,
    {
        check_experiment(root, splits, &experiments[k], issues);
        assert(issues@.map_values(|i: LintIssue| issue_view(i)) =~= start + experiments_issues(root@, splits@, experiments@, k + 1));
        k = k + 1;
    }
}


/// Runs every release-level coherence check: the splits, the manifest and
/// the experiment configs, in that order. The benchmark is given as its
/// instances (id and domain) in id order, with the hashes of their
/// directories (or the error met computing them); the splits in name order.
pub fn validate_release(
    root: &str,
    splits: &[Split],
    instances: &Vec<(String, Domain)>,
    manifest: &Option<BenchmarkManifest>,
    dir_hashes: &Result<Vec<String>, String>,
    experiments: &Vec<ExperimentFacts>,
) -> (report: LintReport)
    requires
        names_increasing(splits@),
        instances@.len() <= u32::MAX,
        dir_hashes matches Ok(hs) ==> hs@.len() == instances@.len(),
        forall|k: int| 0 <= k < experiments@.len() ==> facts_aligned(#[trigger] experiments@[k]),
    ensures
        report.issues@.map_values(|i: LintIssue| issue_view(i))
            == split_check_issues(splits@, instances@.map_values(|t: (String, Domain)| t.0@))
                + manifest_issues(*manifest, instances@.map_values(|t: (String, Domain)| t.0@),
                    instances@.map_values(|t: (String, Domain)| t.1),
                    match dir_hashes { Ok(hs) => Ok(hs@.map_values(|s: String| s@)), Err(e) => Err(e@) })
                + experiments_issues(root@, splits@, experiments@, experiments@.len() as int),
{
    let mut ids: Vec<String> = Vec::new();
    let mut domains: Vec<Domain> = Vec::new();
    let mut k: usize = 0;
    while k < instances.len()
        invariant
            k <= instances@.len(),
            ids@.map_values(|s: String| s@) == instances@.take(k as int).map_values(|t: (String, Domain)| t.0@),
            domains@ == instances@.take(k as int).map_values(|t: (String, Domain)| t.1),
        decreases instances@.len() - k,
    {
        let ghost before = ids@.map_values(|s: String| s@);
        ids.push(string_from_chars(&chars_of(instances[k].0.as_str())));
        domains.push(instances[k].1);
        proof {
            assert(ids@.map_values(|s: String| s@) =~= before.push(instances@[k as int].0@));
            assert(instances@.take(k + 1).map_values(|t: (String, Domain)| t.0@)
                =~= instances@.take(k as int).map_values(|t: (String, Domain)| t.0@).push(instances@[k as int].0@));
            assert(instances@.take(k + 1).map_values(|t: (String, Domain)| t.1)
                =~= instances@.take(k as int).map_values(|t: (String, Domain)| t.1).push(instances@[k as int].1));
        }
        k = k + 1;
    }
    proof {
        assert(instances@.take(instances@.len() as int) =~= instances@);
    }
    let mut issues: Vec<LintIssue> = Vec::new();
    assert(issues@.map_values(|i: LintIssue| issue_view(i)) =~= Seq::empty());
    check_splits(splits, ids.as_slice(), &mut issues);
    check_manifest(manifest, &ids, &domains, dir_hashes, &mut issues);
    check_experiments(root, splits, experiments, &mut issues);
    proof {
        assert(ids@.map_values(|s: String| s@) == instances@.map_values(|t: (String, Domain)| t.0@));
    }
    LintReport { issues }
}

} // verus!
