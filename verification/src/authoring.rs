//! Authoring lint: warnings about how an instance's gold obligations and
//! semantic units are written (vacuous termination statements, bare
//! universal preconditions, unlinked obligations, uncovered critical units,
//! and postcondition-only sets where loops are hinted at).

use vstd::prelude::*;
use crate::axiomize::{trim_start, trim_end, trim_end_chars, trim_start_chars};
use crate::lean::{ascii_lower_seq, contains_sub, lower_chars};
use crate::lint::{issue_view, issue_views, LintIssue, LintSeverity};
use crate::review_text::contains;
use crate::text::{chars_of, push_all, str_eq, string_from_chars};
use crate::basics::grammar::{has_prefix, starts_with};

verus! {

/// The text matches `∃\s*[^,]+,[^=]*=` somewhere: an `∃`, at least one
/// character that is not a comma, a comma, then an `=` with no `=` before
/// it after the comma.
pub open spec fn vacuous_existential(s: Seq<char>) -> bool {
    exists|i: int, j: int, k: int| #![trigger s[i], s[j], s[k]]
        0 <= i && i + 1 < j && j < k && k < s.len()
        && s[i] == '∃' && s[j] == ',' && s[k] == '='
        && (forall|t: int| i < t < j ==> s[t] != ',')
        && (forall|t: int| j < t < k ==> s[t] != '=')
}

/// The whole text matches `^∀[^→]*$`: it opens with `∀` and holds no `→`.
pub open spec fn unconditional_universal(s: Seq<char>) -> bool {
    s.len() > 0 && s[0] == '∀' && forall|t: int| 1 <= t < s.len() ==> s[t] != '→'
}

/// `str::trim`.
pub open spec fn trimmed(s: Seq<char>) -> Seq<char> {
    trim_start(trim_end(s))
}

/// First position at or after `from` holding `c` (`s.len()` when none does).
fn find_char(s: &[char], from: usize, c: char) -> (r: usize)
    requires
        from <= s@.len(),
    ensures
        from <= r <= s@.len(),
        r < s@.len() ==> s@[r as int] == c,
        forall|t: int| from <= t < r ==> s@[t] != c,
{
    let mut r = from;
    while r < s.len() && s[r] != c
        invariant
            from <= r <= s@.len(),
            forall|t: int| from <= t < r ==> s@[t] != c,
        decreases s@.len() - r,
    {
        r = r + 1;
    }
    r
}

/// Whether the text matches `∃\s*[^,]+,[^=]*=`.
pub fn is_vacuous_existential(text: &str) -> (b: bool)
    ensures
        b == vacuous_existential(text@),
{
    let s = chars_of(text);
    let n = s.len();
    let mut i: usize = 0;
    while i < n
        invariant
            n == s@.len(),
            s@ == text@,
            i <= n,
            forall|a: int, j: int, k: int| #![trigger s@[a], s@[j], s@[k]]
                0 <= a < i && a + 1 < j && j < k && k < n && s@[a] == '∃' && s@[j] == ',' && s@[k] == '='
                && (forall|t: int| a < t < j ==> s@[t] != ',')
                ==> exists|t: int| j < t < k && s@[t] == '=',
        decreases n - i,
    {
        if s[i] == '∃' {
            let j = find_char(s.as_slice(), i + 1, ',');
            if j < n && j >= i + 2 {
                let k = find_char(s.as_slice(), j + 1, '=');
                if k < n {
                    proof {
                        assert(s@[i as int] == '∃' && s@[j as int] == ',' && s@[k as int] == '=');
                    }
                    return true;
                }
            }
            proof {
                assert forall|j2: int, k2: int| #![trigger s@[j2], s@[k2]]
                    i + 1 < j2 && j2 < k2 && k2 < n && s@[j2] == ',' && s@[k2] == '='
                    && (forall|t: int| i < t < j2 ==> s@[t] != ',')
                    implies exists|t: int| j2 < t < k2 && s@[t] == '=' by {
                    if j < n && j < j2 {
                        assert(s@[j as int] == ',');
                    }
                    if j > j2 {
                        assert(s@[j2] != ',');
                    }
                }
            }
        }
        i = i + 1;
    }
    proof {
        if vacuous_existential(text@) {
            let (a, j, k) = choose|a: int, j: int, k: int| #![trigger s@[a], s@[j], s@[k]]
                0 <= a && a + 1 < j && j < k && k < s@.len()
                && s@[a] == '∃' && s@[j] == ',' && s@[k] == '='
                && (forall|t: int| a < t < j ==> s@[t] != ',')
                && (forall|t: int| j < t < k ==> s@[t] != '=');
            assert(exists|t: int| j < t < k && s@[t] == '=');
        }
    }
    false
}

/// Whether the trimmed text matches `^∀[^→]*$`.
pub fn is_unconditional_universal(text: &str) -> (b: bool)
    ensures
        b == unconditional_universal(trimmed(text@)),
{
    let t = trim_start_chars(trim_end_chars(chars_of(text).as_slice()).as_slice());
    if t.len() == 0 || t[0] != '∀' {
        return false;
    }
    let k = find_char(t.as_slice(), 1, '→');
    k == t.len()
}

/// What the authoring lint reads of an obligation: its `id`, `kind` and
/// `lean_statement` (`None` when absent or not a string) and the string
/// entries of `linked_semantic_units`.
#[derive(Debug, Clone)]
pub struct AuthoringObligation {
    /// Obligation id.
    pub id: Option<String>,
    /// Obligation kind.
    pub kind: Option<String>,
    /// Lean statement.
    pub lean_statement: Option<String>,
    /// Linked semantic unit ids.
    pub linked_semantic_units: Vec<String>,
}

/// What the authoring lint reads of a semantic unit.
#[derive(Debug, Clone)]
pub struct AuthoringUnit {
    /// Unit id.
    pub id: Option<String>,
    /// Criticality (absent reads as `optional`).
    pub criticality: Option<String>,
}

/// What the authoring lint reads of an instance.
#[derive(Debug, Clone)]
pub struct AuthoringFacts {
    /// Instance id.
    pub instance_id: String,
    /// Path of the reference obligations file.
    pub obligations_path: String,
    /// Path of the semantic units file.
    pub units_path: String,
    /// The `obligations` array, when the file reads and parses and has one.
    pub obligations: Option<Vec<AuthoringObligation>>,
    /// The `units` array, likewise.
    pub units: Option<Vec<AuthoringUnit>>,
    /// `informal_statement.required_properties`.
    pub required_properties: Vec<String>,
}

/// A string field, empty when absent.
pub open spec fn text_or_empty(o: Option<String>) -> Seq<char> {
    match o { Some(s) => s@, None => Seq::empty() }
}

/// A warning located at `path`.
pub open spec fn warning_at(id: Seq<char>, code: Seq<char>, msg: Seq<char>, path: Seq<char>)
    -> (Seq<char>, LintSeverity, Seq<char>, Seq<char>, Option<Seq<char>>) {
    (id, LintSeverity::Warning, code, msg, Some(path))
}

/// The warnings of one obligation, in order: a vacuous termination
/// statement, a bare universal precondition, no linked semantic unit.
pub open spec fn obligation_warnings(f: AuthoringFacts, o: AuthoringObligation)
    -> Seq<(Seq<char>, LintSeverity, Seq<char>, Seq<char>, Option<Seq<char>>)> {
    let oid = match o.id { Some(s) => s@, None => "<unknown>"@ };
    let kind = text_or_empty(o.kind);
    let lean = text_or_empty(o.lean_statement);
    let id = f.instance_id@;
    let path = f.obligations_path@;
    (if kind == "termination"@ && vacuous_existential(lean) {
        seq![warning_at(id, "AUTHORING_VACUOUS_TERMINATION"@, "obligation "@ + oid
            + " is a vacuous existential termination statement; prefer a well-founded measure or drop the obligation"@, path)]
    } else { Seq::empty() })
    + (if kind == "precondition"@ && unconditional_universal(trimmed(lean)) {
        seq![warning_at(id, "AUTHORING_UNCONDITIONAL_PRECONDITION"@, "obligation "@ + oid
            + " is a bare universal precondition with no downstream obligation; thread the precondition into the postcondition that uses it instead"@,
            path)]
    } else { Seq::empty() })
    + (if o.linked_semantic_units@.len() == 0 {
        seq![warning_at(id, "AUTHORING_OBLIGATION_NO_SEMANTIC_UNITS"@, "obligation "@ + oid
            + " is not linked to any semantic unit"@, path)]
    } else { Seq::empty() })
}

/// The warnings of `obs[..k]`, obligation by obligation.
pub open spec fn obligations_warnings(f: AuthoringFacts, obs: Seq<AuthoringObligation>, k: int)
    -> Seq<(Seq<char>, LintSeverity, Seq<char>, Seq<char>, Option<Seq<char>>)>
    decreases k,
{
    if k <= 0 || k > obs.len() {
        Seq::empty()
    } else {
        obligations_warnings(f, obs, k - 1) + obligation_warnings(f, obs[k - 1])
    }
}

/// Some obligation links the unit `su`.
pub open spec fn linked_anywhere(obs: Seq<AuthoringObligation>, su: Seq<char>) -> bool {
    exists|i: int, j: int| 0 <= i < obs.len() && 0 <= j < obs[i].linked_semantic_units@.len()
        && #[trigger] obs[i].linked_semantic_units@[j]@ == su
}

/// The warnings for the critical units among `units[..k]` that no
/// obligation links.
pub open spec fn units_warnings(f: AuthoringFacts, obs: Seq<AuthoringObligation>, units: Seq<AuthoringUnit>, k: int)
    -> Seq<(Seq<char>, LintSeverity, Seq<char>, Seq<char>, Option<Seq<char>>)>
    decreases k,
{
    if k <= 0 || k > units.len() {
        Seq::empty()
    } else {
        let u = units[k - 1];
        units_warnings(f, obs, units, k - 1) + match u.id {
            Some(su) => if (u.criticality matches Some(c) && c@ == "critical"@) && !linked_anywhere(obs, su@) {
                seq![warning_at(f.instance_id@, "AUTHORING_CRITICAL_SU_UNCOVERED"@, "critical semantic unit "@ + su@
                    + " is not linked to any gold obligation; either add a faithful obligation for it or demote it to supporting"@,
                    f.units_path@)]
            } else { Seq::empty() },
            None => Seq::empty(),
        }
    }
}

/// A required property hints at loops or invariants.
pub open spec fn hints_at_loops(props: Seq<String>) -> bool {
    exists|i: int| 0 <= i < props.len() && ({
        let p = ascii_lower_seq(#[trigger] props[i]@);
        contains_sub(p, "invariant"@) || contains_sub(p, "loop"@) || contains_sub(p, "recursion"@)
    })
}

/// The obligations are not empty and all postconditions.
pub open spec fn only_postconditions(obs: Seq<AuthoringObligation>) -> bool {
    obs.len() > 0 && forall|i: int| 0 <= i < obs.len() ==> ((#[trigger] obs[i]).kind matches Some(k) && k@ == "postcondition"@)
}

/// Every authoring warning of one instance, in the order the checks run.
#[verifier::opaque]
pub open spec fn authoring_warnings(f: AuthoringFacts)
    -> Seq<(Seq<char>, LintSeverity, Seq<char>, Seq<char>, Option<Seq<char>>)> {
    let obs = match f.obligations { Some(v) => v@, None => Seq::empty() };
    obligations_warnings(f, obs, obs.len() as int)
    + (match f.units {
        Some(us) => units_warnings(f, obs, us@, us@.len() as int),
        None => Seq::empty(),
    })
    + (if f.obligations is Some && only_postconditions(obs) && hints_at_loops(f.required_properties@) {
        seq![warning_at(f.instance_id@, "AUTHORING_NO_INVARIANT_STRUCTURE"@,
            "informal_statement hints at loops or invariants but the gold obligation set contains only postconditions"@,
            f.obligations_path@)]
    } else { Seq::empty() })
}

/// A copy of `s`.
fn owned(s: &str) -> (out: String)
    ensures
        out@ == s@,
{
    string_from_chars(&chars_of(s))
}

/// Appends a warning.
fn push_warning(issues: &mut Vec<LintIssue>, id: &str, code: &'static str, message: String, path: &str)
    ensures
        issue_views(final(issues)@) == issue_views(old(issues)@).push(warning_at(id@, code@, message@, path@)),
{
    let ghost before = issue_views(issues@);
    let issue = LintIssue {
        instance_id: owned(id),
        severity: LintSeverity::Warning,
        code,
        message,
        path: Some(owned(path)),
    };
    issues.push(issue);
    proof {
        assert(issue_views(issues@) =~= before.push(issue_view(issue)));
    }
}

/// `"obligation " + oid + tail`.
fn obligation_message(oid: &str, tail: &str) -> (out: String)
    ensures
        out@ == "obligation "@ + oid@ + tail@,
{
    let mut out = owned("obligation ");
    push_all(&mut out, oid);
    push_all(&mut out, tail);
    out
}

/// A string field as a `&str`, empty when absent.
fn field(o: &Option<String>) -> (s: &str)
    ensures
        s@ == text_or_empty(*o),
{
    match o {
        Some(s) => s.as_str(),
        None => {
            proof {
                reveal_strlit("");
            }
            ""
        },
    }
}

/// Appends the warnings of one obligation.
fn check_obligation(f: &AuthoringFacts, o: &AuthoringObligation, issues: &mut Vec<LintIssue>)
    ensures
        issue_views(final(issues)@) == issue_views(old(issues)@) + obligation_warnings(*f, *o),
{
    let ghost start = issue_views(issues@);
    let oid = match &o.id {
        Some(s) => s.as_str(),
        None => "<unknown>",
    };
    let kind = field(&o.kind);
    let lean = field(&o.lean_statement);
    let id = f.instance_id.as_str();
    let path = f.obligations_path.as_str();
    let ghost a = if kind@ == "termination"@ && vacuous_existential(lean@) {
        seq![warning_at(id@, "AUTHORING_VACUOUS_TERMINATION"@, "obligation "@ + oid@
            + " is a vacuous existential termination statement; prefer a well-founded measure or drop the obligation"@, path@)]
    } else { Seq::empty() };
    let ghost b = if kind@ == "precondition"@ && unconditional_universal(trimmed(lean@)) {
        seq![warning_at(id@, "AUTHORING_UNCONDITIONAL_PRECONDITION"@, "obligation "@ + oid@
            + " is a bare universal precondition with no downstream obligation; thread the precondition into the postcondition that uses it instead"@,
            path@)]
    } else { Seq::empty() };
    if str_eq(kind, "termination") && is_vacuous_existential(lean) {
        push_warning(issues, id, "AUTHORING_VACUOUS_TERMINATION", obligation_message(oid,
            " is a vacuous existential termination statement; prefer a well-founded measure or drop the obligation"), path);
    }
    assert(issue_views(issues@) =~= start + a);
    if str_eq(kind, "precondition") && is_unconditional_universal(lean) {
        push_warning(issues, id, "AUTHORING_UNCONDITIONAL_PRECONDITION", obligation_message(oid,
            " is a bare universal precondition with no downstream obligation; thread the precondition into the postcondition that uses it instead"),
            path);
    }
    assert(issue_views(issues@) =~= start + a + b);
    if o.linked_semantic_units.len() == 0 {
        push_warning(issues, id, "AUTHORING_OBLIGATION_NO_SEMANTIC_UNITS", obligation_message(oid,
            " is not linked to any semantic unit"), path);
    }
    proof {
        assert(oid@ == (match o.id { Some(s) => s@, None => "<unknown>"@ }));
        assert(issue_views(issues@) =~= start + obligation_warnings(*f, *o));
    }
}

/// Whether some obligation links `su`.
fn is_linked(obs: &Vec<AuthoringObligation>, su: &str) -> (b: bool)
    ensures
        b == linked_anywhere(obs@, su@),
{
    let mut i: usize = 0;
    while i < obs.len()
        invariant
            i <= obs@.len(),
            forall|a: int, j: int| 0 <= a < i && 0 <= j < obs@[a].linked_semantic_units@.len()
                ==> #[trigger] obs@[a].linked_semantic_units@[j]@ != su@,
        decreases obs@.len() - i,
    {
        let mut j: usize = 0;
        while j < obs[i].linked_semantic_units.len()
            invariant
                i < obs@.len(),
                j <= obs@[i as int].linked_semantic_units@.len(),
                forall|t: int| 0 <= t < j ==> #[trigger] obs@[i as int].linked_semantic_units@[t]@ != su@,
            decreases obs@[i as int].linked_semantic_units@.len() - j,
        {
            if str_eq(obs[i].linked_semantic_units[j].as_str(), su) {
                return true;
            }
            j = j + 1;
        }
        i = i + 1;
    }
    false
}

/// Whether a required property hints at loops or invariants.
fn any_loop_hint(props: &Vec<String>) -> (b: bool)
    ensures
        b == hints_at_loops(props@),
{
    let mut i: usize = 0;
    while i < props.len()
        invariant
            i <= props@.len(),
            forall|t: int| 0 <= t < i ==> !({
                let p = ascii_lower_seq(#[trigger] props@[t]@);
                contains_sub(p, "invariant"@) || contains_sub(p, "loop"@) || contains_sub(p, "recursion"@)
            }),
        decreases props@.len() - i,
    {
        let p = lower_chars(chars_of(props[i].as_str()).as_slice());
        if contains(p.as_slice(), "invariant") || contains(p.as_slice(), "loop") || contains(p.as_slice(), "recursion") {
            return true;
        }
        i = i + 1;
    }
    false
}

/// Whether the obligations are not empty and all postconditions.
fn all_postconditions(obs: &Vec<AuthoringObligation>) -> (b: bool)
    ensures
        b == only_postconditions(obs@),
{
    if obs.len() == 0 {
        return false;
    }
    let mut i: usize = 0;
    while i < obs.len()
        invariant
            i <= obs@.len(),
            forall|t: int| 0 <= t < i ==> ((#[trigger] obs@[t]).kind matches Some(k) && k@ == "postcondition"@),
        decreases obs@.len() - i,
    {
        let ok = match &obs[i].kind {
            Some(k) => str_eq(k.as_str(), "postcondition"),
            None => false,
        };
        if !ok {
            return false;
        }
        i = i + 1;
    }
    true
}

/// Appends the authoring warnings of one instance (see `authoring_warnings`).
pub fn check_authoring_instance(f: &AuthoringFacts, issues: &mut Vec<LintIssue>)
    ensures
        issue_views(final(issues)@) == issue_views(old(issues)@) + authoring_warnings(*f),
{
    reveal(authoring_warnings);
    let ghost start = issue_views(issues@);
    let empty: Vec<AuthoringObligation> = Vec::new();
    let obs = match &f.obligations {
        Some(v) => v,
        None => &empty,
    };
    let ghost ov = obs@;
    assert(ov == (match f.obligations { Some(v) => v@, None => Seq::empty() }));
    let mut k: usize = 0;
    while k < obs.len()
        invariant
            k <= obs@.len(),
            ov == obs@,
            issue_views(issues@) == start + obligations_warnings(*f, ov, k as int),
        decreases obs@.len() - k,
    {
        check_obligation(f, &obs[k], issues);
        assert(issue_views(issues@) =~= start + obligations_warnings(*f, ov, k + 1));
        k = k + 1;
    }
    let ghost mid = issue_views(issues@);
    match &f.units {
        Some(units) => {
            let mut u: usize = 0;
            while u < units.len()
                invariant
                    u <= units@.len(),
                    ov == obs@,
                    issue_views(issues@) == mid + units_warnings(*f, ov, units@, u as int),
                decreases units@.len() - u,
            {
                let unit = &units[u];
                match &unit.id {
                    Some(su) => {
                        let critical = match &unit.criticality {
                            Some(c) => str_eq(c.as_str(), "critical"),
                            None => false,
                        };
                        if critical && !is_linked(obs, su.as_str()) {
                            let mut msg = owned("critical semantic unit ");
                            push_all(&mut msg, su.as_str());
                            push_all(&mut msg, " is not linked to any gold obligation; either add a faithful obligation for it or demote it to supporting");
                            push_warning(issues, f.instance_id.as_str(), "AUTHORING_CRITICAL_SU_UNCOVERED", msg, f.units_path.as_str());
                        }
                    },
                    None => {},
                }
                assert(issue_views(issues@) =~= mid + units_warnings(*f, ov, units@, u + 1));
                u = u + 1;
            }
        },
        None => {
            assert(issue_views(issues@) =~= mid + Seq::empty());
        },
    }
    let ghost mid2 = issue_views(issues@);
    if f.obligations.is_some() && all_postconditions(obs) && any_loop_hint(&f.required_properties) {
        push_warning(issues, f.instance_id.as_str(), "AUTHORING_NO_INVARIANT_STRUCTURE",
            owned("informal_statement hints at loops or invariants but the gold obligation set contains only postconditions"),
            f.obligations_path.as_str());
    }
    assert(issue_views(issues@) =~= start + authoring_warnings(*f));
}

/// The authoring warnings of `instances[..k]`, instance by instance.
pub open spec fn all_authoring_warnings(instances: Seq<AuthoringFacts>, k: int)
    -> Seq<(Seq<char>, LintSeverity, Seq<char>, Seq<char>, Option<Seq<char>>)>
    decreases k,
{
    if k <= 0 || k > instances.len() {
        Seq::empty()
    } else {
        all_authoring_warnings(instances, k - 1) + authoring_warnings(instances[k - 1])
    }
}

/// Runs the authoring lint over the instances (in id order) and appends its
/// warnings.
pub fn check_authoring(instances: &Vec<AuthoringFacts>, issues: &mut Vec<LintIssue>)
    ensures
        issue_views(final(issues)@) == issue_views(old(issues)@) + all_authoring_warnings(instances@, instances@.len() as int),
{
    let ghost start = issue_views(issues@);
    let mut k: usize = 0;
    while k < instances.len()
        invariant
            k <= instances@.len(),
            issue_views(issues@) == start + all_authoring_warnings(instances@, k as int),
        decreases instances@.len() - k,
    {
        check_authoring_instance(&instances[k], issues);
        assert(issue_views(issues@) =~= start + all_authoring_warnings(instances@, k + 1));
        k = k + 1;
    }
}

/// An issue as `--strict-authoring` leaves it: an authoring warning (code
/// beginning `AUTHORING_`) becomes an error, any other issue stays as it is.
pub open spec fn promoted(i: (Seq<char>, LintSeverity, Seq<char>, Seq<char>, Option<Seq<char>>))
    -> (Seq<char>, LintSeverity, Seq<char>, Seq<char>, Option<Seq<char>>)
{
    if has_prefix(i.2, "AUTHORING_"@) { (i.0, LintSeverity::Error, i.2, i.3, i.4) } else { i }
}

/// A copy of an optional path.
fn copy_path(p: &Option<String>) -> (out: Option<String>)
    ensures
        match (out, *p) {
            (Some(a), Some(b)) => a@ == b@,
            (None, None) => true,
            _ => false,
        },
{
    match p {
        Some(s) => Some(owned(s.as_str())),
        None => None,
    }
}

/// Makes every authoring warning an error (`--strict-authoring`).
pub fn promote_authoring_issues(issues: &mut Vec<LintIssue>)
    ensures
        issue_views(final(issues)@) == issue_views(old(issues)@).map_values(
            |i: (Seq<char>, LintSeverity, Seq<char>, Seq<char>, Option<Seq<char>>)| promoted(i)),
{
    let ghost before = issue_views(issues@);
    let mut out: Vec<LintIssue> = Vec::new();
    let mut k: usize = 0;
    while k < issues.len()
        invariant
            k <= issues@.len(),
            before == issue_views(issues@),
            issue_views(out@) == before.take(k as int).map_values(
                |i: (Seq<char>, LintSeverity, Seq<char>, Seq<char>, Option<Seq<char>>)| promoted(i)),
        decreases issues@.len() - k,
    {
        let it = &issues[k];
        let code = chars_of(it.code);
        let severity = if starts_with(code.as_slice(), chars_of("AUTHORING_").as_slice()) {
            LintSeverity::Error
        } else {
            it.severity
        };
        let ghost prev = issue_views(out@);
        out.push(LintIssue {
            instance_id: owned(it.instance_id.as_str()),
            severity,
            code: it.code,
            message: owned(it.message.as_str()),
            path: copy_path(&it.path),
        });
        proof {
            assert(before[k as int] == issue_view(*it));
            assert(issue_views(out@) =~= prev.push(promoted(before[k as int])));
            assert(before.take(k + 1) =~= before.take(k as int).push(before[k as int]));
            assert(before.take(k + 1).map_values(
                |i: (Seq<char>, LintSeverity, Seq<char>, Seq<char>, Option<Seq<char>>)| promoted(i))
                =~= before.take(k as int).map_values(
                |i: (Seq<char>, LintSeverity, Seq<char>, Seq<char>, Option<Seq<char>>)| promoted(i)).push(promoted(before[k as int])));
        }
        k = k + 1;
    }
    proof {
        assert(before.take(before.len() as int) =~= before);
    }
    *issues = out;
}

} // verus!
