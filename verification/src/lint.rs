use vstd::prelude::*;
use crate::text::{chars_of, string_from_chars, push_all, string_push};
use crate::basics::enums::Domain;
use crate::lean::{decimal, decimal_string};

verus! {

/// Severity of a lint issue.
#[derive(Debug, Clone, Copy, PartialEq, Eq, Structural)]
pub enum LintSeverity {
    /// Blocking; prevents promotion to a released benchmark version.
    Error,
    /// Non-blocking; flagged for review.
    Warning,
}

impl LintSeverity {
    /// Display form: `error` or `warn`.
    pub fn as_str(self) -> (s: &'static str)
        ensures
            s@ == (if self == LintSeverity::Error { "error"@ } else { "warn"@ }),
    {
        match self {
            LintSeverity::Error => "error",
            LintSeverity::Warning => "warn",
        }
    }
}

/// A single lint finding attached to an instance.
#[derive(Debug, Clone)]
pub struct LintIssue {
    /// Id of the affected instance (or `<global>` for benchmark-level issues).
    pub instance_id: String,
    /// Severity.
    pub severity: LintSeverity,
    /// Short machine-readable code.
    pub code: &'static str,
    /// Human-readable message.
    pub message: String,
    /// Path the issue applies to, if any.
    pub path: Option<String>,
}

/// Number of issues of severity `sev`.
pub open spec fn count_severity(issues: Seq<LintIssue>, sev: LintSeverity) -> nat
    decreases issues.len(),
{
    if issues.len() == 0 {
        0
    } else {
        count_severity(issues.drop_last(), sev) + if issues.last().severity == sev { 1nat } else { 0nat }
    }
}

/// Counting never exceeds the number of issues.
proof fn lemma_count_bound(issues: Seq<LintIssue>, sev: LintSeverity)
    ensures
        count_severity(issues, sev) <= issues.len(),
        count_severity(issues, sev) > 0 <==> exists|i: int| 0 <= i < issues.len() && (#[trigger] issues[i]).severity == sev,
    decreases issues.len(),
{
    if issues.len() > 0 {
        lemma_count_bound(issues.drop_last(), sev);
        if exists|i: int| 0 <= i < issues.len() && (#[trigger] issues[i]).severity == sev {
            let i = choose|i: int| 0 <= i < issues.len() && (#[trigger] issues[i]).severity == sev;
            if i < issues.len() - 1 {
                assert(issues.drop_last()[i] == issues[i]);
            }
        }
        if exists|i: int| 0 <= i < issues.drop_last().len() && (#[trigger] issues.drop_last()[i]).severity == sev {
            let i = choose|i: int| 0 <= i < issues.drop_last().len() && (#[trigger] issues.drop_last()[i]).severity == sev;
            assert(issues[i] == issues.drop_last()[i]);
        }
    }
}

/// Aggregate lint report.
#[derive(Debug, Clone)]
pub struct LintReport {
    /// All issues in encounter order.
    pub issues: Vec<LintIssue>,
}

impl LintReport {
    /// Number of issues of severity `sev`.
    fn count(&self, sev: LintSeverity) -> (c: usize)
        ensures
            c == count_severity(self.issues@, sev),
    {
        let mut c: usize = 0;
        let mut i: usize = 0;
        while i < self.issues.len()
            invariant
                0 <= i <= self.issues@.len(),
                c == count_severity(self.issues@.take(i as int), sev),
                c <= i,
            decreases self.issues@.len() - i,
        {
            proof {
                assert(self.issues@.take(i + 1).drop_last() == self.issues@.take(i as int));
                lemma_count_bound(self.issues@.take(i as int), sev);
            }
            if self.issues[i].severity == sev {
                c = c + 1;
            }
            i = i + 1;
        }
        proof {
            assert(self.issues@.take(self.issues@.len() as int) == self.issues@);
        }
        c
    }

    /// True if any issue is an error.
    pub fn has_errors(&self) -> (b: bool)
        ensures
            b == exists|i: int| 0 <= i < self.issues@.len() && (#[trigger] self.issues@[i]).severity == LintSeverity::Error,
    {
        let c = self.count(LintSeverity::Error);
        proof {
            lemma_count_bound(self.issues@, LintSeverity::Error);
        }
        c > 0
    }

    /// Count of errors.
    pub fn error_count(&self) -> (c: usize)
        ensures
            c == count_severity(self.issues@, LintSeverity::Error),
    {
        self.count(LintSeverity::Error)
    }

    /// Count of warnings.
    pub fn warning_count(&self) -> (c: usize)
        ensures
            c == count_severity(self.issues@, LintSeverity::Warning),
    {
        self.count(LintSeverity::Warning)
    }

    /// Why the lint fails, if it does: with any error, `benchmark lint
    /// failed with <n> error(s)`, `n` the number of errors.
    pub fn failure_message(&self) -> (m: Option<String>)
        ensures
            match m {
                Some(t) => count_severity(self.issues@, LintSeverity::Error) > 0
                    && t@ == "benchmark lint failed with "@ + decimal(count_severity(self.issues@, LintSeverity::Error))
                        + " error(s)"@,
                None => count_severity(self.issues@, LintSeverity::Error) == 0,
            },
    {
        let c = self.count(LintSeverity::Error);
        if c == 0 {
            return None;
        }
        let mut t = string_from_chars(&chars_of("benchmark lint failed with "));
        push_all(&mut t, string_from_chars(&decimal_string(c as u64)).as_str());
        push_all(&mut t, " error(s)");
        Some(t)
    }
}

/// First position at or after `i` holding a dot (`s.len()` when none does).
pub open spec fn dot_at(s: Seq<char>, i: int) -> int
    decreases s.len() - i,
{
    if i < 0 || i >= s.len() {
        if i < 0 { 0 } else { s.len() as int }
    } else if s[i] == '.' {
        i
    } else {
        dot_at(s, i + 1)
    }
}

/// Pieces of `s[i..]` between dots, in order.
pub open spec fn split_dots_from(s: Seq<char>, i: int) -> Seq<Seq<char>>
    decreases s.len() - i + 1,
{
    if i < 0 || i > s.len() {
        Seq::empty()
    } else {
        let d = dot_at(s, i);
        if d >= s.len() || d < i {
            seq![s.subrange(i, s.len() as int)]
        } else {
            seq![s.subrange(i, d)] + split_dots_from(s, d + 1)
        }
    }
}

/// Pieces of `s` between dots, in order (`s.split('.')`).
pub open spec fn split_dots(s: Seq<char>) -> Seq<Seq<char>> {
    split_dots_from(s, 0)
}

/// Bounds of `dot_at`.
proof fn lemma_dot_at(s: Seq<char>, i: int)
    requires
        0 <= i <= s.len(),
    ensures
        i <= dot_at(s, i) <= s.len(),
        dot_at(s, i) < s.len() ==> s[dot_at(s, i)] == '.',
    decreases s.len() - i,
{
    if i < s.len() && s[i] != '.' {
        lemma_dot_at(s, i + 1);
    }
}

/// Finds `dot_at(s, i)`.
fn find_dot(s: &[char], i: usize) -> (r: usize)
    requires
        i <= s@.len(),
    ensures
        r == dot_at(s@, i as int),
{
    let mut j = i;
    while j < s.len() && s[j] != '.'
        invariant
            i <= j <= s@.len(),
            dot_at(s@, i as int) == dot_at(s@, j as int),
        decreases s@.len() - j,
    {
        j = j + 1;
    }
    j
}

/// The characters `s[from..to]` as a string.
fn piece(s: &[char], from: usize, to: usize) -> (out: String)
    requires
        from <= to <= s@.len(),
    ensures
        out@ == s@.subrange(from as int, to as int),
{
    let mut v: Vec<char> = Vec::new();
    let mut i = from;
    while i < to
        invariant
            from <= i <= to <= s@.len(),
            v@ == s@.subrange(from as int, i as int),
        decreases to - i,
    {
        v.push(s[i]);
        proof {
            assert(s@.subrange(from as int, i + 1) == s@.subrange(from as int, i as int).push(s@[i as int]));
        }
        i = i + 1;
    }
    string_from_chars(&v)
}

/// `s.split('.')`, as strings.
pub fn split_on_dots(s: &[char]) -> (out: Vec<String>)
    ensures
        out@.map_values(|x: String| x@) == split_dots(s@),
{
    let mut out: Vec<String> = Vec::new();
    let mut i: usize = 0;
    let n = s.len();
    proof {
        assert(out@.map_values(|x: String| x@) =~= Seq::<Seq<char>>::empty());
    }
    loop
        invariant
            n == s@.len(),
            0 <= i <= n,
            out@.map_values(|x: String| x@) + split_dots_from(s@, i as int) == split_dots(s@),
        decreases n - i,
    {
        let d = find_dot(s, i);
        proof {
            lemma_dot_at(s@, i as int);
        }
        let p = piece(s, i, d);
        let ghost before = out@.map_values(|x: String| x@);
        out.push(p);
        proof {
            assert(out@.map_values(|x: String| x@) =~= before.push(s@.subrange(i as int, d as int)));
        }
        if d >= n {
            proof {
                assert(split_dots_from(s@, i as int) =~= seq![s@.subrange(i as int, n as int)]);
                assert(out@.map_values(|x: String| x@) =~= before + split_dots_from(s@, i as int));
            }
            return out;
        }
        proof {
            assert(split_dots_from(s@, i as int) =~= seq![s@.subrange(i as int, d as int)] + split_dots_from(s@, d + 1));
            assert(out@.map_values(|x: String| x@) + split_dots_from(s@, d + 1)
                =~= before + split_dots_from(s@, i as int));
        }
        i = d + 1;
    }
}

/// Path components, under the workspace root, of the Lean file of a benchmark
/// namespace `CTA.Benchmark.<Dir>...<File>`: `lean/CTA/Benchmark/<Dir>/.../<File>.lean`.
/// `None` when the namespace lacks the prefix or has a single part after it.
pub open spec fn lean_path_parts(namespace: Seq<char>) -> Option<Seq<Seq<char>>> {
    let prefix = "CTA.Benchmark."@;
    if namespace.len() >= prefix.len() && namespace.take(prefix.len() as int) == prefix {
        let parts = split_dots(namespace.skip(prefix.len() as int));
        if parts.len() < 2 {
            None
        } else {
            Some(seq!["lean"@, "CTA"@, "Benchmark"@] + parts.drop_last() + seq![parts.last() + ".lean"@])
        }
    } else {
        None
    }
}

/// Path components, under the workspace root, of the Lean file of a benchmark
/// namespace; `None` when the namespace lacks the `CTA.Benchmark.` prefix or
/// has a single part after it.
pub fn canonical_lean_path(namespace: &str) -> (res: Option<Vec<String>>)
    ensures
        match res {
            Some(v) => lean_path_parts(namespace@) == Some(v@.map_values(|x: String| x@)),
            None => lean_path_parts(namespace@) is None,
        },
{
    let cs = chars_of(namespace);
    let prefix = chars_of("CTA.Benchmark.");
    let n = cs.len();
    let m = prefix.len();
    if n < m {
        return None;
    }
    let mut k: usize = 0;
    while k < m
        invariant
            cs@ == namespace@,
            prefix@ == "CTA.Benchmark."@,
            m == prefix@.len(),
            m <= n,
            n == cs@.len(),
            0 <= k <= m,
            forall|t: int| 0 <= t < k ==> cs@[t] == prefix@[t],
        decreases m - k,
    {
        if cs[k] != prefix[k] {
            proof {
                assert(cs@.take(m as int)[k as int] != prefix@[k as int]);
            }
            return None;
        }
        k = k + 1;
    }
    proof {
        assert(cs@.take(m as int) =~= prefix@);
    }
    let mut rest: Vec<char> = Vec::new();
    let mut i = m;
    while i < n
        invariant
            m <= i <= n,
            n == cs@.len(),
            rest@ == cs@.subrange(m as int, i as int),
        decreases n - i,
    {
        rest.push(cs[i]);
        proof {
            assert(cs@.subrange(m as int, i + 1) == cs@.subrange(m as int, i as int).push(cs@[i as int]));
        }
        i = i + 1;
    }
    assert(rest@ == cs@.skip(m as int));
    let parts = split_on_dots(&rest);
    if parts.len() < 2 {
        return None;
    }
    let mut out: Vec<String> = Vec::new();
    out.push("lean".to_owned());
    out.push("CTA".to_owned());
    out.push("Benchmark".to_owned());
    let mut j: usize = 0;
    let last_index = parts.len() - 1;
    while j < last_index
        invariant
            last_index == parts@.len() - 1,
            parts@.len() >= 2,
            0 <= j <= parts@.len() - 1,
            out@.map_values(|x: String| x@) == seq!["lean"@, "CTA"@, "Benchmark"@]
                + parts@.map_values(|x: String| x@).take(j as int),
        decreases parts@.len() - j,
    {
        let ghost before = out@.map_values(|x: String| x@);
        out.push(parts[j].clone());
        proof {
            assert(parts@.map_values(|x: String| x@).take(j + 1)
                =~= parts@.map_values(|x: String| x@).take(j as int).push(parts@[j as int]@));
            assert(out@.map_values(|x: String| x@) =~= before.push(parts@[j as int]@));
        }
        j = j + 1;
    }
    let mut last = parts[last_index].clone();
    push_all(&mut last, ".lean");
    let ghost before = out@.map_values(|x: String| x@);
    out.push(last);
    proof {
        let ps = parts@.map_values(|x: String| x@);
        assert(ps.drop_last() =~= ps.take(j as int));
        assert(out@.map_values(|x: String| x@) =~= before.push(ps.last() + ".lean"@));
        reveal_strlit("CTA.Benchmark.");
    }
    Some(out)
}


/// A companion file of an instance: its path and whether it is a file.
#[derive(Debug, Clone)]
pub struct Companion {
    /// Path as displayed.
    pub path: String,
    /// The path names an existing file.
    pub is_file: bool,
}

/// What reading a JSON companion file gave.
#[derive(Debug, Clone)]
pub enum JsonRead {
    /// The file could not be read; the reader's error text.
    ReadFailed(String),
    /// The file is not JSON; the parser's error text.
    ParseFailed(String),
    /// The file parsed; the number of entries of the array under the
    /// expected key (`units` or `obligations`), 0 when absent or not an array.
    Entries(usize),
}

/// Outcome of comparing an instance's `scaffold.lean` with the canonical
/// Lean module, byte for byte.
#[derive(Debug, Clone, Copy, PartialEq, Eq, Structural)]
pub enum ScaffoldComparison {
    /// Both were read and are identical.
    Identical,
    /// Both were read and differ.
    Different,
    /// The canonical module could not be read (whatever the scaffold gave).
    CanonicalUnreadable,
    /// The canonical module was read, the scaffold could not be.
    ScaffoldUnreadable,
}

/// What the lint rules read of one instance.
#[derive(Debug, Clone)]
pub struct InstanceLintFacts {
    /// Domain of the instance.
    pub domain: Domain,
    /// Number of `informal_statement.edge_cases`.
    pub edge_case_count: usize,
    /// Number of `informal_statement.required_properties`.
    pub required_property_count: usize,
    /// `lean_target.namespace`.
    pub namespace: String,
    /// Path of `instance.json`.
    pub instance_json: String,
    /// The Rust reference source.
    pub reference_rs: Companion,
    /// The Lean scaffold.
    pub scaffold_lean: Companion,
    /// The reference obligations JSON.
    pub reference_obligations: Companion,
    /// The semantic units JSON.
    pub semantic_units: Companion,
    /// The harness JSON.
    pub harness: Companion,
    /// What reading the semantic units file gave (read only when it is a file).
    pub semantic_units_json: JsonRead,
    /// What reading the reference obligations file gave (read only when it is a file).
    pub obligations_json: JsonRead,
    /// The workspace root, five levels above the instance directory, if any.
    pub workspace_root: Option<String>,
    /// The scaffold comparison (made only when the scaffold is a file, the
    /// root exists and the namespace maps to a canonical module).
    pub scaffold_comparison: ScaffoldComparison,
}

/// A lint issue as plain values: instance id, severity, code, message, path.
pub open spec fn issue_view(i: LintIssue) -> (Seq<char>, LintSeverity, Seq<char>, Seq<char>, Option<Seq<char>>) {
    (i.instance_id@, i.severity, i.code@, i.message@, match i.path { Some(p) => Some(p@), None => None })
}

/// The plain values of a list of issues.
pub open spec fn issue_views(s: Seq<LintIssue>) -> Seq<(Seq<char>, LintSeverity, Seq<char>, Seq<char>, Option<Seq<char>>)> {
    s.map_values(|i: LintIssue| issue_view(i))
}

/// One error issue.
pub open spec fn error_at(id: Seq<char>, code: Seq<char>, msg: Seq<char>, path: Seq<char>)
    -> Seq<(Seq<char>, LintSeverity, Seq<char>, Seq<char>, Option<Seq<char>>)> {
    seq![(id, LintSeverity::Error, code, msg, Some(path))]
}

/// The issue for a companion file that is missing.
#[verifier::opaque]
pub open spec fn missing_issue(id: Seq<char>, c: Companion, code: Seq<char>)
    -> Seq<(Seq<char>, LintSeverity, Seq<char>, Seq<char>, Option<Seq<char>>)> {
    if c.is_file { Seq::empty() } else { error_at(id, code, "required file missing: "@ + c.path@, c.path@) }
}

/// The issues for a JSON companion whose array must not be empty.
#[verifier::opaque]
pub open spec fn json_issues(id: Seq<char>, c: Companion, r: JsonRead, empty_code: Seq<char>, empty_msg: Seq<char>)
    -> Seq<(Seq<char>, LintSeverity, Seq<char>, Seq<char>, Option<Seq<char>>)> {
    if !c.is_file {
        Seq::empty()
    } else {
        match r {
            JsonRead::ReadFailed(e) => error_at(id, "INST_JSON_READ"@, "failed to read file: "@ + e@, c.path@),
            JsonRead::ParseFailed(e) => error_at(id, "INST_JSON_PARSE"@, "failed to parse JSON: "@ + e@, c.path@),
            JsonRead::Entries(n) => if n == 0 { error_at(id, empty_code, empty_msg, c.path@) } else { Seq::empty() },
        }
    }
}

/// `base` with `part` pushed as a path component: an absolute part (one
/// starting with `/`) replaces the path, otherwise a `/` goes between them
/// unless `base` is empty or already ends in `/`.
pub open spec fn path_push(base: Seq<char>, part: Seq<char>) -> Seq<char> {
    if part.len() > 0 && part[0] == '/' {
        part
    } else if base.len() == 0 || base.last() == '/' {
        base + part
    } else {
        base + seq!['/'] + part
    }
}

/// `root` with `parts` pushed one after another.
pub open spec fn joined_path(root: Seq<char>, parts: Seq<Seq<char>>) -> Seq<char>
    decreases parts.len(),
{
    if parts.len() == 0 {
        root
    } else {
        path_push(joined_path(root, parts.drop_last()), parts.last())
    }
}

/// The issues of the scaffold check.
#[verifier::opaque]
pub open spec fn scaffold_issues(id: Seq<char>, f: InstanceLintFacts)
    -> Seq<(Seq<char>, LintSeverity, Seq<char>, Seq<char>, Option<Seq<char>>)> {
    if !f.scaffold_lean.is_file || f.workspace_root is None {
        Seq::empty()
    } else {
        match lean_path_parts(f.namespace@) {
            Some(parts) => {
                let canon = joined_path(f.workspace_root->0@, parts);
                match f.scaffold_comparison {
                    ScaffoldComparison::Different => error_at(id, "INST_LEAN_SCAFFOLD_DIVERGENCE"@,
                        "instance scaffold.lean and canonical Lean module differ: "@ + canon, f.scaffold_lean.path@),
                    ScaffoldComparison::CanonicalUnreadable => error_at(id, "INST_CANONICAL_LEAN_MISSING"@,
                        "canonical Lean module not found: "@ + canon, canon),
                    _ => Seq::empty(),
                }
            },
            None => seq![(id, LintSeverity::Warning, "INST_NAMESPACE_NON_CANONICAL"@,
                "instance namespace `"@ + f.namespace@ + "` does not map to a canonical CTA.Benchmark.* path"@,
                Some(f.instance_json@))],
        }
    }
}

/// Every issue of one instance, in the order the checks run.
#[verifier::opaque]
pub open spec fn instance_issues(id: Seq<char>, f: InstanceLintFacts)
    -> Seq<(Seq<char>, LintSeverity, Seq<char>, Seq<char>, Option<Seq<char>>)> {
    (if f.edge_case_count == 0 {
        error_at(id, "INST_EDGE_CASES_EMPTY"@, "informal_statement.edge_cases must not be empty"@, f.instance_json@)
    } else { Seq::empty() })
    + (if f.required_property_count == 0 {
        error_at(id, "INST_PROPERTIES_EMPTY"@, "informal_statement.required_properties must not be empty"@, f.instance_json@)
    } else { Seq::empty() })
    + missing_issue(id, f.reference_rs, "INST_MISSING_RUST_REFERENCE"@)
    + missing_issue(id, f.scaffold_lean, "INST_MISSING_LEAN_SCAFFOLD"@)
    + missing_issue(id, f.reference_obligations, "INST_MISSING_OBLIGATIONS"@)
    + missing_issue(id, f.semantic_units, "INST_MISSING_SEMANTIC_UNITS"@)
    + missing_issue(id, f.harness, "INST_MISSING_HARNESS"@)
    + json_issues(id, f.semantic_units, f.semantic_units_json, "INST_SEMANTIC_UNITS_EMPTY"@,
        "semantic_units.json must contain a non-empty `units` array"@)
    + json_issues(id, f.reference_obligations, f.obligations_json, "INST_OBLIGATIONS_EMPTY"@,
        "reference_obligations.json must contain a non-empty `obligations` array"@)
    + scaffold_issues(id, f)
}

/// A copy of `s`.
fn owned(s: &str) -> (out: String)
    ensures
        out@ == s@,
{
    string_from_chars(&chars_of(s))
}

/// `head` followed by `tail`, as a new string.
fn concat(head: &str, tail: &str) -> (out: String)
    ensures
        out@ == head@ + tail@,
{
    let mut out = owned(head);
    push_all(&mut out, tail);
    out
}

/// Appends one issue.
fn push_issue(issues: &mut Vec<LintIssue>, id: &str, severity: LintSeverity, code: &'static str, message: String, path: Option<String>)
    ensures
        issue_views(final(issues)@) == issue_views(old(issues)@).push(
            (id@, severity, code@, message@, match path { Some(p) => Some(p@), None => None })),
{
    let issue = LintIssue { instance_id: owned(id), severity, code, message, path };
    let ghost before = issues@;
    issues.push(issue);
    proof {
        assert(issue_views(issues@) =~= issue_views(before).push(issue_view(issue)));
    }
}

/// Appends an error issue.
fn push_error(issues: &mut Vec<LintIssue>, id: &str, code: &'static str, message: String, path: &str)
    ensures
        issue_views(final(issues)@) == issue_views(old(issues)@) + error_at(id@, code@, message@, path@),
{
    let ghost before = issue_views(issues@);
    push_issue(issues, id, LintSeverity::Error, code, message, Some(owned(path)));
    proof {
        assert(before.push((id@, LintSeverity::Error, code@, message@, Some(path@)))
            =~= before + error_at(id@, code@, message@, path@));
    }
}

/// Appends the issue of a missing companion file, if it is missing.
fn check_companion(issues: &mut Vec<LintIssue>, id: &str, c: &Companion, code: &'static str)
    ensures
        issue_views(final(issues)@) == issue_views(old(issues)@) + missing_issue(id@, *c, code@),
{
    reveal(missing_issue);
    if !c.is_file {
        push_error(issues, id, code, concat("required file missing: ", c.path.as_str()), c.path.as_str());
    } else {
        assert(issue_views(issues@) + missing_issue(id@, *c, code@) =~= issue_views(issues@));
    }
}

/// Appends the issues of a JSON companion whose array must not be empty.
fn check_json(issues: &mut Vec<LintIssue>, id: &str, c: &Companion, r: &JsonRead, empty_code: &'static str, empty_msg: &str)
    ensures
        issue_views(final(issues)@) == issue_views(old(issues)@) + json_issues(id@, *c, *r, empty_code@, empty_msg@),
{
    reveal(json_issues);
    if !c.is_file {
        assert(issue_views(issues@) + json_issues(id@, *c, *r, empty_code@, empty_msg@) =~= issue_views(issues@));
        return;
    }
    match r {
        JsonRead::ReadFailed(e) => {
            push_error(issues, id, "INST_JSON_READ", concat("failed to read file: ", e.as_str()), c.path.as_str());
        },
        JsonRead::ParseFailed(e) => {
            push_error(issues, id, "INST_JSON_PARSE", concat("failed to parse JSON: ", e.as_str()), c.path.as_str());
        },
        JsonRead::Entries(n) => {
            if *n == 0 {
                push_error(issues, id, empty_code, owned(empty_msg), c.path.as_str());
            } else {
                assert(issue_views(issues@) + json_issues(id@, *c, *r, empty_code@, empty_msg@) =~= issue_views(issues@));
            }
        },
    }
}

/// `path_push(base, part)`.
pub fn push_path(base: &mut String, part: &str)
    ensures
        final(base)@ == path_push(old(base)@, part@),
{
    let pc = chars_of(part);
    if pc.len() > 0 && pc[0] == '/' {
        let fresh = string_from_chars(&pc);
        *base = fresh;
        return;
    }
    let cs = chars_of(base.as_str());
    if cs.len() > 0 && cs[cs.len() - 1] != '/' {
        string_push(base, '/');
    }
    push_all(base, part);
}

/// `joined_path(root, parts)`.
fn join_path(root: &str, parts: &Vec<String>) -> (out: String)
    ensures
        out@ == joined_path(root@, parts@.map_values(|x: String| x@)),
{
    let mut out = owned(root);
    let mut k: usize = 0;
    while k < parts.len()
        invariant
            k <= parts@.len(),
            out@ == joined_path(root@, parts@.map_values(|x: String| x@).take(k as int)),
        decreases parts@.len() - k,
    {
        let ghost ps = parts@.map_values(|x: String| x@);
        proof {
            assert(ps.take(k + 1).drop_last() =~= ps.take(k as int));
            assert(ps.take(k + 1).last() == parts@[k as int]@);
        }
        push_path(&mut out, parts[k].as_str());
        k = k + 1;
    }
    proof {
        assert(parts@.map_values(|x: String| x@).take(parts@.len() as int) =~= parts@.map_values(|x: String| x@));
    }
    out
}

/// Appends the issues of the scaffold check.
fn check_scaffold(issues: &mut Vec<LintIssue>, id: &str, f: &InstanceLintFacts)
    ensures
        issue_views(final(issues)@) == issue_views(old(issues)@) + scaffold_issues(id@, *f),
{
    reveal(scaffold_issues);
    let ghost start = issue_views(issues@);
    if !f.scaffold_lean.is_file || f.workspace_root.is_none() {
        assert(start + scaffold_issues(id@, *f) =~= start);
        return;
    }
    let root = match &f.workspace_root {
        Some(r) => r.as_str(),
        None => "",
    };
    match canonical_lean_path(f.namespace.as_str()) {
        Some(parts) => {
            let canon = join_path(root, &parts);
            match f.scaffold_comparison {
                ScaffoldComparison::Different => {
                    push_error(issues, id, "INST_LEAN_SCAFFOLD_DIVERGENCE",
                        concat("instance scaffold.lean and canonical Lean module differ: ", canon.as_str()),
                        f.scaffold_lean.path.as_str());
                },
                ScaffoldComparison::CanonicalUnreadable => {
                    push_error(issues, id, "INST_CANONICAL_LEAN_MISSING",
                        concat("canonical Lean module not found: ", canon.as_str()), canon.as_str());
                },
                _ => {
                    assert(start + scaffold_issues(id@, *f) =~= start);
                },
            }
        },
        None => {
            let mut msg = concat("instance namespace `", f.namespace.as_str());
            push_all(&mut msg, "` does not map to a canonical CTA.Benchmark.* path");
            push_issue(issues, id, LintSeverity::Warning, "INST_NAMESPACE_NON_CANONICAL", msg, Some(owned(f.instance_json.as_str())));
            assert(start.push((id@, LintSeverity::Warning, "INST_NAMESPACE_NON_CANONICAL"@, msg@, Some(f.instance_json@)))
                =~= start + scaffold_issues(id@, *f));
        },
    }
}

/// Runs the per-instance checks on `f` and appends their issues, in order:
/// empty edge cases, empty required properties, each missing companion
/// file, the semantic units and reference obligations JSON, and the
/// canonical Lean scaffold comparison.
pub fn lint_instance(id: &str, f: &InstanceLintFacts, issues: &mut Vec<LintIssue>)
    ensures
        issue_views(final(issues)@) == issue_views(old(issues)@) + instance_issues(id@, *f),
{
    let ghost start = issue_views(issues@);
    let ghost edge = if f.edge_case_count == 0 {
        error_at(id@, "INST_EDGE_CASES_EMPTY"@, "informal_statement.edge_cases must not be empty"@, f.instance_json@)
    } else { Seq::empty() };
    let ghost props = if f.required_property_count == 0 {
        error_at(id@, "INST_PROPERTIES_EMPTY"@, "informal_statement.required_properties must not be empty"@, f.instance_json@)
    } else { Seq::empty() };
    if f.edge_case_count == 0 {
        push_error(issues, id, "INST_EDGE_CASES_EMPTY", owned("informal_statement.edge_cases must not be empty"), f.instance_json.as_str());
    }
    assert(issue_views(issues@) =~= start + edge);
    if f.required_property_count == 0 {
        push_error(issues, id, "INST_PROPERTIES_EMPTY", owned("informal_statement.required_properties must not be empty"), f.instance_json.as_str());
    }
    let ghost acc = edge + props;
    assert(issue_views(issues@) =~= start + acc);
    check_companion(issues, id, &f.reference_rs, "INST_MISSING_RUST_REFERENCE");
    let ghost acc1 = acc + missing_issue(id@, f.reference_rs, "INST_MISSING_RUST_REFERENCE"@);
    assert(issue_views(issues@) =~= start + acc1);
    check_companion(issues, id, &f.scaffold_lean, "INST_MISSING_LEAN_SCAFFOLD");
    let ghost acc2 = acc1 + missing_issue(id@, f.scaffold_lean, "INST_MISSING_LEAN_SCAFFOLD"@);
    assert(issue_views(issues@) =~= start + acc2);
    check_companion(issues, id, &f.reference_obligations, "INST_MISSING_OBLIGATIONS");
    let ghost acc3 = acc2 + missing_issue(id@, f.reference_obligations, "INST_MISSING_OBLIGATIONS"@);
    assert(issue_views(issues@) =~= start + acc3);
    check_companion(issues, id, &f.semantic_units, "INST_MISSING_SEMANTIC_UNITS");
    let ghost acc4 = acc3 + missing_issue(id@, f.semantic_units, "INST_MISSING_SEMANTIC_UNITS"@);
    assert(issue_views(issues@) =~= start + acc4);
    check_companion(issues, id, &f.harness, "INST_MISSING_HARNESS");
    let ghost acc5 = acc4 + missing_issue(id@, f.harness, "INST_MISSING_HARNESS"@);
    assert(issue_views(issues@) =~= start + acc5);
    check_json(issues, id, &f.semantic_units, &f.semantic_units_json, "INST_SEMANTIC_UNITS_EMPTY",
        "semantic_units.json must contain a non-empty `units` array");
    let ghost acc6 = acc5 + json_issues(id@, f.semantic_units, f.semantic_units_json, "INST_SEMANTIC_UNITS_EMPTY"@,
        "semantic_units.json must contain a non-empty `units` array"@);
    assert(issue_views(issues@) =~= start + acc6);
    check_json(issues, id, &f.reference_obligations, &f.obligations_json, "INST_OBLIGATIONS_EMPTY",
        "reference_obligations.json must contain a non-empty `obligations` array");
    let ghost acc7 = acc6 + json_issues(id@, f.reference_obligations, f.obligations_json, "INST_OBLIGATIONS_EMPTY"@,
        "reference_obligations.json must contain a non-empty `obligations` array"@);
    assert(issue_views(issues@) =~= start + acc7);
    check_scaffold(issues, id, f);
    let ghost acc8 = acc7 + scaffold_issues(id@, *f);
    assert(issue_views(issues@) =~= start + acc8);
    assert(acc8 == instance_issues(id@, *f)) by {
        reveal(instance_issues);
    }
}


/// The issues of `instances[..k]`, one instance after another.
pub open spec fn issues_upto(instances: Seq<(String, InstanceLintFacts)>, k: int)
    -> Seq<(Seq<char>, LintSeverity, Seq<char>, Seq<char>, Option<Seq<char>>)>
    decreases k,
{
    if k <= 0 || k > instances.len() {
        Seq::empty()
    } else {
        issues_upto(instances, k - 1) + instance_issues(instances[k - 1].0@, instances[k - 1].1)
    }
}

/// Every instance lies in one and the same domain.
pub open spec fn one_domain(instances: Seq<(String, InstanceLintFacts)>) -> bool {
    forall|i: int| 0 <= i < instances.len() ==> (#[trigger] instances[i]).1.domain == instances[0].1.domain
}

/// Every issue of a benchmark: those of each instance in the order given,
/// then a warning when a non-empty benchmark covers a single domain.
pub open spec fn benchmark_issues(instances: Seq<(String, InstanceLintFacts)>)
    -> Seq<(Seq<char>, LintSeverity, Seq<char>, Seq<char>, Option<Seq<char>>)> {
    issues_upto(instances, instances.len() as int)
        + if instances.len() > 0 && one_domain(instances) {
            seq![("<global>"@, LintSeverity::Warning, "BENCH_DOMAIN_COVERAGE"@,
                "benchmark covers only 1 domain(s); consider broader coverage"@, None)]
        } else {
            Seq::empty()
        }
}

/// Lints a benchmark given as its instances (id and facts) in id order.
pub fn lint_benchmark(instances: &Vec<(String, InstanceLintFacts)>) -> (report: LintReport)
    ensures
        issue_views(report.issues@) == benchmark_issues(instances@),
{
    let mut issues: Vec<LintIssue> = Vec::new();
    let mut k: usize = 0;
    assert(issue_views(issues@) =~= issues_upto(instances@, 0));
    while k < instances.len()
        invariant
            k <= instances@.len(),
            issue_views(issues@) == issues_upto(instances@, k as int),
        decreases instances@.len() - k,
    {
        lint_instance(instances[k].0.as_str(), &instances[k].1, &mut issues);
        k = k + 1;
    }
    let ghost body = issue_views(issues@);
    if instances.len() > 0 {
        let first = instances[0].1.domain;
        let mut same = true;
        let mut j: usize = 0;
        while j < instances.len()
            invariant
                j <= instances@.len(),
                instances@.len() > 0,
                first == instances@[0].1.domain,
                same == forall|i: int| 0 <= i < j ==> (#[trigger] instances@[i]).1.domain == first,
            decreases instances@.len() - j,
        {
            if instances[j].1.domain != first {
                same = false;
            }
            j = j + 1;
        }
        if same {
            push_issue(&mut issues, "<global>", LintSeverity::Warning, "BENCH_DOMAIN_COVERAGE",
                owned("benchmark covers only 1 domain(s); consider broader coverage"), None);
        }
    }
    assert(issue_views(issues@) =~= benchmark_issues(instances@));
    LintReport { issues }
}

} // verus!
