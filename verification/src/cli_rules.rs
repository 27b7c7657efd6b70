use vstd::prelude::*;
use crate::text::{chars_of, string_from_chars, push_all, str_eq};
use crate::lint::{LintIssue, LintSeverity};
use crate::lean_text::{is_ws, ws_char};
use crate::basics::versions::{BenchmarkVersion, is_benchmark_version};

verus! {

/// `base` joined with the relative or absolute path `part`, as `PathBuf::join`
/// does with `/` separators: an absolute `part` replaces `base`, an empty
/// `base` yields `part`, and a separator is added unless `base` ends with one.
pub open spec fn path_join(base: Seq<char>, part: Seq<char>) -> Seq<char> {
    if part.len() > 0 && part[0] == '/' {
        part
    } else if base.len() == 0 {
        part
    } else if base.last() == '/' {
        base + part
    } else {
        base + seq!['/'] + part
    }
}

/// Joins `part` onto `base` (see [`path_join`]).
pub fn join_path(base: &str, part: &str) -> (out: String)
    ensures
        out@ == path_join(base@, part@),
{
    let b = chars_of(base);
    let p = chars_of(part);
    if p.len() > 0 && p[0] == '/' {
        return string_from_chars(&p);
    }
    let mut out = string_from_chars(&b);
    if b.len() > 0 && b[b.len() - 1] != '/' {
        crate::text::string_push(&mut out, '/');
    }
    push_all(&mut out, part);
    proof {
        if b@.len() > 0 {
            assert(b@.last() == b@[b@.len() - 1]);
        }
    }
    out
}

/// The schema directory of a workspace: `<workspace>/schemas`.
pub fn schemas_dir(workspace: &str) -> (out: String)
    ensures
        out@ == path_join(workspace@, "schemas"@),
{
    join_path(workspace, "schemas")
}

/// The root of a benchmark version: `<workspace>/benchmark/<version>`.
pub fn benchmark_dir(workspace: &str, version: &str) -> (out: String)
    ensures
        out@ == path_join(path_join(workspace@, "benchmark"@), version@),
{
    let b = join_path(workspace, "benchmark");
    join_path(b.as_str(), version)
}

/// Pieces of `s[i..]` between occurrences of `sep`.
pub open spec fn split_from(s: Seq<char>, sep: char, i: int) -> Seq<Seq<char>>
    decreases s.len() - i + 1,
{
    if i < 0 || i > s.len() {
        Seq::empty()
    } else {
        let d = sep_at(s, sep, i);
        if d >= s.len() || d < i {
            seq![s.subrange(i, s.len() as int)]
        } else {
            seq![s.subrange(i, d)] + split_from(s, sep, d + 1)
        }
    }
}

/// First position at or after `i` holding `sep` (`s.len()` when none does).
pub open spec fn sep_at(s: Seq<char>, sep: char, i: int) -> int
    decreases s.len() - i,
{
    if i < 0 || i >= s.len() {
        if i < 0 { 0 } else { s.len() as int }
    } else if s[i] == sep {
        i
    } else {
        sep_at(s, sep, i + 1)
    }
}

/// Bounds of `sep_at`.
proof fn lemma_sep_at(s: Seq<char>, sep: char, i: int)
    requires
        0 <= i <= s.len(),
    ensures
        i <= sep_at(s, sep, i) <= s.len(),
        sep_at(s, sep, i) < s.len() ==> s[sep_at(s, sep, i)] == sep,
        forall|j: int| i <= j < sep_at(s, sep, i) ==> s[j] != sep,
    decreases s.len() - i,
{
    if i < s.len() && s[i] != sep {
        lemma_sep_at(s, sep, i + 1);
    }
}

/// Finds `sep_at(s, sep, i)`.
fn find_sep(s: &[char], sep: char, i: usize) -> (r: usize)
    requires
        i <= s@.len(),
    ensures
        r == sep_at(s@, sep, i as int),
{
    let mut j = i;
    while j < s.len() && s[j] != sep
        invariant
            i <= j <= s@.len(),
            sep_at(s@, sep, i as int) == sep_at(s@, sep, j as int),
        decreases s@.len() - j,
    {
        j = j + 1;
    }
    j
}

/// The characters `s[from..to]`.
fn sub_chars_range(s: &[char], from: usize, to: usize) -> (out: Vec<char>)
    requires
        from <= to <= s@.len(),
    ensures
        out@ == s@.subrange(from as int, to as int),
{
    let mut out: Vec<char> = Vec::new();
    let mut i = from;
    while i < to
        invariant
            from <= i <= to <= s@.len(),
            out@ == s@.subrange(from as int, i as int),
        decreases to - i,
    {
        out.push(s[i]);
        proof {
            assert(s@.subrange(from as int, i + 1) == s@.subrange(from as int, i as int).push(s@[i as int]));
        }
        i = i + 1;
    }
    out
}

/// `s.split(sep)`, as character sequences.
pub fn split_chars(s: &[char], sep: char) -> (out: Vec<Vec<char>>)
    ensures
        out@.map_values(|x: Vec<char>| x@) == split_from(s@, sep, 0),
{
    let mut out: Vec<Vec<char>> = Vec::new();
    let mut i: usize = 0;
    let n = s.len();
    proof {
        assert(out@.map_values(|x: Vec<char>| x@) =~= Seq::<Seq<char>>::empty());
    }
    loop
        invariant
            n == s@.len(),
            0 <= i <= n,
            out@.map_values(|x: Vec<char>| x@) + split_from(s@, sep, i as int) == split_from(s@, sep, 0),
        decreases n - i,
    {
        let d = find_sep(s, sep, i);
        proof {
            lemma_sep_at(s@, sep, i as int);
        }
        let p = sub_chars_range(s, i, d);
        let ghost before = out@.map_values(|x: Vec<char>| x@);
        out.push(p);
        proof {
            assert(out@.map_values(|x: Vec<char>| x@) =~= before.push(s@.subrange(i as int, d as int)));
        }
        if d >= n {
            proof {
                assert(split_from(s@, sep, i as int) =~= seq![s@.subrange(i as int, n as int)]);
                assert(out@.map_values(|x: Vec<char>| x@) =~= before + split_from(s@, sep, i as int));
            }
            return out;
        }
        proof {
            assert(out@.map_values(|x: Vec<char>| x@) + split_from(s@, sep, d + 1)
                =~= before + split_from(s@, sep, i as int));
        }
        i = d + 1;
    }
}

/// Split named by a run id `run_<date>_<system>_<split>_<nnn>`: the
/// second-to-last `_`-separated piece, or `unknown` when there is no such piece.
pub open spec fn split_of_run_id(run_id: Seq<char>) -> Seq<char> {
    let parts = split_from(run_id, '_', 0);
    if parts.len() >= 2 { parts[parts.len() - 2] } else { "unknown"@ }
}

/// Infers the split from a run id (see [`split_of_run_id`]).
pub fn infer_split_from_run_id(run_id: &str) -> (out: String)
    ensures
        out@ == split_of_run_id(run_id@),
{
    let cs = chars_of(run_id);
    let parts = split_chars(&cs, '_');
    if parts.len() >= 2 {
        proof {
            assert(parts@.map_values(|x: Vec<char>| x@)[parts@.len() - 2] == parts@[parts@.len() - 2]@);
        }
        string_from_chars(&parts[parts.len() - 2])
    } else {
        "unknown".to_owned()
    }
}

/// `s` with white space removed from both ends (`str::trim`).
pub open spec fn trim(s: Seq<char>) -> Seq<char> {
    let a = first_non_ws(s, 0);
    let b = last_non_ws_end(s, s.len() as int);
    if a < b { s.subrange(a, b) } else { Seq::empty() }
}

/// First position at or after `i` that is not white space.
pub open spec fn first_non_ws(s: Seq<char>, i: int) -> int
    decreases s.len() - i,
{
    if i < 0 || i >= s.len() {
        if i < 0 { 0 } else { s.len() as int }
    } else if is_ws(s[i]) {
        first_non_ws(s, i + 1)
    } else {
        i
    }
}

/// End of `s[..j]` once trailing white space is dropped.
pub open spec fn last_non_ws_end(s: Seq<char>, j: int) -> int
    decreases j,
{
    if j <= 0 || j > s.len() {
        if j <= 0 { 0 } else { s.len() as int }
    } else if is_ws(s[j - 1]) {
        last_non_ws_end(s, j - 1)
    } else {
        j
    }
}

/// Bounds of the trimming positions.
proof fn lemma_trim_bounds(s: Seq<char>, i: int, j: int)
    requires
        0 <= i <= s.len(),
        0 <= j <= s.len(),
    ensures
        i <= first_non_ws(s, i) <= s.len(),
        0 <= last_non_ws_end(s, j) <= j,
    decreases s.len() - i + j,
{
    if i < s.len() && is_ws(s[i]) {
        lemma_trim_bounds(s, i + 1, j);
    }
    if j > 0 && is_ws(s[j - 1]) {
        lemma_trim_bounds(s, i, j - 1);
    }
}

/// Trims white space from both ends.
pub fn trim_chars(s: &[char]) -> (out: Vec<char>)
    ensures
        out@ == trim(s@),
{
    let mut a: usize = 0;
    while a < s.len() && ws_char(s[a])
        invariant
            0 <= a <= s@.len(),
            first_non_ws(s@, 0) == first_non_ws(s@, a as int),
        decreases s@.len() - a,
    {
        a = a + 1;
    }
    let mut b: usize = s.len();
    while b > 0 && ws_char(s[b - 1])
        invariant
            0 <= b <= s@.len(),
            last_non_ws_end(s@, s@.len() as int) == last_non_ws_end(s@, b as int),
        decreases b,
    {
        b = b - 1;
    }
    if a < b {
        sub_chars_range(s, a, b)
    } else {
        Vec::new()
    }
}

/// Reading of a paired spec `a=<x>,b=<y>`: comma-separated `key=value` pieces
/// with keys `a` and `b` only (keys and values trimmed, later pieces winning);
/// `None` when a piece lacks `=`, has another key, or a key is missing.
pub open spec fn paired_from(parts: Seq<Seq<char>>, k: int, a: Option<Seq<char>>, b: Option<Seq<char>>)
    -> Option<(Seq<char>, Seq<char>)>
    decreases parts.len() - k,
{
    if k < 0 || k >= parts.len() {
        match (a, b) {
            (Some(x), Some(y)) => Some((x, y)),
            _ => None,
        }
    } else {
        let p = parts[k];
        let e = sep_at(p, '=', 0);
        if e >= p.len() {
            None
        } else {
            let key = trim(p.take(e));
            let value = trim(p.skip(e + 1));
            if key == "a"@ {
                paired_from(parts, k + 1, Some(value), b)
            } else if key == "b"@ {
                paired_from(parts, k + 1, a, Some(value))
            } else {
                None
            }
        }
    }
}

/// Parses a paired spec `a=<x>,b=<y>` (see [`paired_from`]).
pub fn parse_paired_spec(spec: &str) -> (res: Option<(String, String)>)
    ensures
        match res {
            Some((x, y)) => paired_from(split_from(spec@, ',', 0), 0, None, None) == Some((x@, y@)),
            None => paired_from(split_from(spec@, ',', 0), 0, None, None) is None,
        },
{
    let cs = chars_of(spec);
    let parts = split_chars(&cs, ',');
    let ghost ps = parts@.map_values(|x: Vec<char>| x@);
    let mut a: Option<Vec<char>> = None;
    let mut b: Option<Vec<char>> = None;
    let mut k: usize = 0;
    while k < parts.len()
        invariant
            ps == parts@.map_values(|x: Vec<char>| x@),
            ps == split_from(cs@, ',', 0),
            cs@ == spec@,
            0 <= k <= parts@.len(),
            paired_from(ps, k as int,
                match a { Some(x) => Some(x@), None => None },
                match b { Some(y) => Some(y@), None => None })
                == paired_from(ps, 0, None, None),
        decreases parts@.len() - k,
    {
        let p = &parts[k];
        proof {
            assert(ps[k as int] == p@);
        }
        let e = find_sep(p, '=', 0);
        if e >= p.len() {
            return None;
        }
        let key = trim_chars(&sub_chars_range(p, 0, e));
        let value = trim_chars(&sub_chars_range(p, e + 1, p.len()));
        proof {
            assert(p@.subrange(0, e as int) == p@.take(e as int));
            assert(p@.subrange(e + 1, p@.len() as int) == p@.skip(e + 1));
        }
        let ks = string_from_chars(&key);
        if str_eq(ks.as_str(), "a") {
            a = Some(value);
        } else if str_eq(ks.as_str(), "b") {
            b = Some(value);
        } else {
            return None;
        }
        k = k + 1;
    }
    match (a, b) {
        (Some(x), Some(y)) => Some((string_from_chars(&x), string_from_chars(&y))),
        _ => None,
    }
}

/// Some issue is an error whose code starts with `prefix`.
pub fn has_error_with_prefix(issues: &[LintIssue], prefix: &str) -> (b: bool)
    ensures
        b == exists|i: int| 0 <= i < issues@.len() && (#[trigger] issues@[i]).severity == LintSeverity::Error
            && issues@[i].code@.len() >= prefix@.len() && issues@[i].code@.take(prefix@.len() as int) == prefix@,
{
    let pc = chars_of(prefix);
    let mut i: usize = 0;
    while i < issues.len()
        invariant
            pc@ == prefix@,
            0 <= i <= issues@.len(),
            forall|j: int| 0 <= j < i ==> !((#[trigger] issues@[j]).severity == LintSeverity::Error
                && issues@[j].code@.len() >= prefix@.len() && issues@[j].code@.take(prefix@.len() as int) == prefix@),
        decreases issues@.len() - i,
    {
        let code = chars_of(issues[i].code);
        if issues[i].severity == LintSeverity::Error && crate::basics::grammar::starts_with(&code, &pc) {
            return true;
        }
        i = i + 1;
    }
    false
}

/// `pass` for a passing check, `fail` otherwise.
pub fn pass_fail(ok: bool) -> (s: &'static str)
    ensures
        s@ == (if ok { "pass"@ } else { "fail"@ }),
{
    if ok { "pass" } else { "fail" }
}

/// Parses a benchmark version argument, reporting a rejected one by its
/// error message.
pub fn parse_bench_version(s: &str) -> (res: Result<BenchmarkVersion, String>)
    ensures
        match res {
            Ok(v) => is_benchmark_version(s@) && v@ == s@,
            Err(m) => !is_benchmark_version(s@) && m@ == "invalid "@ + "benchmark"@ + " version: expected pattern '"@
                + "v[0-9]+\\.[0-9]+"@ + "', got '"@ + s@ + "'"@,
        },
{
    match BenchmarkVersion::new(s) {
        Ok(v) => Ok(v),
        Err(e) => Err(e.message()),
    }
}

/// Default for an enabled-by-default flag.
pub fn default_true() -> (b: bool)
    ensures
        b,
{
    true
}

/// Default sub-directory for reports.
pub fn default_reports_subdir() -> (s: String)
    ensures
        s@ == "reports"@,
{
    "reports".to_owned()
}

} // verus!
