//! Reading Lean's output: diagnostics of the form
//! `path:line:col: severity: message` with continuation lines, and the names
//! of the theorems, lemmas and definitions a source declares.

use vstd::prelude::*;
use crate::text::{chars_of, string_from_chars};
use crate::lean::{Diagnostic, ElaborateResult, error_class, classify_error};
use crate::lean_text::{is_ws, ws_char};
use crate::axiomize::{lines_of, trim_end};
use crate::review_text::slice;

verus! {

/// An ASCII decimal digit.
pub open spec fn is_digit(c: char) -> bool {
    '0' <= c && c <= '9'
}

/// A character of a declared name: ASCII letter or digit, `_` or `'`.
pub open spec fn is_name_char(c: char) -> bool {
    ('a' <= c && c <= 'z') || ('A' <= c && c <= 'Z') || is_digit(c) || c == '_' || c == '\''
}

/// First position at or after `i` whose character fails `p` (`s.len()` if none).
pub open spec fn run_end(s: Seq<char>, i: int, p: spec_fn(char) -> bool) -> int
    decreases s.len() - i,
{
    if i < 0 || i >= s.len() {
        if i < 0 { 0 } else { s.len() as int }
    } else if p(s[i]) {
        run_end(s, i + 1, p)
    } else {
        i
    }
}

/// A character a diagnostic's path cannot hold.
pub open spec fn ends_path(c: char) -> bool {
    c == ':' || c == '\r' || c == '\n'
}

/// Value of a run of ASCII digits.
pub open spec fn digits_value(ds: Seq<char>) -> nat
    decreases ds.len(),
{
    if ds.len() == 0 {
        0
    } else {
        digits_value(ds.drop_last()) * 10 + ((ds.last() as int - '0' as int) as nat)
    }
}

/// A run of digits read as a `u32`, `None` when too large.
pub open spec fn as_u32(ds: Seq<char>) -> Option<u32> {
    if digits_value(ds) <= u32::MAX { Some(digits_value(ds) as u32) } else { None }
}

/// `s` holds `w` at position `i`.
pub open spec fn word_at(s: Seq<char>, i: int, w: Seq<char>) -> bool {
    0 <= i && i + w.len() <= s.len() && s.subrange(i, i + w.len()) == w
}

/// Severity word at `i`: `error`, `warning` or `info`.
pub open spec fn severity_at(s: Seq<char>, i: int) -> Option<Seq<char>> {
    if word_at(s, i, "error"@) {
        Some("error"@)
    } else if word_at(s, i, "warning"@) {
        Some("warning"@)
    } else if word_at(s, i, "info"@) {
        Some("info"@)
    } else {
        None
    }
}

/// A diagnostic head read with its path starting at `start`:
/// `(line digits, column digits, severity, message)`.
pub open spec fn head_from(s: Seq<char>, start: int) -> Option<(Seq<char>, Seq<char>, Seq<char>, Seq<char>)> {
    let k = run_end(s, start, |c: char| !ends_path(c));
    let b = run_end(s, k + 1, |c: char| is_digit(c));
    let d = run_end(s, b + 1, |c: char| is_digit(c));
    let e = run_end(s, d + 1, |c: char| is_ws(c));
    if k == start || k >= s.len() || s[k] != ':' {
        None
    } else if b == k + 1 || b >= s.len() || s[b] != ':' {
        None
    } else if d == b + 1 || d >= s.len() || s[d] != ':' {
        None
    } else {
        match severity_at(s, e) {
            None => None,
            Some(sev) => {
                let f = e + sev.len();
                if f >= s.len() || s[f] != ':' {
                    None
                } else {
                    let g = run_end(s, f + 1, |c: char| is_ws(c));
                    Some((s.subrange(k + 1, b), s.subrange(b + 1, d), sev, s.skip(g)))
                }
            },
        }
    }
}

/// The head of a diagnostic line, trying a drive-letter prefix `X:` first.
pub open spec fn diagnostic_head(s: Seq<char>) -> Option<(Seq<char>, Seq<char>, Seq<char>, Seq<char>)> {
    let drive = s.len() >= 2 && (('a' <= s[0] && s[0] <= 'z') || ('A' <= s[0] && s[0] <= 'Z')) && s[1] == ':';
    if drive && head_from(s, 2) is Some {
        head_from(s, 2)
    } else {
        head_from(s, 0)
    }
}

/// A diagnostic as plain values: severity, line, column, class, message, tail.
pub type DiagView = (Seq<char>, Option<u32>, Option<u32>, Seq<char>, Seq<char>, Seq<Seq<char>>);

/// A diagnostic's plain values.
pub open spec fn diag_view(d: Diagnostic) -> DiagView {
    (d.severity@, d.line, d.column, d.error_class@, d.message@, d.message_tail@.map_values(|t: String| t@))
}

/// The diagnostics of the first `k` lines: each head line opens one; each
/// other non-blank line (trimmed at its end) continues the last one, and
/// may sharpen an `other` class by what the first message line and this
/// line say together.
pub open spec fn diagnostics_upto(lines: Seq<Seq<char>>, k: int) -> Seq<DiagView>
    decreases k,
{
    if k <= 0 || k > lines.len() {
        Seq::empty()
    } else {
        let prev = diagnostics_upto(lines, k - 1);
        let l = lines[k - 1];
        match diagnostic_head(l) {
            Some((ld, cd, sev, msg)) => prev.push((sev, as_u32(ld), as_u32(cd), error_class(sev, msg), msg, Seq::empty())),
            None => {
                let t = trim_end(l);
                if prev.len() == 0 || t.len() == 0 {
                    prev
                } else {
                    let last = prev.last();
                    let refined = error_class(last.0, last.4 + seq![' '] + t);
                    let class = if last.3 == "other"@ && refined != "other"@ { refined } else { last.3 };
                    prev.drop_last().push((last.0, last.1, last.2, class, last.4, last.5.push(t)))
                }
            },
        }
    }
}

/// Position of the first character at or after `i` that is not white space.
fn skip_white(s: &[char], i: usize) -> (r: usize)
    requires
        i <= s@.len(),
    ensures
        r == run_end(s@, i as int, |c: char| is_ws(c)),
        i <= r <= s@.len(),
{
    let mut j = i;
    while j < s.len() && ws_char(s[j])
        invariant
            i <= j <= s@.len(),
            run_end(s@, i as int, |c: char| is_ws(c)) == run_end(s@, j as int, |c: char| is_ws(c)),
        decreases s@.len() - j,
    {
        j = j + 1;
    }
    j
}

/// Position of the first non-digit at or after `i`.
fn skip_digits(s: &[char], i: usize) -> (r: usize)
    requires
        i <= s@.len(),
    ensures
        r == run_end(s@, i as int, |c: char| is_digit(c)),
        i <= r <= s@.len(),
{
    let mut j = i;
    while j < s.len() && '0' <= s[j] && s[j] <= '9'
        invariant
            i <= j <= s@.len(),
            run_end(s@, i as int, |c: char| is_digit(c)) == run_end(s@, j as int, |c: char| is_digit(c)),
        decreases s@.len() - j,
    {
        j = j + 1;
    }
    j
}

/// Position of the first `:`, `\r` or `\n` at or after `i`.
fn skip_path(s: &[char], i: usize) -> (r: usize)
    requires
        i <= s@.len(),
    ensures
        r == run_end(s@, i as int, |c: char| !ends_path(c)),
        i <= r <= s@.len(),
{
    let mut j = i;
    while j < s.len() && s[j] != ':' && s[j] != '\r' && s[j] != '\n'
        invariant
            i <= j <= s@.len(),
            run_end(s@, i as int, |c: char| !ends_path(c)) == run_end(s@, j as int, |c: char| !ends_path(c)),
        decreases s@.len() - j,
    {
        j = j + 1;
    }
    j
}

/// Whether `s` holds `w` at `i`.
fn word_here(s: &[char], i: usize, w: &str) -> (b: bool)
    ensures
        b == word_at(s@, i as int, w@),
{
    let wc = chars_of(w);
    if i > s.len() || s.len() - i < wc.len() {
        return false;
    }
    let mut t: usize = 0;
    while t < wc.len()
        invariant
            i + wc@.len() <= s.len(),
            t <= wc@.len(),
            wc@ == w@,
            forall|q: int| 0 <= q < t ==> s@[i + q] == wc@[q],
        decreases wc@.len() - t,
    {
        if s[i + t] != wc[t] {
            proof {
                assert(s@.subrange(i as int, i + wc@.len())[t as int] != w@[t as int]);
            }
            return false;
        }
        t = t + 1;
    }
    proof {
        assert(s@.subrange(i as int, i + wc@.len()) =~= w@);
    }
    true
}

/// Reads a run of digits as a `u32`, `None` when it is too large.
fn read_u32(ds: &[char]) -> (r: Option<u32>)
    requires
        forall|q: int| 0 <= q < ds@.len() ==> is_digit(#[trigger] ds@[q]),
    ensures
        r == as_u32(ds@),
{
    let mut v: u64 = 0;
    let mut big = false;
    let mut i: usize = 0;
    while i < ds.len()
        invariant
            i <= ds@.len(),
            forall|q: int| 0 <= q < ds@.len() ==> is_digit(#[trigger] ds@[q]),
            !big ==> v == digits_value(ds@.take(i as int)) && v <= u32::MAX,
            big ==> digits_value(ds@.take(i as int)) > u32::MAX,
        decreases ds@.len() - i,
    {
        let d = (ds[i] as u32 - '0' as u32) as u64;
        proof {
            assert(ds@.take(i + 1).drop_last() =~= ds@.take(i as int));
            assert(ds@.take(i + 1).last() == ds@[i as int]);
        }
        if !big {
            v = v * 10 + d;
            if v > 0xFFFF_FFFFu64 {
                big = true;
            }
        }
        i = i + 1;
    }
    proof {
        assert(ds@.take(ds@.len() as int) =~= ds@);
    }
    if big { None } else { Some(v as u32) }
}

/// Reads the head of a diagnostic line with its path starting at `start`.
fn read_head_from(s: &[char], start: usize) -> (r: Option<(Vec<char>, Vec<char>, &'static str, Vec<char>)>)
    requires
        start <= s@.len(),
    ensures
        match r {
            Some((ld, cd, sev, msg)) => head_from(s@, start as int) == Some((ld@, cd@, sev@, msg@)),
            None => head_from(s@, start as int) is None,
        },
{
    proof {
        reveal_strlit("error");
        reveal_strlit("warning");
        reveal_strlit("info");
    }
    let n = s.len();
    let k = skip_path(s, start);
    if k == start || k >= n || s[k] != ':' {
        return None;
    }
    let b = skip_digits(s, k + 1);
    if b == k + 1 || b >= n || s[b] != ':' {
        return None;
    }
    let d = skip_digits(s, b + 1);
    if d == b + 1 || d >= n || s[d] != ':' {
        return None;
    }
    let e = skip_white(s, d + 1);
    let sev: &'static str = if word_here(s, e, "error") {
        "error"
    } else if word_here(s, e, "warning") {
        "warning"
    } else if word_here(s, e, "info") {
        "info"
    } else {
        return None;
    };
    let sl = chars_of(sev).len();
    proof {
        assert(severity_at(s@, e as int) == Some(sev@));
    }
    let f = e + sl;
    if f >= n || s[f] != ':' {
        return None;
    }
    let g = skip_white(s, f + 1);
    let ld = slice(s, k + 1, b);
    let cd = slice(s, b + 1, d);
    let msg = slice(s, g, n);
    proof {
        assert(s@.subrange(g as int, n as int) == s@.skip(g as int));
    }
    Some((ld, cd, sev, msg))
}

/// Reads the head of a diagnostic line (see `diagnostic_head`).
fn read_head(s: &[char]) -> (r: Option<(Vec<char>, Vec<char>, &'static str, Vec<char>)>)
    ensures
        match r {
            Some((ld, cd, sev, msg)) => diagnostic_head(s@) == Some((ld@, cd@, sev@, msg@)),
            None => diagnostic_head(s@) is None,
        },
{
    let drive = s.len() >= 2 && (('a' <= s[0] && s[0] <= 'z') || ('A' <= s[0] && s[0] <= 'Z')) && s[1] == ':';
    if drive {
        let h = read_head_from(s, 2);
        if h.is_some() {
            return h;
        }
    }
    read_head_from(s, 0)
}

/// Bounds of a run, and what holds along it.
proof fn lemma_run_end(s: Seq<char>, i: int, p: spec_fn(char) -> bool)
    requires
        0 <= i <= s.len(),
    ensures
        i <= run_end(s, i, p) <= s.len(),
        forall|q: int| i <= q < run_end(s, i, p) ==> p(#[trigger] s[q]),
    decreases s.len() - i,
{
    if i < s.len() && p(s[i]) {
        lemma_run_end(s, i + 1, p);
    }
}

/// Plain values of a list of diagnostics.
pub open spec fn diag_views(ds: Seq<Diagnostic>) -> Seq<DiagView> {
    ds.map_values(|d: Diagnostic| diag_view(d))
}

/// Copies a list of strings.
fn copy_strings(v: &Vec<String>) -> (out: Vec<String>)
    ensures
        out@.map_values(|t: String| t@) == v@.map_values(|t: String| t@),
{
    let mut out: Vec<String> = Vec::new();
    let mut k: usize = 0;
    while k < v.len()
        invariant
            k <= v@.len(),
            out@.map_values(|t: String| t@) == v@.take(k as int).map_values(|t: String| t@),
        decreases v@.len() - k,
    {
        let c = string_from_chars(&chars_of(v[k].as_str()));
        let ghost before = out@;
        out.push(c);
        proof {
            assert(v@.take(k + 1) =~= v@.take(k as int).push(v@[k as int]));
            assert(out@ =~= before.push(c));
            assert(before.push(c).map_values(|t: String| t@) =~= before.map_values(|t: String| t@).push(c@));
            assert(v@.take(k as int).push(v@[k as int]).map_values(|t: String| t@)
                =~= v@.take(k as int).map_values(|t: String| t@).push(v@[k as int]@));
        }
        k = k + 1;
    }
    proof {
        assert(v@.take(v@.len() as int) =~= v@);
    }
    out
}

/// Parses the combined output of `lake env lean` into diagnostics.
pub fn parse_diagnostics(combined: &str) -> (out: Vec<Diagnostic>)
    ensures
        diag_views(out@) == diagnostics_upto(lines_of(combined@), lines_of(combined@).len() as int),
{
    let cs = chars_of(combined);
    let lines = crate::axiomize::text_lines(&cs);
    let ghost ls = lines@.map_values(|x: Vec<char>| x@);
    let mut out: Vec<Diagnostic> = Vec::new();
    let mut k: usize = 0;
    proof {
        assert(diag_views(out@) =~= Seq::<DiagView>::empty());
    }
    while k < lines.len()
        invariant
            ls == lines@.map_values(|x: Vec<char>| x@),
            ls == lines_of(combined@),
            k <= lines@.len(),
            diag_views(out@) == diagnostics_upto(ls, k as int),
        decreases lines@.len() - k,
    {
        let l = &lines[k];
        proof {
            assert(l@ == ls[k as int]);
        }
        let ghost before = diag_views(out@);
        match read_head(l) {
            Some((ld, cd, sev, msg)) => {
                proof {
                    lemma_head_digits(l@);
                    assert(line_digits(diagnostic_head(l@)) == ld@);
                    assert(col_digits(diagnostic_head(l@)) == cd@);
                }
                let line = read_u32(&ld);
                let column = read_u32(&cd);
                let message = string_from_chars(&msg);
                let class = classify_error(sev, message.as_str());
                let d = Diagnostic {
                    severity: sev.to_owned(),
                    line,
                    column,
                    error_class: class,
                    message,
                    message_tail: Vec::new(),
                };
                proof {
                    assert(d.message_tail@.map_values(|t: String| t@) =~= Seq::<Seq<char>>::empty());
                }
                out.push(d);
                proof {
                    assert(diag_views(out@) =~= before.push(diag_view(d)));
                    assert(diagnostics_upto(ls, k + 1) == before.push(diag_view(d)));
                }
            },
            None => {
                let t = crate::axiomize::trim_end_chars(l);
                if out.len() > 0 && t.len() > 0 {
                    let last = out.pop().unwrap();
                    proof {
                        assert(diag_views(out@) =~= before.drop_last());
                        assert(diag_view(last) == before.last());
                    }
                    let mut joined = chars_of(last.message.as_str());
                    joined.push(' ');
                    let mut q: usize = 0;
                    let ghost base = joined@;
                    while q < t.len()
                        invariant
                            q <= t@.len(),
                            joined@ == base + t@.take(q as int),
                        decreases t@.len() - q,
                    {
                        joined.push(t[q]);
                        proof {
                            assert(t@.take(q + 1) == t@.take(q as int).push(t@[q as int]));
                        }
                        q = q + 1;
                    }
                    proof {
                        assert(t@.take(t@.len() as int) =~= t@);
                    }
                    let joined_s = string_from_chars(&joined);
                    let refined = classify_error(last.severity.as_str(), joined_s.as_str());
                    let keep_other = crate::text::str_eq(last.error_class.as_str(), "other")
                        && !crate::text::str_eq(refined.as_str(), "other");
                    let class = if keep_other { refined } else { string_from_chars(&chars_of(last.error_class.as_str())) };
                    let mut tail = copy_strings(&last.message_tail);
                    let ghost tail0 = tail@.map_values(|x: String| x@);
                    let ts = string_from_chars(&t);
                    tail.push(ts);
                    proof {
                        assert(tail@.map_values(|x: String| x@) =~= tail0.push(t@));
                    }
                    let d = Diagnostic {
                        severity: last.severity,
                        line: last.line,
                        column: last.column,
                        error_class: class,
                        message: last.message,
                        message_tail: tail,
                    };
                    out.push(d);
                    proof {
                        let lv = before.last();
                        assert(diagnostic_head(ls[k as int]) is None);
                        assert(t@ == trim_end(ls[k as int]));
                        assert(joined@ == lv.4 + seq![' '] + t@);
                        assert(refined@ == error_class(lv.0, lv.4 + seq![' '] + t@));
                        assert(diag_view(d).3 == (if lv.3 == "other"@ && refined@ != "other"@ { refined@ } else { lv.3 }));
                        assert(diag_view(d).5 == lv.5.push(t@));
                        assert(diag_view(d) == (lv.0, lv.1, lv.2, diag_view(d).3, lv.4, lv.5.push(t@)));
                        assert(diag_views(out@) =~= before.drop_last().push(diag_view(d)));
                        assert(diagnostics_upto(ls, k + 1) == before.drop_last().push(diag_view(d)));
                    }
                } else {
                    proof {
                        assert(diagnostics_upto(ls, k + 1) == before);
                    }
                }
            },
        }
        k = k + 1;
    }
    out
}

/// Line digits of a head.
pub open spec fn line_digits(h: Option<(Seq<char>, Seq<char>, Seq<char>, Seq<char>)>) -> Seq<char> {
    match h {
        Some((ld, _, _, _)) => ld,
        None => Seq::empty(),
    }
}

/// Column digits of a head.
pub open spec fn col_digits(h: Option<(Seq<char>, Seq<char>, Seq<char>, Seq<char>)>) -> Seq<char> {
    match h {
        Some((_, cd, _, _)) => cd,
        None => Seq::empty(),
    }
}

/// Head digits are digits.
proof fn lemma_head_digits(s: Seq<char>)
    ensures
        diagnostic_head(s) is Some ==> (forall|q: int| 0 <= q < line_digits(diagnostic_head(s)).len()
            ==> is_digit(#[trigger] line_digits(diagnostic_head(s))[q])),
        diagnostic_head(s) is Some ==> (forall|q: int| 0 <= q < col_digits(diagnostic_head(s)).len()
            ==> is_digit(#[trigger] col_digits(diagnostic_head(s))[q])),
{
    let drive = s.len() >= 2 && (('a' <= s[0] && s[0] <= 'z') || ('A' <= s[0] && s[0] <= 'Z')) && s[1] == ':';
    if drive && head_from(s, 2) is Some {
        lemma_head_from_digits(s, 2);
    } else {
        lemma_head_from_digits(s, 0);
    }
}

/// Head digits are digits, for a given start.
proof fn lemma_head_from_digits(s: Seq<char>, start: int)
    requires
        0 <= start,
    ensures
        head_from(s, start) is Some ==> (forall|q: int| 0 <= q < line_digits(head_from(s, start)).len()
            ==> is_digit(#[trigger] line_digits(head_from(s, start))[q])),
        head_from(s, start) is Some ==> (forall|q: int| 0 <= q < col_digits(head_from(s, start)).len()
            ==> is_digit(#[trigger] col_digits(head_from(s, start))[q])),
{
    if head_from(s, start) is Some {
        let k = run_end(s, start, |c: char| !ends_path(c));
        assert(start < s.len());
        lemma_run_end(s, start, |c: char| !ends_path(c));
        let b = run_end(s, k + 1, |c: char| is_digit(c));
        lemma_run_end(s, k + 1, |c: char| is_digit(c));
        let d = run_end(s, b + 1, |c: char| is_digit(c));
        lemma_run_end(s, b + 1, |c: char| is_digit(c));
        let (ld, cd, sev, msg) = head_from(s, start)->0;
        assert(ld == s.subrange(k + 1, b));
        assert forall|q: int| 0 <= q < ld.len() implies is_digit(#[trigger] ld[q]) by {
            assert(ld[q] == s[k + 1 + q]);
        }
        assert(cd == s.subrange(b + 1, d));
        assert forall|q: int| 0 <= q < cd.len() implies is_digit(#[trigger] cd[q]) by {
            assert(cd[q] == s[b + 1 + q]);
        }
    }
}

/// Span of the name declared at `i` by `theorem`, `lemma` or `def`
/// followed by white space.
pub open spec fn decl_name_at(s: Seq<char>, i: int) -> Option<(int, int)> {
    let kw: int = if word_at(s, i, "theorem"@) {
        7
    } else if word_at(s, i, "lemma"@) {
        5
    } else if word_at(s, i, "def"@) {
        3
    } else {
        0
    };
    if kw == 0 {
        None
    } else {
        let m = run_end(s, i + kw, |c: char| is_ws(c));
        let e = run_end(s, m, |c: char| is_name_char(c));
        if m == i + kw || e == m { None } else { Some((m, e)) }
    }
}

/// Start of a name span.
pub open spec fn span_start(o: Option<(int, int)>) -> int {
    match o {
        Some((m, _)) => m,
        None => 0,
    }
}

/// End of a name span.
pub open spec fn span_end(o: Option<(int, int)>) -> int {
    match o {
        Some((_, e)) => e,
        None => 0,
    }
}

/// Names declared from position `i` on, where `fresh` says that only white
/// space stands between the start of the line (or text) and `i`: a
/// declaration counts only as the first thing on its line.
pub open spec fn names_from(s: Seq<char>, i: int, fresh: bool) -> Seq<Seq<char>>
    decreases s.len() - i,
{
    if i < 0 || i >= s.len() {
        Seq::empty()
    } else if s[i] == '\n' {
        names_from(s, i + 1, true)
    } else if is_ws(s[i]) {
        names_from(s, i + 1, fresh)
    } else if fresh && decl_name_at(s, i) is Some && i < span_end(decl_name_at(s, i)) <= s.len() {
        seq![s.subrange(span_start(decl_name_at(s, i)), span_end(decl_name_at(s, i)))]
            + names_from(s, span_end(decl_name_at(s, i)), false)
    } else {
        names_from(s, i + 1, false)
    }
}

/// Whether `c` may appear in a declared name.
fn name_char(c: char) -> (b: bool)
    ensures
        b == is_name_char(c),
{
    ('a' <= c && c <= 'z') || ('A' <= c && c <= 'Z') || ('0' <= c && c <= '9') || c == '_' || c == '\''
}

/// The name declared at `i`, if a declaration starts there.
fn read_decl(s: &[char], i: usize) -> (r: Option<(usize, usize)>)
    requires
        i < s@.len(),
    ensures
        match r {
            Some((m, e)) => decl_name_at(s@, i as int) == Some((m as int, e as int)) && i < m < e <= s@.len(),
            None => decl_name_at(s@, i as int) is None,
        },
{
    proof {
        reveal_strlit("theorem");
        reveal_strlit("lemma");
        reveal_strlit("def");
        assert("theorem"@.len() == 7);
        assert("lemma"@.len() == 5);
        assert("def"@.len() == 3);
    }
    let kw: usize = if word_here(s, i, "theorem") {
        7
    } else if word_here(s, i, "lemma") {
        5
    } else if word_here(s, i, "def") {
        3
    } else {
        return None;
    };
    let n = s.len();
    assert(i + kw <= n);
    let j = i + kw;
    let m = skip_white(s, j);
    let mut e = m;
    while e < s.len() && name_char(s[e])
        invariant
            m <= e <= s@.len(),
            run_end(s@, m as int, |c: char| is_name_char(c)) == run_end(s@, e as int, |c: char| is_name_char(c)),
        decreases s@.len() - e,
    {
        e = e + 1;
    }
    if m == j || e == m {
        None
    } else {
        Some((m, e))
    }
}

/// Names of the theorems, lemmas and definitions a Lean source declares,
/// each the first thing on its line, in order.
pub fn extract_theorem_names(source: &str) -> (out: Vec<String>)
    ensures
        out@.map_values(|t: String| t@) == names_from(source@, 0, true),
{
    let s = chars_of(source);
    let mut out: Vec<String> = Vec::new();
    let mut i: usize = 0;
    let mut fresh = true;
    proof {
        assert(out@.map_values(|t: String| t@) =~= Seq::<Seq<char>>::empty());
    }
    while i < s.len()
        invariant
            s@ == source@,
            i <= s@.len(),
            out@.map_values(|t: String| t@) + names_from(s@, i as int, fresh) == names_from(s@, 0, true),
        decreases s@.len() - i,
    {
        let c = s[i];
        if c == '\n' {
            fresh = true;
            i = i + 1;
        } else if ws_char(c) {
            i = i + 1;
        } else {
            let d = if fresh { read_decl(&s, i) } else { None };
            match d {
                Some((m, e)) => {
                    let name = string_from_chars(&slice(&s, m, e));
                    let ghost before = out@.map_values(|t: String| t@);
                    out.push(name);
                    proof {
                        assert(out@.map_values(|t: String| t@) =~= before.push(s@.subrange(m as int, e as int)));
                        assert(out@.map_values(|t: String| t@) + names_from(s@, e as int, false)
                            =~= before + names_from(s@, i as int, fresh));
                    }
                    i = e;
                    fresh = false;
                },
                None => {
                    i = i + 1;
                    fresh = false;
                },
            }
        }
    }
    proof {
        assert(out@.map_values(|t: String| t@) + names_from(s@, i as int, fresh) =~= out@.map_values(|t: String| t@));
    }
    out
}

/// What Lean printed, read as one text: stdout, then stderr after a line
/// break when both are non-empty.
pub open spec fn combined_output(stdout: Seq<char>, stderr: Seq<char>) -> Seq<char> {
    if stderr.len() == 0 {
        stdout
    } else if stdout.len() == 0 {
        stderr
    } else {
        stdout + seq!['\n'] + stderr
    }
}

/// Some diagnostic has severity `error`.
pub open spec fn has_error(ds: Seq<DiagView>) -> bool {
    exists|i: int| 0 <= i < ds.len() && (#[trigger] ds[i]).0 == "error"@
}

/// The result of an elaboration from what the Lean process gave back: its
/// diagnostics, the names the source declares, and whether the file
/// elaborated (exit code 0 and no error).
pub fn elaboration_result(stdout: String, stderr: String, exit_code: Option<i32>, file_path: String, source: &str) -> (r: ElaborateResult)
    ensures
        diag_views(r.diagnostics@) == diagnostics_upto(
            lines_of(combined_output(stdout@, stderr@)),
            lines_of(combined_output(stdout@, stderr@)).len() as int,
        ),
        r.theorem_names@.map_values(|t: String| t@) == names_from(source@, 0, true),
        r.elaborates == (exit_code == Some(0i32) && !has_error(diag_views(r.diagnostics@))),
        r.stdout@ == stdout@,
        r.stderr@ == stderr@,
        r.exit_code == exit_code,
        r.file_path@ == file_path@,
{
    let combined = if stderr.unicode_len() == 0 {
        string_from_chars(&chars_of(stdout.as_str()))
    } else if stdout.unicode_len() == 0 {
        string_from_chars(&chars_of(stderr.as_str()))
    } else {
        let mut c = string_from_chars(&chars_of(stdout.as_str()));
        crate::text::string_push(&mut c, '\n');
        crate::text::push_all(&mut c, stderr.as_str());
        proof {
            assert(c@ =~= stdout@ + seq!['\n'] + stderr@);
        }
        c
    };
    proof {
        assert(combined@ =~= combined_output(stdout@, stderr@));
    }
    let diagnostics = parse_diagnostics(combined.as_str());
    let theorem_names = extract_theorem_names(source);
    let mut any_error = false;
    let mut i: usize = 0;
    while i < diagnostics.len()
        invariant
            i <= diagnostics@.len(),
            any_error == exists|j: int| 0 <= j < i && (#[trigger] diag_views(diagnostics@)[j]).0 == "error"@,
        decreases diagnostics@.len() - i,
    {
        if crate::text::str_eq(diagnostics[i].severity.as_str(), "error") {
            proof {
                assert(diag_views(diagnostics@)[i as int].0 == "error"@);
            }
            any_error = true;
        }
        proof {
            assert(diag_views(diagnostics@)[i as int] == diag_view(diagnostics@[i as int]));
        }
        i = i + 1;
    }
    let elaborates = match exit_code {
        Some(c) => c == 0 && !any_error,
        None => false,
    };
    ElaborateResult { elaborates, diagnostics, stdout, stderr, exit_code, file_path, theorem_names }
}

} // verus!
