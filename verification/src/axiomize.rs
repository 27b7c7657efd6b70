//! Turning Lean theorems whose proofs are placeholders into axioms, so that a
//! review packet still elaborates while its proofs are missing.

use vstd::prelude::*;
use crate::text::{chars_of, string_from_chars};
use crate::cli_rules::{first_non_ws, last_non_ws_end, split_from, split_chars};
use crate::lean_text::{ws_char, is_ws};
use crate::review_text::{
    occ_from, has_placeholder_proof, contains_admit_or_sorry, find_first, slice, has_prefix_str,
    lemma_occ_from,
};

verus! {

/// `s` without its leading white space (`str::trim_start`).
pub open spec fn trim_start(s: Seq<char>) -> Seq<char> {
    s.skip(first_non_ws(s, 0))
}

/// `s` without its trailing white space (`str::trim_end`).
pub open spec fn trim_end(s: Seq<char>) -> Seq<char> {
    s.take(last_non_ws_end(s, s.len() as int))
}

/// `s` starts with `p`.
pub open spec fn starts_with(s: Seq<char>, p: Seq<char>) -> bool {
    s.len() >= p.len() && s.take(p.len() as int) == p
}

/// A line without one trailing carriage return.
pub open spec fn strip_cr(l: Seq<char>) -> Seq<char> {
    if l.len() > 0 && l.last() == '\r' {
        l.drop_last()
    } else {
        l
    }
}

/// The lines of `s` as `str::lines` gives them: pieces between `\n`s, each
/// that ended in `\n` without a `\r` just before it; a last piece that is
/// empty is no line.
pub open spec fn lines_of(s: Seq<char>) -> Seq<Seq<char>> {
    let parts = split_from(s, '\n', 0);
    let body = parts.drop_last().map_values(|l: Seq<char>| strip_cr(l));
    if parts.last().len() == 0 {
        body
    } else {
        body.push(parts.last())
    }
}

/// The lines joined by `\n`.
pub open spec fn join_lines(ls: Seq<Seq<char>>) -> Seq<char>
    decreases ls.len(),
{
    if ls.len() == 0 {
        Seq::empty()
    } else if ls.len() == 1 {
        ls[0]
    } else {
        join_lines(ls.drop_last()) + seq!['\n'] + ls.last()
    }
}

/// A line that ends a skipped proof: blank, or the start of a `def`,
/// `theorem` or `lemma`.
pub open spec fn block_stop(line: Seq<char>) -> bool {
    let t = trim_start(line);
    t.len() == 0 || starts_with(t, "def "@) || starts_with(t, "theorem "@) || starts_with(t, "lemma "@)
}

/// Head of a declaration after a keyword of `n` characters: what precedes
/// its first `:= by`.
pub open spec fn head_before_by(t: Seq<char>, n: int) -> Option<Seq<char>> {
    match occ_from(t.skip(n), ":= by"@, 0) {
        Some(k) => Some(t.skip(n).take(k)),
        None => None,
    }
}

/// The line as an axiom, when it opens a `theorem` or `lemma` proved by
/// tactics: the same indentation, `axiom` and the head up to `:= by`.
pub open spec fn axiom_line(line: Seq<char>) -> Option<Seq<char>> {
    let t = trim_start(line);
    let indent = line.take(first_non_ws(line, 0));
    if starts_with(t, "theorem "@) && head_before_by(t, 8) is Some {
        Some(indent + "axiom "@ + trim_end(head_before_by(t, 8)->0))
    } else if starts_with(t, "lemma "@) && head_before_by(t, 6) is Some {
        Some(indent + "axiom "@ + trim_end(head_before_by(t, 6)->0))
    } else {
        None
    }
}

/// The lines from `i` on, each tactic-proved theorem or lemma replaced by
/// its axiom line and the lines of its proof (up to a stopping line)
/// dropped; `skipping` says whether a proof is being dropped.
pub open spec fn rewrite_lines(lines: Seq<Seq<char>>, i: int, skipping: bool) -> Seq<Seq<char>>
    decreases lines.len() - i,
{
    if i < 0 || i >= lines.len() {
        Seq::empty()
    } else if skipping && !block_stop(lines[i]) {
        rewrite_lines(lines, i + 1, true)
    } else {
        match axiom_line(lines[i]) {
            Some(a) => seq![a] + rewrite_lines(lines, i + 1, true),
            None => seq![lines[i]] + rewrite_lines(lines, i + 1, false),
        }
    }
}

/// A Lean text with every tactic-proved theorem or lemma turned into an axiom.
pub open spec fn axiomized_blocks(stmt: Seq<char>) -> Seq<char> {
    join_lines(rewrite_lines(lines_of(stmt), 0, false))
}

/// A statement whose proof is a placeholder, turned into an axiom: a `def`
/// becomes an axiom of its head; a statement whose head (before its first
/// `:= by`) is a theorem or lemma becomes an axiom of that head; anything
/// else has its embedded theorem blocks turned into axioms. A statement with
/// a real proof is kept.
pub open spec fn axiomized(stmt: Seq<char>) -> Seq<char> {
    if !has_placeholder_proof(stmt) {
        stmt
    } else {
        let def_head = match occ_from(stmt, ":="@, 0) {
            Some(k) => trim_start(stmt.take(k)),
            None => Seq::empty(),
        };
        if starts_with(trim_start(stmt), "def "@) && occ_from(stmt, ":="@, 0) is Some && starts_with(def_head, "def "@) {
            "axiom "@ + trim_end(def_head.skip(4))
        } else {
            match occ_from(stmt, ":= by"@, 0) {
                None => axiomized_blocks(stmt),
                Some(k) => {
                    let head = trim_end(stmt.take(k));
                    if starts_with(head, "theorem "@) {
                        "axiom "@ + head.skip(8)
                    } else if starts_with(head, "lemma "@) {
                        "axiom "@ + head.skip(6)
                    } else {
                        axiomized_blocks(stmt)
                    }
                },
            }
        }
    }
}

/// Bounds of the trimming positions.
proof fn lemma_ws_bounds(s: Seq<char>, i: int, j: int)
    requires
        0 <= i <= s.len(),
        0 <= j <= s.len(),
    ensures
        i <= first_non_ws(s, i) <= s.len(),
        0 <= last_non_ws_end(s, j) <= j,
    decreases s.len() - i + j,
{
    if i < s.len() && is_ws(s[i]) {
        lemma_ws_bounds(s, i + 1, j);
    }
    if j > 0 && is_ws(s[j - 1]) {
        lemma_ws_bounds(s, i, j - 1);
    }
}

/// Position of the first character that is not white space.
fn first_non_ws_at(s: &[char]) -> (a: usize)
    ensures
        a == first_non_ws(s@, 0),
        a <= s@.len(),
{
    proof {
        lemma_ws_bounds(s@, 0, 0);
    }
    let mut a: usize = 0;
    while a < s.len() && ws_char(s[a])
        invariant
            0 <= a <= s@.len(),
            first_non_ws(s@, 0) == first_non_ws(s@, a as int),
        decreases s@.len() - a,
    {
        a = a + 1;
    }
    a
}

/// `str::trim_start`.
pub(crate) fn trim_start_chars(s: &[char]) -> (out: Vec<char>)
    ensures
        out@ == trim_start(s@),
{
    let a = first_non_ws_at(s);
    let out = slice(s, a, s.len());
    proof {
        assert(s@.subrange(a as int, s@.len() as int) == s@.skip(a as int));
    }
    out
}

/// `str::trim_end`.
pub(crate) fn trim_end_chars(s: &[char]) -> (out: Vec<char>)
    ensures
        out@ == trim_end(s@),
{
    proof {
        lemma_ws_bounds(s@, 0, s@.len() as int);
    }
    let mut b: usize = s.len();
    while b > 0 && ws_char(s[b - 1])
        invariant
            0 <= b <= s@.len(),
            last_non_ws_end(s@, s@.len() as int) == last_non_ws_end(s@, b as int),
        decreases b,
    {
        b = b - 1;
    }
    let out = slice(s, 0, b);
    proof {
        assert(s@.subrange(0, b as int) == s@.take(b as int));
    }
    out
}

/// `a` followed by `b`.
fn concat(a: &[char], b: &[char]) -> (out: Vec<char>)
    ensures
        out@ == a@ + b@,
{
    let mut out = slice(a, 0, a.len());
    let mut i: usize = 0;
    proof {
        assert(a@.subrange(0, a@.len() as int) == a@);
    }
    while i < b.len()
        invariant
            i <= b@.len(),
            out@ == a@ + b@.take(i as int),
        decreases b@.len() - i,
    {
        out.push(b[i]);
        proof {
            assert(b@.take(i + 1) == b@.take(i as int).push(b@[i as int]));
        }
        i = i + 1;
    }
    proof {
        assert(b@.take(b@.len() as int) == b@);
    }
    out
}

/// The head of a declaration after a keyword of `n` characters, up to its
/// first `:= by`.
fn head_before_by_chars(t: &[char], n: usize) -> (r: Option<Vec<char>>)
    requires
        n <= t@.len(),
    ensures
        match r {
            Some(h) => head_before_by(t@, n as int) == Some(h@),
            None => head_before_by(t@, n as int) is None,
        },
{
    let rest = slice(t, n, t.len());
    let pat = chars_of(":= by");
    proof {
        assert(rest@ == t@.skip(n as int));
    }
    match find_first(&rest, &pat) {
        Some(k) => {
            proof {
                lemma_occ_from(rest@, pat@, 0);
            }
            let h = slice(&rest, 0, k);
            proof {
                assert(rest@.subrange(0, k as int) == rest@.take(k as int));
            }
            Some(h)
        },
        None => None,
    }
}

/// Computes `axiom_line`.
fn axiom_line_chars(line: &[char]) -> (r: Option<Vec<char>>)
    ensures
        match r {
            Some(a) => axiom_line(line@) == Some(a@),
            None => axiom_line(line@) is None,
        },
{
    proof {
        reveal_strlit("theorem ");
        reveal_strlit("lemma ");
        reveal_strlit("axiom ");
        assert("theorem "@.len() == 8);
        assert("lemma "@.len() == 6);
    }
    let a = first_non_ws_at(line);
    let t = slice(line, a, line.len());
    let indent = slice(line, 0, a);
    proof {
        assert(t@ == trim_start(line@));
        assert(indent@ == line@.take(a as int));
    }
    let kw = chars_of("axiom ");
    if has_prefix_str(&t, "theorem ") {
        if let Some(h) = head_before_by_chars(&t, 8) {
            let he = trim_end_chars(&h);
            let out = concat(&concat(&indent, &kw), &he);
            return Some(out);
        }
    }
    if has_prefix_str(&t, "lemma ") {
        if let Some(h) = head_before_by_chars(&t, 6) {
            let he = trim_end_chars(&h);
            let out = concat(&concat(&indent, &kw), &he);
            proof {
                assert(!starts_with(t@, "theorem "@) || head_before_by(t@, 8) is None);
            }
            return Some(out);
        }
    }
    None
}

/// Computes `block_stop`.
fn block_stop_chars(line: &[char]) -> (b: bool)
    ensures
        b == block_stop(line@),
{
    let t = trim_start_chars(line);
    t.len() == 0 || has_prefix_str(&t, "def ") || has_prefix_str(&t, "theorem ") || has_prefix_str(&t, "lemma ")
}

/// The lines of a text, as `str::lines` gives them.
pub(crate) fn text_lines(cs: &[char]) -> (out: Vec<Vec<char>>)
    ensures
        out@.map_values(|x: Vec<char>| x@) == lines_of(cs@),
{
    let parts = split_chars(cs, '\n');
    let ghost ps = split_from(cs@, '\n', 0);
    proof {
        assert(parts@.map_values(|x: Vec<char>| x@) == ps);
        assert(ps.len() >= 1);
        assert(parts@.len() == ps.len());
    }
    let m = parts.len() - 1;
    let mut out: Vec<Vec<char>> = Vec::new();
    let mut k: usize = 0;
    while k < m
        invariant
            m + 1 == parts@.len(),
            parts@.map_values(|x: Vec<char>| x@) == ps,
            k <= m,
            out@.map_values(|x: Vec<char>| x@) == ps.take(k as int).map_values(|l: Seq<char>| strip_cr(l)),
        decreases m - k,
    {
        let p = &parts[k];
        proof {
            assert(p@ == ps[k as int]);
        }
        let l = if p.len() > 0 && p[p.len() - 1] == '\r' {
            slice(p, 0, p.len() - 1)
        } else {
            slice(p, 0, p.len())
        };
        proof {
            assert(l@ == strip_cr(ps[k as int]));
        }
        let ghost before = out@.map_values(|x: Vec<char>| x@);
        out.push(l);
        proof {
            assert(out@.map_values(|x: Vec<char>| x@) =~= before.push(l@));
            assert(ps.take(k + 1).map_values(|l: Seq<char>| strip_cr(l))
                =~= ps.take(k as int).map_values(|l: Seq<char>| strip_cr(l)).push(strip_cr(ps[k as int])));
        }
        k = k + 1;
    }
    proof {
        assert(ps.take(m as int) =~= ps.drop_last());
        assert(parts@[m as int]@ == ps.last());
    }
    let ghost body = ps.drop_last().map_values(|l: Seq<char>| strip_cr(l));
    proof {
        assert(out@.map_values(|x: Vec<char>| x@) == body);
    }
    let last = &parts[m];
    if last.len() > 0 {
        let l = slice(last, 0, last.len());
        let ghost before = out@.map_values(|x: Vec<char>| x@);
        out.push(l);
        proof {
            assert(l@ == ps.last());
            assert(out@.map_values(|x: Vec<char>| x@) =~= before.push(l@));
            assert(lines_of(cs@) == body.push(ps.last()));
        }
    } else {
        proof {
            assert(ps.last().len() == 0);
            assert(lines_of(cs@) == body);
        }
    }
    out
}

/// Joins lines with `\n`.
pub(crate) fn join_lines_chars(ls: &Vec<Vec<char>>) -> (out: Vec<char>)
    ensures
        out@ == join_lines(ls@.map_values(|x: Vec<char>| x@)),
{
    let ghost v = ls@.map_values(|x: Vec<char>| x@);
    let mut out: Vec<char> = Vec::new();
    let mut k: usize = 0;
    proof {
        assert(v.take(0) =~= Seq::<Seq<char>>::empty());
    }
    while k < ls.len()
        invariant
            v == ls@.map_values(|x: Vec<char>| x@),
            k <= ls@.len(),
            out@ == join_lines(v.take(k as int)),
        decreases ls@.len() - k,
    {
        let ghost before = out@;
        let mut nl: Vec<char> = Vec::new();
        if k > 0 {
            nl.push('\n');
        }
        let piece = concat(&nl, &ls[k]);
        out = concat(&out, &piece);
        proof {
            assert(v[k as int] == ls@[k as int]@);
            assert(v.take(k + 1).drop_last() =~= v.take(k as int));
            if k == 0 {
                assert(v.take(1) =~= seq![v[0]]);
                assert(out@ =~= v[0]);
            } else {
                assert(out@ =~= before + seq!['\n'] + v[k as int]);
            }
        }
        k = k + 1;
    }
    proof {
        assert(v.take(ls@.len() as int) =~= v);
    }
    out
}

/// Turns every tactic-proved `theorem` or `lemma` of a Lean text into an
/// axiom and drops the lines of its proof.
pub fn axiomize_embedded_theorem_blocks(stmt: &str) -> (out: String)
    ensures
        out@ == axiomized_blocks(stmt@),
{
    let cs = chars_of(stmt);
    let lines = text_lines(&cs);
    let ghost ls = lines@.map_values(|x: Vec<char>| x@);
    let mut out: Vec<Vec<char>> = Vec::new();
    let mut skipping = false;
    let mut i: usize = 0;
    proof {
        assert(out@.map_values(|x: Vec<char>| x@) =~= Seq::<Seq<char>>::empty());
    }
    while i < lines.len()
        invariant
            ls == lines@.map_values(|x: Vec<char>| x@),
            ls == lines_of(stmt@),
            i <= lines@.len(),
            out@.map_values(|x: Vec<char>| x@) + rewrite_lines(ls, i as int, skipping)
                == rewrite_lines(ls, 0, false),
        decreases lines@.len() - i,
    {
        let line = &lines[i];
        proof {
            assert(line@ == ls[i as int]);
        }
        let ghost before = out@.map_values(|x: Vec<char>| x@);
        if skipping && !block_stop_chars(line) {
            i = i + 1;
        } else {
            match axiom_line_chars(line) {
                Some(a) => {
                    let ghost av = a@;
                    out.push(a);
                    proof {
                        assert(out@.map_values(|x: Vec<char>| x@) =~= before.push(av));
                        assert(out@.map_values(|x: Vec<char>| x@) + rewrite_lines(ls, i + 1, true)
                            =~= before + rewrite_lines(ls, i as int, skipping));
                    }
                    skipping = true;
                },
                None => {
                    let l = slice(line, 0, line.len());
                    proof {
                        assert(l@ == ls[i as int]);
                    }
                    out.push(l);
                    proof {
                        assert(out@.map_values(|x: Vec<char>| x@) =~= before.push(ls[i as int]));
                        assert(out@.map_values(|x: Vec<char>| x@) + rewrite_lines(ls, i + 1, false)
                            =~= before + rewrite_lines(ls, i as int, skipping));
                    }
                    skipping = false;
                },
            }
            i = i + 1;
        }
    }
    proof {
        assert(out@.map_values(|x: Vec<char>| x@) + rewrite_lines(ls, i as int, skipping)
            =~= out@.map_values(|x: Vec<char>| x@));
    }
    let joined = join_lines_chars(&out);
    string_from_chars(&joined)
}

/// Turns a statement whose proof is an `admit` or `sorry` placeholder into
/// an axiom with the same head (see `axiomized`).
pub fn axiomize_theorem_with_placeholder(stmt: &str) -> (out: String)
    ensures
        out@ == axiomized(stmt@),
{
    if !contains_admit_or_sorry(stmt) {
        return string_from_chars(&chars_of(stmt));
    }
    proof {
        reveal_strlit("def ");
        reveal_strlit("theorem ");
        reveal_strlit("lemma ");
        reveal_strlit("axiom ");
        reveal_strlit(":=");
        assert("def "@.len() == 4);
        assert("theorem "@.len() == 8);
        assert("lemma "@.len() == 6);
        assert(":="@.len() == 2);
    }
    let cs = chars_of(stmt);
    let kw = chars_of("axiom ");
    let trimmed = trim_start_chars(&cs);
    if has_prefix_str(&trimmed, "def ") {
        let colon = chars_of(":=");
        if let Some(idx) = find_first(&cs, &colon) {
            proof {
                lemma_occ_from(cs@, colon@, 0);
            }
            let head = trim_start_chars(&slice(&cs, 0, idx));
            proof {
                assert(cs@.subrange(0, idx as int) == cs@.take(idx as int));
            }
            if has_prefix_str(&head, "def ") {
                let rest = trim_end_chars(&slice(&head, 4, head.len()));
                proof {
                    assert(head@.subrange(4, head@.len() as int) == head@.skip(4));
                }
                return string_from_chars(&concat(&kw, &rest));
            }
        }
    }
    let by = chars_of(":= by");
    let split_idx = match find_first(&cs, &by) {
        Some(k) => k,
        None => {
            return axiomize_embedded_theorem_blocks(stmt);
        },
    };
    proof {
        reveal_strlit(":= by");
        lemma_occ_from(cs@, by@, 0);
    }
    let head = trim_end_chars(&slice(&cs, 0, split_idx));
    proof {
        assert(cs@.subrange(0, split_idx as int) == cs@.take(split_idx as int));
    }
    if has_prefix_str(&head, "theorem ") {
        let rest = slice(&head, 8, head.len());
        proof {
            assert(head@.subrange(8, head@.len() as int) == head@.skip(8));
        }
        return string_from_chars(&concat(&kw, &rest));
    }
    if has_prefix_str(&head, "lemma ") {
        let rest = slice(&head, 6, head.len());
        proof {
            assert(head@.subrange(6, head@.len() as int) == head@.skip(6));
        }
        return string_from_chars(&concat(&kw, &rest));
    }
    axiomize_embedded_theorem_blocks(stmt)
}


/// The statements separated by blank lines.
pub open spec fn paragraphs(ss: Seq<Seq<char>>) -> Seq<char>
    decreases ss.len(),
{
    if ss.len() == 0 {
        Seq::empty()
    } else if ss.len() == 1 {
        ss[0]
    } else {
        paragraphs(ss.drop_last()) + "\n\n"@ + ss.last()
    }
}

/// The last of `lines[..k]` that opens, after leading white space, with
/// `end `.
pub open spec fn last_end_line(lines: Seq<Seq<char>>, k: int) -> Option<int>
    decreases k,
{
    if k <= 0 || k > lines.len() {
        None
    } else if starts_with(trim_start(lines[k - 1]), "end "@) {
        Some(k - 1)
    } else {
        last_end_line(lines, k - 1)
    }
}

/// The source elaborated for a review packet: the scaffold without its last
/// `end ...` line, a blank line, a comment line, the generated statements
/// separated by blank lines, and the `end ...` line put back after them.
pub open spec fn packet_check_source(scaffold: Seq<char>, statements: Seq<Seq<char>>) -> Seq<char> {
    let lines = lines_of(scaffold);
    let head = "\n\n-- Generated packet obligations for elaboration check.\n"@ + paragraphs(statements) + "\n"@;
    match last_end_line(lines, lines.len() as int) {
        Some(i) => join_lines(lines.remove(i)) + head + "\n"@ + lines[i] + "\n"@,
        None => join_lines(lines) + head,
    }
}

/// Whether the line opens, after leading white space, with `end `.
fn opens_with_end(line: &[char]) -> (b: bool)
    ensures
        b == starts_with(trim_start(line@), "end "@),
{
    let t = trim_start_chars(line);
    let p = chars_of("end ");
    if t.len() < p.len() {
        return false;
    }
    let mut i: usize = 0;
    while i < p.len()
        invariant
            i <= p@.len() <= t@.len(),
            p@ == "end "@,
            t@ == trim_start(line@),
            forall|j: int| 0 <= j < i ==> t@[j] == p@[j],
        decreases p@.len() - i,
    {
        if t[i] != p[i] {
            proof {
                assert(t@.take(p@.len() as int)[i as int] == t@[i as int]);
                assert(t@.take(p@.len() as int) != p@);
            }
            return false;
        }
        i = i + 1;
    }
    assert(t@.take(p@.len() as int) =~= p@);
    true
}

/// `a` with `b` appended.
fn append(a: &mut Vec<char>, b: &[char])
    ensures
        final(a)@ == old(a)@ + b@,
{
    let ghost start = a@;
    let mut i: usize = 0;
    while i < b.len()
        invariant
            i <= b@.len(),
            a@ == start + b@.take(i as int),
        decreases b@.len() - i,
    {
        a.push(b[i]);
        proof {
            assert(b@.take(i + 1) == b@.take(i as int).push(b@[i as int]));
        }
        i = i + 1;
    }
    proof {
        assert(b@.take(b@.len() as int) == b@);
    }
}

/// The lines without the one at `k - 1` (all of them when `k` is 0).
fn without_line(lines: &Vec<Vec<char>>, k: usize) -> (kept: Vec<Vec<char>>)
    requires
        k <= lines@.len(),
    ensures
        kept@.map_values(|x: Vec<char>| x@) == (if k > 0 {
            lines@.map_values(|x: Vec<char>| x@).remove(k - 1)
        } else {
            lines@.map_values(|x: Vec<char>| x@)
        }),
{
    let ghost lv = lines@.map_values(|x: Vec<char>| x@);
    let mut kept: Vec<Vec<char>> = Vec::new();
    let mut j: usize = 0;
    while j < lines.len()
        invariant
            j <= lines@.len(),
            k <= lines@.len(),
            lv == lines@.map_values(|x: Vec<char>| x@),
            kept@.map_values(|x: Vec<char>| x@) == (if k > 0 && j >= k {
                lv.take(j as int).remove(k - 1)
            } else {
                lv.take(j as int)
            }),
        decreases lines@.len() - j,
    {
        if !(k > 0 && j == k - 1) {
            let ghost before = kept@.map_values(|x: Vec<char>| x@);
            kept.push(slice(lines[j].as_slice(), 0, lines[j].len()));
            proof {
                assert(lines@[j as int]@.subrange(0, lines@[j as int]@.len() as int) =~= lines@[j as int]@);
                assert(kept@.map_values(|x: Vec<char>| x@) =~= before.push(lv[j as int]));
                if k > 0 && j >= k {
                    assert(lv.take(j + 1).remove(k - 1) =~= lv.take(j as int).remove(k - 1).push(lv[j as int]));
                } else {
                    assert(lv.take(j + 1) =~= lv.take(j as int).push(lv[j as int]));
                }
            }
        } else {
            proof {
                assert(lv.take(j + 1).remove(k - 1) =~= lv.take(j as int));
            }
        }
        j = j + 1;
    }
    proof {
        assert(lv.take(lv.len() as int) =~= lv);
    }
    kept
}

/// `out` with the statements appended, separated by blank lines.
fn append_paragraphs(out: &mut Vec<char>, statements: &Vec<String>)
    ensures
        final(out)@ == old(out)@ + paragraphs(statements@.map_values(|s: String| s@)),
{
    let ghost sv = statements@.map_values(|s: String| s@);
    let ghost start = out@;
    let mut t: usize = 0;
    while t < statements.len()
        invariant
            t <= statements@.len(),
            sv == statements@.map_values(|s: String| s@),
            out@ == start + paragraphs(sv.take(t as int)),
        decreases statements@.len() - t,
    {
        if t > 0 {
            append(out, chars_of("\n\n").as_slice());
        }
        append(out, chars_of(statements[t].as_str()).as_slice());
        proof {
            assert(sv[t as int] == statements@[t as int]@);
            assert(sv.take(t + 1).drop_last() =~= sv.take(t as int));
            if t == 0 {
                assert(paragraphs(sv.take(1)) == sv[0]);
            }
            assert(out@ =~= start + paragraphs(sv.take(t + 1)));
        }
        t = t + 1;
    }
    proof {
        assert(sv.take(sv.len() as int) =~= sv);
    }
}

/// Builds the Lean source that elaborates a packet's generated statements
/// inside its scaffold (see `packet_check_source`).
pub fn build_packet_check_source(scaffold_src: &str, statements: &Vec<String>) -> (out: String)
    ensures
        out@ == packet_check_source(scaffold_src@, statements@.map_values(|s: String| s@)),
{
    let ghost sv = statements@.map_values(|s: String| s@);
    let lines = text_lines(chars_of(scaffold_src).as_slice());
    let ghost lv = lines@.map_values(|x: Vec<char>| x@);
    let mut k = lines.len();
    while k > 0 && !opens_with_end(lines[k - 1].as_slice())
        invariant
            k <= lines@.len(),
            lv == lines@.map_values(|x: Vec<char>| x@),
            last_end_line(lv, lines@.len() as int) == last_end_line(lv, k as int),
        decreases k,
    {
        proof {
            assert(lv[k - 1] == lines@[k - 1]@);
        }
        k = k - 1;
    }
    proof {
        if k > 0 {
            assert(lv[k - 1] == lines@[k - 1]@);
        }
    }
    let kept = without_line(&lines, k);
    let mut out = join_lines_chars(&kept);
    let ghost body = out@;
    append(&mut out, chars_of("\n\n-- Generated packet obligations for elaboration check.\n").as_slice());
    append_paragraphs(&mut out, statements);
    out.push('\n');
    let ghost head = "\n\n-- Generated packet obligations for elaboration check.\n"@ + paragraphs(sv) + "\n"@;
    proof {
        reveal_strlit("\n");
        assert(out@ =~= body + head);
    }
    if k > 0 {
        out.push('\n');
        append(&mut out, lines[k - 1].as_slice());
        out.push('\n');
        proof {
            assert(out@ =~= body + head + "\n"@ + lv[k - 1] + "\n"@);
        }
    }
    string_from_chars(&out)
}

} // verus!
