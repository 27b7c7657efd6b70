use vstd::prelude::*;
use crate::text::{chars_of, string_from_chars};

use crate::prompts::{sorted_unique, string_views, insert_sorted_unique, lemma_insert_to_set};

verus! {

/// `c` is white space in the Unicode sense (`char::is_whitespace`).
pub open spec fn is_ws(c: char) -> bool {
    ||| c == ' ' || c == '\t' || c == '\n' || c == '\r'
    ||| c == '\u{0B}' || c == '\u{0C}'
    ||| c == '\u{85}' || c == '\u{A0}' || c == '\u{1680}'
    ||| ('\u{2000}' <= c && c <= '\u{200A}')
    ||| c == '\u{2028}' || c == '\u{2029}' || c == '\u{202F}' || c == '\u{205F}' || c == '\u{3000}'
}

/// Checks `is_ws(c)`.
pub fn ws_char(c: char) -> (b: bool)
    ensures
        b == is_ws(c),
{
    c == ' ' || c == '\t' || c == '\n' || c == '\r' || c == '\u{0B}' || c == '\u{0C}'
        || c == '\u{85}' || c == '\u{A0}' || c == '\u{1680}'
        || ('\u{2000}' <= c && c <= '\u{200A}')
        || c == '\u{2028}' || c == '\u{2029}' || c == '\u{202F}' || c == '\u{205F}' || c == '\u{3000}'
}

/// Position of the first character of `s` at or after `i` that is not white
/// space (`s.len()` when there is none).
pub open spec fn skip_ws(s: Seq<char>, i: int) -> int
    decreases s.len() - i,
{
    if i < 0 || i >= s.len() {
        if i < 0 { 0 } else { i }
    } else if is_ws(s[i]) {
        skip_ws(s, i + 1)
    } else {
        i
    }
}

/// Position of the first white-space character of `s` at or after `i`
/// (`s.len()` when there is none).
pub open spec fn next_ws(s: Seq<char>, i: int) -> int
    decreases s.len() - i,
{
    if i < 0 || i >= s.len() {
        if i < 0 { 0 } else { i }
    } else if is_ws(s[i]) {
        i
    } else {
        next_ws(s, i + 1)
    }
}

/// Position of the first `:` or `(` of `s` (`s.len()` when there is none).
pub open spec fn name_end(s: Seq<char>, i: int) -> int
    decreases s.len() - i,
{
    if i < 0 || i >= s.len() {
        if i < 0 { 0 } else { i }
    } else if s[i] == ':' || s[i] == '(' {
        i
    } else {
        name_end(s, i + 1)
    }
}

/// Position of the end of the line starting at `i`: the next `\n`, or the end.
pub open spec fn line_end(s: Seq<char>, i: int) -> int
    decreases s.len() - i,
{
    if i < 0 || i >= s.len() {
        if i < 0 { 0 } else { i }
    } else if s[i] == '\n' {
        i
    } else {
        line_end(s, i + 1)
    }
}

/// The name declared by a line `opaque NAME ...` or `axiom NAME ...`
/// (leading white space allowed): the first word after the keyword, cut at the
/// first `:` or `(`; `None` for other lines or an empty name.
pub open spec fn declared_symbol(line: Seq<char>) -> Option<Seq<char>> {
    let t = line.skip(skip_ws(line, 0));
    let rest = if t.len() >= 7 && t.take(7) == "opaque "@ {
        Some(t.skip(7))
    } else if t.len() >= 6 && t.take(6) == "axiom "@ {
        Some(t.skip(6))
    } else {
        None
    };
    match rest {
        None => None,
        Some(r) => {
            let w = r.skip(skip_ws(r, 0));
            let token = w.take(next_ws(w, 0));
            let name = token.take(name_end(token, 0));
            if name.len() > 0 { Some(name) } else { None }
        },
    }
}

/// Names declared by the lines of `s` from position `i` on, in order.
pub open spec fn declared_symbols_from(s: Seq<char>, i: int) -> Seq<Seq<char>>
    decreases s.len() - i + 1,
{
    if i < 0 || i > s.len() {
        Seq::empty()
    } else {
        let e = line_end(s, i);
        let here = match declared_symbol(s.subrange(i, e)) {
            Some(n) => seq![n],
            None => Seq::empty(),
        };
        if e + 1 > i && e <= s.len() {
            here + declared_symbols_from(s, e + 1)
        } else {
            here
        }
    }
}

/// Bounds of `skip_ws`.
pub(crate) proof fn lemma_skip_ws(s: Seq<char>, i: int)
    requires
        0 <= i <= s.len(),
    ensures
        i <= skip_ws(s, i) <= s.len(),
        forall|k: int| i <= k < skip_ws(s, i) ==> is_ws(#[trigger] s[k]),
        skip_ws(s, i) < s.len() ==> !is_ws(s[skip_ws(s, i)]),
    decreases s.len() - i,
{
    if i < s.len() && is_ws(s[i]) {
        lemma_skip_ws(s, i + 1);
    }
}

/// Bounds of `line_end`.
proof fn lemma_line_end(s: Seq<char>, i: int)
    requires
        0 <= i <= s.len(),
    ensures
        i <= line_end(s, i) <= s.len(),
    decreases s.len() - i,
{
    if i < s.len() && s[i] != '\n' {
        lemma_line_end(s, i + 1);
    }
}

/// Finds `skip_ws(s, i)`.
pub(crate) fn find_skip_ws(s: &[char], i: usize) -> (r: usize)
    requires
        i <= s@.len(),
    ensures
        r == skip_ws(s@, i as int),
{
    let mut j = i;
    while j < s.len() && ws_char(s[j])
        invariant
            i <= j <= s@.len(),
            skip_ws(s@, i as int) == skip_ws(s@, j as int),
        decreases s@.len() - j,
    {
        j = j + 1;
    }
    j
}

/// Finds `next_ws(s, i)`.
pub(crate) fn find_next_ws(s: &[char], i: usize) -> (r: usize)
    requires
        i <= s@.len(),
    ensures
        r == next_ws(s@, i as int),
{
    let mut j = i;
    while j < s.len() && !ws_char(s[j])
        invariant
            i <= j <= s@.len(),
            next_ws(s@, i as int) == next_ws(s@, j as int),
        decreases s@.len() - j,
    {
        j = j + 1;
    }
    j
}

/// Finds `name_end(s, i)`.
fn find_name_end(s: &[char], i: usize) -> (r: usize)
    requires
        i <= s@.len(),
    ensures
        r == name_end(s@, i as int),
{
    let mut j = i;
    while j < s.len() && s[j] != ':' && s[j] != '('
        invariant
            i <= j <= s@.len(),
            name_end(s@, i as int) == name_end(s@, j as int),
        decreases s@.len() - j,
    {
        j = j + 1;
    }
    j
}

/// Finds `line_end(s, i)`.
fn find_line_end(s: &[char], i: usize) -> (r: usize)
    requires
        i <= s@.len(),
    ensures
        r == line_end(s@, i as int),
{
    let mut j = i;
    while j < s.len() && s[j] != '\n'
        invariant
            i <= j <= s@.len(),
            line_end(s@, i as int) == line_end(s@, j as int),
        decreases s@.len() - j,
    {
        j = j + 1;
    }
    j
}

/// The characters `s[from..to]`.
fn slice_chars(s: &[char], from: usize, to: usize) -> (out: Vec<char>)
    requires
        from <= to <= s@.len(),
    ensures
        out@ == s@.subrange(from as int, to as int),
{
    let mut out: Vec<char> = Vec::new();
    let mut i = from;
    while i < to
        invariant
            from <= i <= to <= s@.len(),
            out@ == s@.subrange(from as int, i as int),
        decreases to - i,
    {
        out.push(s[i]);
        proof {
            assert(s@.subrange(from as int, i + 1) == s@.subrange(from as int, i as int).push(s@[i as int]));
        }
        i = i + 1;
    }
    out
}

/// `s[from..]` starts with `p`.
fn starts_at(s: &[char], from: usize, p: &str) -> (b: bool)
    requires
        from <= s@.len(),
    ensures
        b == (s@.len() - from >= p@.len() && s@.skip(from as int).take(p@.len() as int) == p@),
{
    let pc = chars_of(p);
    let n = s.len();
    if n - from < pc.len() {
        return false;
    }
    let mut k: usize = 0;
    while k < pc.len()
        invariant
            n == s@.len(),
            pc@ == p@,
            from + pc@.len() <= s@.len(),
            0 <= k <= pc@.len(),
            forall|t: int| 0 <= t < k ==> s@[from + t] == pc@[t],
        decreases pc@.len() - k,
    {
        if s[from + k] != pc[k] {
            proof {
                assert(s@.skip(from as int).take(p@.len() as int)[k as int] == s@[from + k]);
            }
            return false;
        }
        k = k + 1;
    }
    proof {
        assert(s@.skip(from as int).take(p@.len() as int) =~= p@);
    }
    true
}

/// The name declared by `s[from..to]` when it is an `opaque` or `axiom` line.
fn line_symbol(s: &[char], from: usize, to: usize) -> (r: Option<Vec<char>>)
    requires
        from <= to <= s@.len(),
    ensures
        match r {
            Some(v) => declared_symbol(s@.subrange(from as int, to as int)) == Some(v@),
            None => declared_symbol(s@.subrange(from as int, to as int)) is None,
        },
{
    let line = slice_chars(s, from, to);
    let a = find_skip_ws(&line, 0);
    proof {
        lemma_skip_ws(line@, 0);
    }
    let t = slice_chars(&line, a, line.len());
    assert(t@ == line@.skip(a as int));
    let rest_start: usize;
    if starts_at(&t, 0, "opaque ") {
        proof {
            reveal_strlit("opaque ");
            assert(t@.skip(0) == t@);
        }
        rest_start = 7;
    } else if starts_at(&t, 0, "axiom ") {
        proof {
            reveal_strlit("axiom ");
            reveal_strlit("opaque ");
            assert(t@.skip(0) == t@);
        }
        rest_start = 6;
    } else {
        proof {
            reveal_strlit("axiom ");
            reveal_strlit("opaque ");
            assert(t@.skip(0) == t@);
        }
        return None;
    }
    let rest = slice_chars(&t, rest_start, t.len());
    assert(rest@ == t@.skip(rest_start as int));
    let b = find_skip_ws(&rest, 0);
    proof {
        lemma_skip_ws(rest@, 0);
    }
    let w = slice_chars(&rest, b, rest.len());
    assert(w@ == rest@.skip(b as int));
    let c = find_next_ws(&w, 0);
    proof {
        lemma_next_ws(w@, 0);
    }
    let token = slice_chars(&w, 0, c);
    assert(token@ == w@.take(c as int));
    let d = find_name_end(&token, 0);
    proof {
        lemma_name_end(token@, 0);
    }
    let name = slice_chars(&token, 0, d);
    assert(name@ == token@.take(d as int));
    if name.len() > 0 {
        Some(name)
    } else {
        None
    }
}

/// Bounds of `next_ws`.
pub(crate) proof fn lemma_next_ws(s: Seq<char>, i: int)
    requires
        0 <= i <= s.len(),
    ensures
        i <= next_ws(s, i) <= s.len(),
    decreases s.len() - i,
{
    if i < s.len() && !is_ws(s[i]) {
        lemma_next_ws(s, i + 1);
    }
}

/// Bounds of `name_end`.
proof fn lemma_name_end(s: Seq<char>, i: int)
    requires
        0 <= i <= s.len(),
    ensures
        i <= name_end(s, i) <= s.len(),
    decreases s.len() - i,
{
    if i < s.len() && s[i] != ':' && s[i] != '(' {
        lemma_name_end(s, i + 1);
    }
}

/// Names declared by `opaque` / `axiom` lines of `src`, in order.
pub fn declared_symbols(src: &str) -> (out: Vec<String>)
    ensures
        string_views(out@) == declared_symbols_from(src@, 0),
{
    let s = chars_of(src);
    let ghost c = s@;
    let mut out: Vec<String> = Vec::new();
    let mut i: usize = 0;
    let n = s.len();
    proof {
        assert(string_views(out@) =~= Seq::<Seq<char>>::empty());
    }
    while i <= n
        invariant
            c == s@,
            c == src@,
            n == c.len(),
            0 <= i <= n + 1,
            string_views(out@) + declared_symbols_from(c, i as int) == declared_symbols_from(c, 0),
        decreases n + 1 - i,
    {
        let e = find_line_end(&s, i);
        proof {
            lemma_line_end(c, i as int);
        }
        let ghost before = string_views(out@);
        let sym = line_symbol(&s, i, e);
        match sym {
            Some(v) => {
                let name = string_from_chars(&v);
                out.push(name);
                proof {
                    assert(string_views(out@) =~= before.push(v@));
                    assert(declared_symbols_from(c, i as int) == seq![v@] + declared_symbols_from(c, e + 1));
                    assert(string_views(out@) + declared_symbols_from(c, e + 1)
                        =~= before + declared_symbols_from(c, i as int));
                }
            },
            None => {
                proof {
                    assert(declared_symbols_from(c, i as int) =~= declared_symbols_from(c, e + 1));
                }
            },
        }
        if e == n {
            proof {
                assert(declared_symbols_from(c, e + 1) =~= Seq::<Seq<char>>::empty());
                assert(string_views(out@) + declared_symbols_from(c, e + 1) =~= string_views(out@));
            }
            return out;
        }
        i = e + 1;
    }
    proof {
        assert(declared_symbols_from(c, i as int) =~= Seq::<Seq<char>>::empty());
        assert(string_views(out@) + declared_symbols_from(c, i as int) =~= string_views(out@));
    }
    out
}

/// Trusted symbols of a scaffold: the names it declares with `opaque` or
/// `axiom`, together with those already collected from the benchmark modules
/// it imports, sorted and without repeats.
pub fn extract_trusted_symbols(imported: &[String], scaffold_src: &str) -> (out: Vec<String>)
    ensures
        sorted_unique(string_views(out@)),
        string_views(out@).to_set()
            == string_views(imported@).to_set() + declared_symbols_from(scaffold_src@, 0).to_set(),
{
    let declared = declared_symbols(scaffold_src);
    let mut out: Vec<String> = Vec::new();
    proof {
        assert(string_views(out@) =~= Seq::<Seq<char>>::empty());
        assert(string_views(out@).to_set() =~= Set::<Seq<char>>::empty());
    }
    let mut i: usize = 0;
    while i < imported.len()
        invariant
            0 <= i <= imported@.len(),
            sorted_unique(string_views(out@)),
            string_views(out@).to_set() == string_views(imported@.take(i as int)).to_set(),
        decreases imported@.len() - i,
    {
        let ghost before = string_views(imported@.take(i as int));
        insert_sorted_unique(&mut out, imported[i].clone());
        proof {
            assert(string_views(imported@.take(i + 1)) =~= before.push(imported@[i as int]@));
            lemma_push_to_set(before, imported@[i as int]@);
        }
        i = i + 1;
    }
    proof {
        assert(imported@.take(imported@.len() as int) == imported@);
    }
    let mut j: usize = 0;
    while j < declared.len()
        invariant
            0 <= j <= declared@.len(),
            string_views(declared@) == declared_symbols_from(scaffold_src@, 0),
            sorted_unique(string_views(out@)),
            string_views(out@).to_set()
                == string_views(imported@).to_set() + string_views(declared@.take(j as int)).to_set(),
        decreases declared@.len() - j,
    {
        let ghost before = string_views(declared@.take(j as int));
        insert_sorted_unique(&mut out, declared[j].clone());
        proof {
            assert(string_views(declared@.take(j + 1)) =~= before.push(declared@[j as int]@));
            lemma_push_to_set(before, declared@[j as int]@);
            assert(string_views(out@).to_set()
                =~= string_views(imported@).to_set() + string_views(declared@.take(j + 1)).to_set());
        }
        j = j + 1;
    }
    proof {
        assert(declared@.take(declared@.len() as int) == declared@);
    }
    out
}

/// Pushing an entry adds it to the set of entries.
pub(crate) proof fn lemma_push_to_set(s: Seq<Seq<char>>, x: Seq<char>)
    ensures
        s.push(x).to_set() == s.to_set().insert(x),
{
    lemma_insert_to_set(s, s.len() as int, x);
    assert(s.push(x) =~= s.insert(s.len() as int, x));
}

} // verus!
