use vstd::prelude::*;

verus! {

/// Lexer state `(depth, inside a string, after a backslash in a string)` once
/// the bytes `b[start..i]` have been read: quotes open and close strings,
/// a backslash escapes the next byte of a string, and outside strings `open`
/// and `close` move the depth up and down.
pub open spec fn scan_state(b: Seq<u8>, start: int, i: int, open: u8, close: u8) -> (int, bool, bool)
    decreases i - start,
{
    if i <= start {
        (0, false, false)
    } else {
        let (d, s, e) = scan_state(b, start, i - 1, open, close);
        let c = b[i - 1];
        if s {
            if e {
                (d, true, false)
            } else if c == 92u8 {
                (d, true, true)
            } else if c == 34u8 {
                (d, false, false)
            } else {
                (d, true, false)
            }
        } else if c == 34u8 {
            (d, true, false)
        } else if c == open {
            (d + 1, false, false)
        } else if c == close {
            (d - 1, false, false)
        } else {
            (d, false, false)
        }
    }
}

/// Position of the first `close` byte at or after `i` (outside strings) that
/// brings the depth back to zero.
pub open spec fn balanced_end_from(b: Seq<u8>, start: int, i: int, open: u8, close: u8) -> Option<int>
    decreases b.len() - i,
{
    if i < start || i >= b.len() {
        None
    } else {
        let (d, s, e) = scan_state(b, start, i, open, close);
        if !s && b[i] != 34u8 && b[i] != open && b[i] == close && d - 1 == 0 {
            Some(i)
        } else {
            balanced_end_from(b, start, i + 1, open, close)
        }
    }
}

/// The depth moves by at most one per byte.
proof fn lemma_depth_bound(b: Seq<u8>, start: int, i: int, open: u8, close: u8)
    requires
        start <= i,
    ensures
        -(i - start) <= scan_state(b, start, i, open, close).0 <= i - start,
    decreases i - start,
{
    if i > start {
        lemma_depth_bound(b, start, i - 1, open, close);
    }
}

/// Finds the byte that closes the bracket opened at `start`, skipping over
/// JSON strings and their escapes.
pub fn scan_balanced(bytes: &[u8], start: usize, open: u8, close: u8) -> (r: Option<usize>)
    ensures
        match r {
            Some(i) => balanced_end_from(bytes@, start as int, start as int, open, close) == Some(i as int),
            None => balanced_end_from(bytes@, start as int, start as int, open, close) is None,
        },
{
    let mut depth: i128 = 0;
    let mut i = start;
    let mut in_string = false;
    let mut escape = false;
    while i < bytes.len()
        invariant
            start <= i,
            (depth as int, in_string, escape) == scan_state(bytes@, start as int, i as int, open, close),
            balanced_end_from(bytes@, start as int, start as int, open, close)
                == balanced_end_from(bytes@, start as int, i as int, open, close),
        decreases bytes@.len() - i,
    {
        proof {
            lemma_depth_bound(bytes@, start as int, i as int, open, close);
        }
        let b = bytes[i];
        if in_string {
            if escape {
                escape = false;
            } else if b == 92u8 {
                escape = true;
            } else if b == 34u8 {
                in_string = false;
            }
        } else if b == 34u8 {
            in_string = true;
        } else if b == open {
            depth = depth + 1;
        } else if b == close {
            depth = depth - 1;
            if depth == 0 {
                return Some(i);
            }
        }
        i = i + 1;
    }
    None
}

/// The closing byte that matches an opening `{` or `[`.
pub open spec fn closer(open: u8) -> u8 {
    if open == 123u8 { 125u8 } else { 93u8 }
}

/// Balanced `{...}` and `[...]` regions that open at or after `i`, as
/// `(first, last)` byte positions, in order of their opening byte.
pub open spec fn bracket_spans(b: Seq<u8>, i: int) -> Seq<(usize, usize)>
    decreases b.len() - i,
{
    if i < 0 || i >= b.len() {
        Seq::empty()
    } else if b[i] == 123u8 || b[i] == 91u8 {
        match balanced_end_from(b, i, i, b[i], closer(b[i])) {
            Some(e) => seq![(i as usize, e as usize)] + bracket_spans(b, i + 1),
            None => bracket_spans(b, i + 1),
        }
    } else {
        bracket_spans(b, i + 1)
    }
}

/// Number of bytes a span covers.
pub open spec fn span_len(c: (usize, usize)) -> int {
    c.1 - c.0 + 1
}

/// Inserts `x` behind the last span, counted from the back, that is at least
/// as long.
pub open spec fn insert_longest_first(s: Seq<(usize, usize)>, x: (usize, usize)) -> Seq<(usize, usize)>
    decreases s.len(),
{
    if s.len() == 0 {
        seq![x]
    } else if span_len(s.last()) >= span_len(x) {
        s.push(x)
    } else {
        insert_longest_first(s.drop_last(), x).push(s.last())
    }
}

/// Spans ordered longest first, spans of equal length in their given order.
pub open spec fn longest_first(s: Seq<(usize, usize)>) -> Seq<(usize, usize)>
    decreases s.len(),
{
    if s.len() == 0 {
        s
    } else {
        insert_longest_first(longest_first(s.drop_last()), s.last())
    }
}

/// Where the spans from `p` on are shorter than `x` and the one before is
/// not, `x` goes in at `p`.
proof fn lemma_insert_span_at(s: Seq<(usize, usize)>, x: (usize, usize), p: int)
    requires
        0 <= p <= s.len(),
        forall|q: int| p <= q < s.len() ==> span_len(#[trigger] s[q]) < span_len(x),
        p == 0 || span_len(s[p - 1]) >= span_len(x),
    ensures
        insert_longest_first(s, x) == s.take(p).push(x) + s.skip(p),
    decreases s.len(),
{
    if s.len() == p {
        assert(s.skip(p) =~= Seq::<(usize, usize)>::empty());
        assert(s.take(p) =~= s);
        if p == 0 {
            assert(s.take(p).push(x) + s.skip(p) =~= seq![x]);
        } else {
            assert(s.take(p).push(x) + s.skip(p) =~= s.push(x));
        }
    } else {
        lemma_insert_span_at(s.drop_last(), x, p);
        assert(s.drop_last().take(p) =~= s.take(p));
        assert((s.take(p).push(x) + s.drop_last().skip(p)).push(s.last()) =~= s.take(p).push(x) + s.skip(p));
    }
}

/// Sorts spans longest first, keeping the order of spans of equal length.
fn sort_longest_first(s: &Vec<(usize, usize)>, Ghost(n): Ghost<int>) -> (out: Vec<(usize, usize)>)
    requires
        forall|q: int| 0 <= q < s@.len() ==> (#[trigger] s@[q]).0 <= s@[q].1 < n,
    ensures
        out@ == longest_first(s@),
        forall|q: int| 0 <= q < out@.len() ==> (#[trigger] out@[q]).0 <= out@[q].1 < n,
{
    let mut out: Vec<(usize, usize)> = Vec::new();
    let mut i: usize = 0;
    assert(s@.take(0) =~= Seq::<(usize, usize)>::empty());
    while i < s.len()
        invariant
            i <= s@.len(),
            forall|q: int| 0 <= q < s@.len() ==> (#[trigger] s@[q]).0 <= s@[q].1 < n,
            forall|q: int| 0 <= q < out@.len() ==> (#[trigger] out@[q]).0 <= out@[q].1 < n,
            out@ == longest_first(s@.take(i as int)),
        decreases s@.len() - i,
    {
        let x = s[i];
        let ghost before = out@;
        let len = out.len();
        out.push(x);
        let mut j: usize = len;
        while j > 0 && out[j - 1].1 - out[j - 1].0 < x.1 - x.0
            invariant
                before.len() == len,
                out@.len() == len + 1,
                j <= len,
                x.0 <= x.1 < n,
                forall|q: int| 0 <= q < before.len() ==> (#[trigger] before[q]).0 <= before[q].1 < n,
                forall|q: int| 0 <= q < j ==> #[trigger] out@[q] == before[q],
                forall|q: int| j < q <= len ==> #[trigger] out@[q] == before[q - 1],
                forall|q: int| j <= q < len ==> span_len(#[trigger] before[q]) < span_len(x),
            decreases j,
        {
            let y = out[j - 1];
            out.set(j, y);
            j = j - 1;
        }
        out.set(j, x);
        proof {
            lemma_insert_span_at(before, x, j as int);
            assert(out@ =~= before.take(j as int).push(x) + before.skip(j as int));
            assert(s@.take(i + 1).drop_last() =~= s@.take(i as int));
            assert forall|q: int| 0 <= q < out@.len() implies (#[trigger] out@[q]).0 <= out@[q].1 < n by {
                if q < j {
                    assert(out@[q] == before[q]);
                } else if q > j {
                    assert(out@[q] == before[q - 1]);
                }
            }
        }
        i = i + 1;
    }
    assert(s@.take(s@.len() as int) =~= s@);
    out
}

/// Bounds of `balanced_end_from`.
proof fn lemma_balanced_end(b: Seq<u8>, start: int, i: int, open: u8, close: u8)
    requires
        0 <= start <= i,
    ensures
        balanced_end_from(b, start, i, open, close) matches Some(e) ==> i <= e < b.len(),
    decreases b.len() - i,
{
    if i < b.len() {
        lemma_balanced_end(b, start, i + 1, open, close);
    }
}

/// Every balanced `{...}` or `[...]` region of `raw` (brackets inside JSON
/// strings do not count), as `(first, last)` byte positions, longest first;
/// regions of equal length in order of their opening byte.
pub fn scrape_candidates(raw: &[u8]) -> (out: Vec<(usize, usize)>)
    ensures
        out@ == longest_first(bracket_spans(raw@, 0)),
        forall|q: int| 0 <= q < out@.len() ==> (#[trigger] out@[q]).0 <= out@[q].1 < raw@.len(),
{
    let mut found: Vec<(usize, usize)> = Vec::new();
    let mut cursor: usize = 0;
    while cursor < raw.len()
        invariant
            cursor <= raw@.len(),
            found@ + bracket_spans(raw@, cursor as int) == bracket_spans(raw@, 0),
            forall|q: int| 0 <= q < found@.len() ==> (#[trigger] found@[q]).0 <= found@[q].1 < raw@.len(),
        decreases raw@.len() - cursor,
    {
        let b = raw[cursor];
        let ghost before = found@;
        if b == 123u8 || b == 91u8 {
            let close: u8 = if b == 123u8 { 125u8 } else { 93u8 };
            match scan_balanced(raw, cursor, b, close) {
                Some(end) => {
                    proof {
                        lemma_balanced_end(raw@, cursor as int, cursor as int, b, close);
                    }
                    found.push((cursor, end));
                    proof {
                        assert(found@ + bracket_spans(raw@, cursor + 1) =~= before + bracket_spans(raw@, cursor as int));
                    }
                },
                None => {},
            }
        }
        cursor = cursor + 1;
    }
    proof {
        assert(found@ + bracket_spans(raw@, cursor as int) =~= found@);
    }
    sort_longest_first(&found, Ghost(raw@.len() as int))
}

} // verus!
