use vstd::prelude::*;
use crate::text::{chars_of, string_from_chars, string_push, str_eq};
use crate::lean::{ascii_lower_seq, contains_sub, has_sub};
use crate::lean_text::{is_ws, skip_ws, next_ws, find_skip_ws, find_next_ws, lemma_skip_ws, lemma_next_ws};
use crate::cli_rules::{trim, trim_chars, split_from, split_chars};

verus! {

/// Words of `s[i..]`: maximal runs of non-white-space characters, in order.
pub open spec fn words_from(s: Seq<char>, i: int) -> Seq<Seq<char>>
    decreases s.len() - i,
{
    let a = skip_ws(s, i);
    if i < 0 || a >= s.len() || a < i {
        Seq::empty()
    } else {
        let b = next_ws(s, a);
        if b <= a || b > s.len() {
            Seq::empty()
        } else {
            seq![s.subrange(a, b)] + words_from(s, b)
        }
    }
}

/// The pieces joined by single spaces.
pub open spec fn join_spaces(ws: Seq<Seq<char>>) -> Seq<char>
    decreases ws.len(),
{
    if ws.len() == 0 {
        Seq::empty()
    } else if ws.len() == 1 {
        ws[0]
    } else {
        join_spaces(ws.drop_last()) + seq![' '] + ws.last()
    }
}

/// `s` with its white space collapsed: its words joined by single spaces.
pub open spec fn normalized(s: Seq<char>) -> Seq<char> {
    join_spaces(words_from(s, 0))
}

/// Collapses white space: the words of `s` joined by single spaces.
pub fn normalize_text(s: &str) -> (out: String)
    ensures
        out@ == normalized(s@),
{
    let cs = chars_of(s);
    normalize_chars(&cs)
}

/// Collapses white space in a character sequence.
fn normalize_chars(cs: &[char]) -> (out: String)
    ensures
        out@ == normalized(cs@),
{
    let n = cs.len();
    let mut out = String::new();
    let ghost mut done: Seq<Seq<char>> = Seq::empty();
    let mut any_word = false;
    let mut i: usize = 0;
    loop
        invariant
            any_word == (done.len() > 0),
            n == cs@.len(),
            0 <= i <= n,
            out@ == join_spaces(done),
            done + words_from(cs@, i as int) == words_from(cs@, 0),
        decreases n - i,
    {
        let a = find_skip_ws(cs, i);
        proof {
            lemma_skip_ws(cs@, i as int);
        }
        if a >= n {
            proof {
                assert(words_from(cs@, i as int) =~= Seq::<Seq<char>>::empty());
                assert(done =~= words_from(cs@, 0));
            }
            return out;
        }
        let b = find_next_ws(cs, a);
        proof {
            lemma_next_ws(cs@, a as int);
            assert(!is_ws(cs@[a as int]));
            assert(next_ws(cs@, a as int) == next_ws(cs@, a + 1));
            lemma_next_ws(cs@, a + 1);
        }
        let ghost w = cs@.subrange(a as int, b as int);
        if any_word {
            string_push(&mut out, ' ');
        }
        let mut k = a;
        let ghost base = out@;
        while k < b
            invariant
                a <= k <= b <= n,
                n == cs@.len(),
                out@ == base + cs@.subrange(a as int, k as int),
            decreases b - k,
        {
            string_push(&mut out, cs[k]);
            proof {
                assert(cs@.subrange(a as int, k + 1) == cs@.subrange(a as int, k as int).push(cs@[k as int]));
            }
            k = k + 1;
        }
        proof {
            let nd = done.push(w);
            if done.len() > 0 {
                assert(nd.drop_last() == done);
                assert(out@ =~= join_spaces(nd));
            } else {
                assert(out@ =~= join_spaces(nd));
            }
            assert(words_from(cs@, i as int) == seq![w] + words_from(cs@, b as int));
            assert(nd + words_from(cs@, b as int) =~= done + words_from(cs@, i as int));
            done = nd;
        }
        any_word = true;
        i = b;
    }
}

/// Whether `stmt`, lowercased, holds ` admit`, `\nadmit`, ` sorry` or `\nsorry`.
pub open spec fn has_placeholder_proof(stmt: Seq<char>) -> bool {
    let lc = ascii_lower_seq(stmt);
    contains_sub(lc, " admit"@) || contains_sub(lc, "\nadmit"@)
        || contains_sub(lc, " sorry"@) || contains_sub(lc, "\nsorry"@)
}

/// Whether a statement's proof is an `admit` or `sorry` placeholder.
pub fn contains_admit_or_sorry(stmt: &str) -> (b: bool)
    ensures
        b == has_placeholder_proof(stmt@),
{
    let cs = chars_of(stmt);
    let lc = lower(&cs);
    contains(&lc, " admit") || contains(&lc, "\nadmit") || contains(&lc, " sorry") || contains(&lc, "\nsorry")
}

/// ASCII-lowercases characters.
fn lower(cs: &[char]) -> (out: Vec<char>)
    ensures
        out@ == ascii_lower_seq(cs@),
{
    let mut out: Vec<char> = Vec::new();
    let mut i: usize = 0;
    while i < cs.len()
        invariant
            0 <= i <= cs@.len(),
            out@ == ascii_lower_seq(cs@.take(i as int)),
        decreases cs@.len() - i,
    {
        let c = cs[i];
        let l = if 'A' <= c && c <= 'Z' { (((c as u32) + 32) as u8) as char } else { c };
        out.push(l);
        proof {
            assert(ascii_lower_seq(cs@.take(i + 1)) =~= ascii_lower_seq(cs@.take(i as int)).push(crate::lean::ascii_lower(c)));
        }
        i = i + 1;
    }
    proof {
        assert(cs@.take(cs@.len() as int) == cs@);
    }
    out
}

/// Whether `needle` occurs in `hay`.
pub(crate) fn contains(hay: &[char], needle: &str) -> (b: bool)
    ensures
        b == contains_sub(hay@, needle@),
{
    let n = chars_of(needle);
    has_sub(hay, &n)
}

/// Number of statements whose proof is a placeholder.
pub open spec fn placeholder_count(stmts: Seq<Seq<char>>) -> nat
    decreases stmts.len(),
{
    if stmts.len() == 0 {
        0
    } else {
        placeholder_count(stmts.drop_last()) + if has_placeholder_proof(stmts.last()) { 1nat } else { 0nat }
    }
}

/// Counts the statements whose proof is an `admit` or `sorry` placeholder.
pub fn count_admit_or_sorry(statements: &[String]) -> (c: u64)
    requires
        statements@.len() <= u64::MAX,
    ensures
        c == placeholder_count(statements@.map_values(|s: String| s@)),
{
    let ghost v = statements@.map_values(|s: String| s@);
    let mut c: u64 = 0;
    let mut i: usize = 0;
    while i < statements.len()
        invariant
            v == statements@.map_values(|s: String| s@),
            statements@.len() <= u64::MAX,
            0 <= i <= statements@.len(),
            c == placeholder_count(v.take(i as int)),
            c <= i,
        decreases statements@.len() - i,
    {
        proof {
            assert(v.take(i + 1).drop_last() == v.take(i as int));
            assert(v.take(i + 1).last() == statements@[i as int]@);
        }
        if contains_admit_or_sorry(statements[i].as_str()) {
            c = c + 1;
        }
        i = i + 1;
    }
    proof {
        assert(v.take(v.len() as int) == v);
    }
    c
}

/// Whether a normalized statement (or its lowercased gloss) is vacuous or
/// filler.
pub open spec fn vacuous_or_filler(stmt_norm: Seq<char>, gloss_lc: Seq<char>) -> bool {
    ||| stmt_norm == "true"@
    ||| contains_sub(stmt_norm, ": true := by trivial"@)
    ||| contains_sub(stmt_norm, ": true := by simp"@)
    ||| contains_sub(stmt_norm, ": prop := by trivial"@)
    ||| contains_sub(stmt_norm, ": prop := by simp"@)
    ||| contains_sub(stmt_norm, "-> true"@)
    ||| contains_sub(stmt_norm, "→ true"@)
    ||| contains_sub(stmt_norm, "∧ true"@)
    ||| contains_sub(stmt_norm, "| none => true"@)
    ||| contains_sub(stmt_norm, "| some _ => true"@)
    ||| contains_sub(stmt_norm, "placeholder"@)
    ||| contains_sub(gloss_lc, "placeholder"@)
    ||| (contains_sub(gloss_lc, "represents"@) && contains_sub(gloss_lc, "need to"@))
}

/// Whether a normalized statement, or its lowercased gloss, is vacuous or
/// filler text.
pub fn is_vacuous_or_filler(stmt_norm: &str, gloss_lc: &str) -> (b: bool)
    ensures
        b == vacuous_or_filler(stmt_norm@, gloss_lc@),
{
    let s = chars_of(stmt_norm);
    let g = chars_of(gloss_lc);
    str_eq(stmt_norm, "true")
        || contains(&s, ": true := by trivial")
        || contains(&s, ": true := by simp")
        || contains(&s, ": prop := by trivial")
        || contains(&s, ": prop := by simp")
        || contains(&s, "-> true")
        || contains(&s, "→ true")
        || contains(&s, "∧ true")
        || contains(&s, "| none => true")
        || contains(&s, "| some _ => true")
        || contains(&s, "placeholder")
        || contains(&g, "placeholder")
        || (contains(&g, "represents") && contains(&g, "need to"))
}

/// Whether a precondition obligation merely restates its assumption.
pub open spec fn tautological_precondition(stmt: Seq<char>, gloss: Seq<char>) -> bool {
    let s = normalized(ascii_lower_seq(stmt));
    let g = normalized(ascii_lower_seq(gloss));
    ||| contains_sub(s, ": bst t := h"@)
    ||| contains_sub(s, "simpa using h"@)
    ||| contains_sub(s, "simpa using hbst"@)
    ||| contains_sub(s, "(h : bst t) : bst t"@)
    ||| contains_sub(s, "(hbst : bst t) : bst t"@)
    ||| ((contains_sub(g, "assume"@) || contains_sub(g, "precondition"@))
        && (contains_sub(s, "bst t"@) || contains_sub(s, "sorted"@) || contains_sub(s, "nondecreasing"@)))
}

/// Whether a precondition obligation merely restates its assumption.
pub fn is_tautological_precondition(stmt: &str, gloss: &str) -> (b: bool)
    ensures
        b == tautological_precondition(stmt@, gloss@),
{
    let sc = chars_of(stmt);
    let gc = chars_of(gloss);
    let s0 = normalize_chars(&lower(&sc));
    let g0 = normalize_chars(&lower(&gc));
    let s = chars_of(s0.as_str());
    let g = chars_of(g0.as_str());
    if contains(&s, ": bst t := h")
        || contains(&s, "simpa using h")
        || contains(&s, "simpa using hbst")
        || contains(&s, "(h : bst t) : bst t")
        || contains(&s, "(hbst : bst t) : bst t")
    {
        return true;
    }
    (contains(&g, "assume") || contains(&g, "precondition"))
        && (contains(&s, "bst t") || contains(&s, "sorted") || contains(&s, "nondecreasing"))
}

/// `p` with every backslash turned into a slash.
pub open spec fn slashed(p: Seq<char>) -> Seq<char> {
    p.map_values(|c: char| if c == '\\' { '/' } else { c })
}

/// A path in text form with `/` separators only.
pub fn path_to_slash_string(p: &str) -> (out: String)
    ensures
        out@ == slashed(p@),
{
    let cs = chars_of(p);
    let mut v: Vec<char> = Vec::new();
    let mut i: usize = 0;
    while i < cs.len()
        invariant
            0 <= i <= cs@.len(),
            v@ == slashed(cs@.take(i as int)),
        decreases cs@.len() - i,
    {
        let c = cs[i];
        v.push(if c == '\\' { '/' } else { c });
        proof {
            assert(slashed(cs@.take(i + 1)) =~= slashed(cs@.take(i as int)).push(if c == '\\' { '/' } else { c }));
        }
        i = i + 1;
    }
    proof {
        assert(cs@.take(cs@.len() as int) == cs@);
    }
    string_from_chars(&v)
}

/// Packets of the first milestone, by system and instance.
pub open spec fn m1_target(system_id: Seq<char>, instance_id: Seq<char>) -> bool {
    ||| system_id == "full_method_v1"@ && (
        instance_id == "graph_dijkstra_001"@ || instance_id == "graph_dijkstra_002"@
        || instance_id == "graph_bfs_shortest_path_002"@ || instance_id == "greedy_coin_change_canonical_002"@
        || instance_id == "trees_lowest_common_ancestor_001"@ || instance_id == "trees_lowest_common_ancestor_002"@
        || instance_id == "greedy_interval_scheduling_001"@ || instance_id == "greedy_interval_scheduling_002"@
        || instance_id == "sorting_insertion_sort_001"@ || instance_id == "sorting_insertion_sort_002"@
        || instance_id == "sorting_merge_sort_001"@ || instance_id == "sorting_merge_sort_002"@
        || instance_id == "trees_bst_insert_001"@ || instance_id == "trees_bst_insert_002"@
        || instance_id == "dp_knapsack_01_001"@ || instance_id == "dp_knapsack_01_002"@)
    ||| system_id == "code_only_v1"@ && (
        instance_id == "graph_dijkstra_001"@ || instance_id == "graph_dijkstra_002"@
        || instance_id == "dp_knapsack_01_001"@ || instance_id == "dp_knapsack_01_002"@)
    ||| (system_id == "naive_concat_v1"@ || system_id == "text_only_v1"@) && (
        instance_id == "graph_dijkstra_001"@ || instance_id == "graph_dijkstra_002"@
        || instance_id == "dp_knapsack_01_001"@ || instance_id == "dp_knapsack_01_002"@)
}

/// Whether a packet is a first-milestone target.
pub fn is_m1_target_packet(system_id: &str, instance_id: &str) -> (b: bool)
    ensures
        b == m1_target(system_id@, instance_id@),
{
    if str_eq(system_id, "full_method_v1") {
        str_eq(instance_id, "graph_dijkstra_001") || str_eq(instance_id, "graph_dijkstra_002")
            || str_eq(instance_id, "graph_bfs_shortest_path_002") || str_eq(instance_id, "greedy_coin_change_canonical_002")
            || str_eq(instance_id, "trees_lowest_common_ancestor_001") || str_eq(instance_id, "trees_lowest_common_ancestor_002")
            || str_eq(instance_id, "greedy_interval_scheduling_001") || str_eq(instance_id, "greedy_interval_scheduling_002")
            || str_eq(instance_id, "sorting_insertion_sort_001") || str_eq(instance_id, "sorting_insertion_sort_002")
            || str_eq(instance_id, "sorting_merge_sort_001") || str_eq(instance_id, "sorting_merge_sort_002")
            || str_eq(instance_id, "trees_bst_insert_001") || str_eq(instance_id, "trees_bst_insert_002")
            || str_eq(instance_id, "dp_knapsack_01_001") || str_eq(instance_id, "dp_knapsack_01_002")
    } else if str_eq(system_id, "code_only_v1") || str_eq(system_id, "naive_concat_v1") || str_eq(system_id, "text_only_v1") {
        proof {
            reveal_strlit("full_method_v1");
            reveal_strlit("code_only_v1");
            reveal_strlit("naive_concat_v1");
            reveal_strlit("text_only_v1");
        }
        str_eq(instance_id, "graph_dijkstra_001") || str_eq(instance_id, "graph_dijkstra_002")
            || str_eq(instance_id, "dp_knapsack_01_001") || str_eq(instance_id, "dp_knapsack_01_002")
    } else {
        false
    }
}

/// Packets flagged as hotspots, by system and instance.
pub open spec fn hotspot_target(system_id: Seq<char>, instance_id: Seq<char>) -> bool {
    system_id == "full_method_v1"@ && (instance_id == "graph_bfs_shortest_path_002"@
        || instance_id == "trees_lowest_common_ancestor_001"@ || instance_id == "trees_lowest_common_ancestor_002"@)
}

/// Whether a packet is a hotspot target.
pub fn is_hotspot_target_packet(system_id: &str, instance_id: &str) -> (b: bool)
    ensures
        b == hotspot_target(system_id@, instance_id@),
{
    str_eq(system_id, "full_method_v1") && (str_eq(instance_id, "graph_bfs_shortest_path_002")
        || str_eq(instance_id, "trees_lowest_common_ancestor_001")
        || str_eq(instance_id, "trees_lowest_common_ancestor_002"))
}

/// First position at or after `i` where `needle` occurs in `hay`.
pub open spec fn occ_from(hay: Seq<char>, needle: Seq<char>, i: int) -> Option<int>
    decreases hay.len() + 1 - i,
{
    if i < 0 || i + needle.len() > hay.len() {
        None
    } else if hay.subrange(i, i + needle.len()) == needle {
        Some(i)
    } else {
        occ_from(hay, needle, i + 1)
    }
}

/// Last position below `j` where `needle` starts in `hay` (entirely inside).
pub open spec fn occ_before(hay: Seq<char>, needle: Seq<char>, j: int) -> Option<int>
    decreases j,
{
    if j <= 0 {
        None
    } else if j - 1 + needle.len() <= hay.len() && hay.subrange(j - 1, j - 1 + needle.len()) == needle {
        Some(j - 1)
    } else {
        occ_before(hay, needle, j - 1)
    }
}

/// Bounds of `occ_from`.
pub(crate) proof fn lemma_occ_from(hay: Seq<char>, needle: Seq<char>, i: int)
    requires
        0 <= i,
    ensures
        occ_from(hay, needle, i) matches Some(k) ==> i <= k && k + needle.len() <= hay.len(),
    decreases hay.len() + 1 - i,
{
    if i + needle.len() <= hay.len() && hay.subrange(i, i + needle.len()) != needle {
        lemma_occ_from(hay, needle, i + 1);
    }
}

/// Bounds of `occ_before`.
proof fn lemma_occ_before(hay: Seq<char>, needle: Seq<char>, j: int)
    ensures
        occ_before(hay, needle, j) matches Some(k) ==> 0 <= k < j && k + needle.len() <= hay.len(),
    decreases j,
{
    if j > 0 && !(j - 1 + needle.len() <= hay.len() && hay.subrange(j - 1, j - 1 + needle.len()) == needle) {
        lemma_occ_before(hay, needle, j - 1);
    }
}

/// `needle` occurs in `hay` at position `i`.
pub(crate) fn matches_at(hay: &[char], needle: &[char], i: usize) -> (b: bool)
    requires
        i <= hay@.len(),
    ensures
        b == (i + needle@.len() <= hay@.len() && hay@.subrange(i as int, i + needle@.len()) == needle@),
{
    let n = needle.len();
    let len = hay.len();
    if len - i < n {
        return false;
    }
    let mut k: usize = 0;
    while k < n
        invariant
            n == needle@.len(),
            len == hay@.len(),
            i + n <= len,
            0 <= k <= n,
            forall|t: int| 0 <= t < k ==> hay@[i + t] == needle@[t],
        decreases n - k,
    {
        if hay[i + k] != needle[k] {
            proof {
                assert(hay@.subrange(i as int, i + n)[k as int] != needle@[k as int]);
            }
            return false;
        }
        k = k + 1;
    }
    proof {
        assert(hay@.subrange(i as int, i + n) =~= needle@);
    }
    true
}

/// Finds `occ_from(hay, needle, 0)`.
pub(crate) fn find_first(hay: &[char], needle: &[char]) -> (r: Option<usize>)
    ensures
        match r {
            Some(k) => occ_from(hay@, needle@, 0) == Some(k as int),
            None => occ_from(hay@, needle@, 0) is None,
        },
{
    let mut i: usize = 0;
    while i <= hay.len()
        invariant
            0 <= i <= hay@.len() + 1,
            occ_from(hay@, needle@, 0) == occ_from(hay@, needle@, i as int),
        decreases hay@.len() + 1 - i,
    {
        if matches_at(hay, needle, i) {
            return Some(i);
        }
        if i == hay.len() {
            proof {
                assert(occ_from(hay@, needle@, i + 1) is None);
            }
            return None;
        }
        i = i + 1;
    }
    None
}

/// Finds `occ_before(hay, needle, hay.len())`.
fn find_last(hay: &[char], needle: &[char]) -> (r: Option<usize>)
    ensures
        match r {
            Some(k) => occ_before(hay@, needle@, hay@.len() as int) == Some(k as int),
            None => occ_before(hay@, needle@, hay@.len() as int) is None,
        },
{
    let mut j: usize = hay.len();
    while j > 0
        invariant
            0 <= j <= hay@.len(),
            occ_before(hay@, needle@, hay@.len() as int) == occ_before(hay@, needle@, j as int),
        decreases j,
    {
        if matches_at(hay, needle, j - 1) {
            return Some(j - 1);
        }
        j = j - 1;
    }
    None
}

/// The characters `s[from..to]`.
pub(crate) fn slice(s: &[char], from: usize, to: usize) -> (out: Vec<char>)
    requires
        from <= to <= s@.len(),
    ensures
        out@ == s@.subrange(from as int, to as int),
{
    let mut out: Vec<char> = Vec::new();
    let mut i = from;
    while i < to
        invariant
            from <= i <= to <= s@.len(),
            out@ == s@.subrange(from as int, i as int),
        decreases to - i,
    {
        out.push(s[i]);
        proof {
            assert(s@.subrange(from as int, i + 1) == s@.subrange(from as int, i as int).push(s@[i as int]));
        }
        i = i + 1;
    }
    out
}

/// Header (before the first `:= by`) and proof body (after it) of a theorem,
/// both trimmed.
pub open spec fn header_and_body(stmt: Seq<char>) -> Option<(Seq<char>, Seq<char>)> {
    match occ_from(stmt, ":= by"@, 0) {
        Some(k) => Some((trim(stmt.take(k)), trim(stmt.skip(k + 5)))),
        None => None,
    }
}

/// Splits a theorem into header and proof body at its first `:= by`.
pub fn theorem_header_and_body(stmt: &str) -> (res: Option<(String, String)>)
    ensures
        match res {
            Some((h, b)) => header_and_body(stmt@) == Some((h@, b@)),
            None => header_and_body(stmt@) is None,
        },
{
    let cs = chars_of(stmt);
    let pat = chars_of(":= by");
    proof {
        reveal_strlit(":= by");
        assert(pat@.len() == 5);
    }
    match find_first(&cs, &pat) {
        Some(k) => {
            let n = cs.len();
            proof {
                lemma_occ_from(cs@, pat@, 0);
                assert(k + 5 <= n);
            }
            let head = trim_chars(&slice(&cs, 0, k));
            let body = trim_chars(&slice(&cs, k + 5, cs.len()));
            proof {
                assert(cs@.subrange(0, k as int) == cs@.take(k as int));
                assert(cs@.subrange(k + 5, cs@.len() as int) == cs@.skip(k + 5));
            }
            Some((string_from_chars(&head), string_from_chars(&body)))
        },
        None => None,
    }
}

/// Conclusion of a theorem header: what follows its last `) :`, trimmed.
pub open spec fn conclusion_of(header: Seq<char>) -> Option<Seq<char>> {
    match occ_before(header, ") :"@, header.len() as int) {
        Some(k) => Some(trim(header.skip(k + 3))),
        None => None,
    }
}

/// The conclusion of a theorem header (after its last `) :`).
pub fn theorem_conclusion(header: &str) -> (res: Option<String>)
    ensures
        match res {
            Some(c) => conclusion_of(header@) == Some(c@),
            None => conclusion_of(header@) is None,
        },
{
    let cs = chars_of(header);
    let pat = chars_of(") :");
    proof {
        reveal_strlit(") :");
        assert(pat@.len() == 3);
    }
    match find_last(&cs, &pat) {
        Some(k) => {
            let n = cs.len();
            proof {
                lemma_occ_before(cs@, pat@, cs@.len() as int);
                assert(k + 3 <= n);
            }
            let c = trim_chars(&slice(&cs, k + 3, cs.len()));
            proof {
                assert(cs@.subrange(k + 3, cs@.len() as int) == cs@.skip(k + 3));
            }
            Some(string_from_chars(&c))
        },
        None => None,
    }
}

/// The identifier a wrapper proof body hands on: `exact <id>` or
/// `simpa using <id>`.
pub open spec fn wrapper_ident(body: Seq<char>) -> Option<Seq<char>> {
    let b = trim(body);
    if b.len() >= 6 && b.take(6) == "exact "@ {
        Some(trim(b.skip(6)))
    } else if b.len() >= 12 && b.take(12) == "simpa using "@ {
        Some(trim(b.skip(12)))
    } else {
        None
    }
}

/// `s` starts with `p`.
pub(crate) fn has_prefix_str(s: &[char], p: &str) -> (b: bool)
    ensures
        b == (s@.len() >= p@.len() && s@.take(p@.len() as int) == p@),
{
    let pc = chars_of(p);
    let r = matches_at(s, &pc, 0);
    proof {
        assert(s@.len() >= pc@.len() ==> s@.subrange(0int, 0int + pc@.len()) == s@.take(pc@.len() as int));
    }
    r
}

/// The identifier a wrapper proof body hands on, if it is one.
pub fn wrapper_ident_from_body(body: &str) -> (res: Option<String>)
    ensures
        match res {
            Some(id) => wrapper_ident(body@) == Some(id@),
            None => wrapper_ident(body@) is None,
        },
{
    let cs = chars_of(body);
    let b = trim_chars(&cs);
    proof {
        reveal_strlit("exact ");
        reveal_strlit("simpa using ");
        assert("exact "@.len() == 6);
        assert("simpa using "@.len() == 12);
    }
    if has_prefix_str(&b, "exact ") {
        let rest = trim_chars(&slice(&b, 6, b.len()));
        proof {
            assert(b@.subrange(6, b@.len() as int) == b@.skip(6));
        }
        return Some(string_from_chars(&rest));
    }
    if has_prefix_str(&b, "simpa using ") {
        let rest = trim_chars(&slice(&b, 12, b.len()));
        proof {
            assert(b@.subrange(12, b@.len() as int) == b@.skip(12));
        }
        return Some(string_from_chars(&rest));
    }
    None
}

/// Whether a theorem's conclusion is a bare equation `x = x` (after
/// collapsing white space), with no connective or quantifier in it.
pub open spec fn tautological_equality(stmt: Seq<char>) -> bool {
    match header_and_body(stmt) {
        None => false,
        Some((header, _)) => match conclusion_of(header) {
            None => false,
            Some(conclusion) => {
                let c = normalized(conclusion);
                if contains_sub(c, "→"@) || contains_sub(c, "↔"@) || contains_sub(c, "∧"@)
                    || contains_sub(c, "∨"@) || contains_sub(c, "¬"@) || contains_sub(c, "∀"@)
                    || contains_sub(c, "∃"@) {
                    false
                } else {
                    let parts = split_from(c, '=', 0);
                    parts.len() == 2 && normalized(parts[0]) == normalized(parts[1])
                }
            },
        },
    }
}

/// Whether a theorem only states `x = x`.
pub fn has_tautological_theorem_equality(stmt: &str) -> (b: bool)
    ensures
        b == tautological_equality(stmt@),
{
    let (header, _body) = match theorem_header_and_body(stmt) {
        Some(hb) => hb,
        None => {
            return false;
        },
    };
    let conclusion = match theorem_conclusion(header.as_str()) {
        Some(c) => c,
        None => {
            return false;
        },
    };
    let c0 = normalize_text(conclusion.as_str());
    let c = chars_of(c0.as_str());
    if contains(&c, "→") || contains(&c, "↔") || contains(&c, "∧") || contains(&c, "∨")
        || contains(&c, "¬") || contains(&c, "∀") || contains(&c, "∃") {
        return false;
    }
    let parts = split_chars(&c, '=');
    if parts.len() != 2 {
        return false;
    }
    proof {
        assert(parts@.map_values(|x: Vec<char>| x@)[0] == parts@[0]@);
        assert(parts@.map_values(|x: Vec<char>| x@)[1] == parts@[1]@);
    }
    let l = normalize_chars(&parts[0]);
    let r = normalize_chars(&parts[1]);
    str_eq(l.as_str(), r.as_str())
}

/// Module named by an `import` line (trimmed, after the keyword, trimmed).
pub open spec fn imported_module(line: Seq<char>) -> Option<Seq<char>> {
    let t = trim(line);
    if t.len() >= 7 && t.take(7) == "import "@ {
        Some(trim(t.skip(7)))
    } else {
        None
    }
}

/// Modules imported by the lines `lines[k..]`, in order.
pub open spec fn imports_from(lines: Seq<Seq<char>>, k: int) -> Seq<Seq<char>>
    decreases lines.len() - k,
{
    if k < 0 || k >= lines.len() {
        Seq::empty()
    } else {
        match imported_module(lines[k]) {
            Some(m) => seq![m] + imports_from(lines, k + 1),
            None => imports_from(lines, k + 1),
        }
    }
}

/// Modules imported by a Lean source, in order of their `import` lines.
pub fn extract_import_modules(src: &str) -> (out: Vec<String>)
    ensures
        out@.map_values(|s: String| s@) == imports_from(split_from(src@, '\n', 0), 0),
{
    let cs = chars_of(src);
    let lines = split_chars(&cs, '\n');
    let ghost ls = lines@.map_values(|x: Vec<char>| x@);
    let mut out: Vec<String> = Vec::new();
    proof {
        reveal_strlit("import ");
        assert("import "@.len() == 7);
        assert(out@.map_values(|s: String| s@) =~= Seq::<Seq<char>>::empty());
    }
    let mut k: usize = 0;
    while k < lines.len()
        invariant
            ls == lines@.map_values(|x: Vec<char>| x@),
            ls == split_from(src@, '\n', 0),
            0 <= k <= lines@.len(),
            out@.map_values(|s: String| s@) + imports_from(ls, k as int) == imports_from(ls, 0),
        decreases lines@.len() - k,
    {
        proof {
            assert(ls[k as int] == lines@[k as int]@);
        }
        let t = trim_chars(&lines[k]);
        let ghost before = out@.map_values(|s: String| s@);
        proof {
            reveal_strlit("import ");
        }
        if has_prefix_str(&t, "import ") {
            let m = trim_chars(&slice(&t, 7, t.len()));
            proof {
                assert(t@.subrange(7, t@.len() as int) == t@.skip(7));
            }
            out.push(string_from_chars(&m));
            proof {
                assert(imported_module(ls[k as int]) == Some(m@));
                assert(imports_from(ls, k as int) == seq![m@] + imports_from(ls, k + 1));
                assert(out@.map_values(|s: String| s@) =~= before.push(m@));
                assert(out@.map_values(|s: String| s@) + imports_from(ls, k + 1)
                    =~= before + imports_from(ls, k as int));
            }
        } else {
            proof {
                assert(imported_module(ls[k as int]) is None);
                assert(imports_from(ls, k as int) == imports_from(ls, k + 1));
            }
        }
        k = k + 1;
    }
    proof {
        assert(out@.map_values(|s: String| s@) + imports_from(ls, k as int) =~= out@.map_values(|s: String| s@));
    }
    out
}

/// Collapses white space in a proposition: its words joined by single spaces.
pub fn normalize_prop_text(s: &str) -> (out: String)
    ensures
        out@ == normalized(s@),
{
    normalize_text(s)
}

/// Position of the `)` that closes a group opened before `s[i..]` at nesting
/// `depth` (parentheses opened inside are matched first).
pub open spec fn closing_paren(s: Seq<char>, i: int, depth: nat) -> Option<int>
    decreases s.len() - i,
{
    if i < 0 || i >= s.len() {
        None
    } else if s[i] == '(' {
        closing_paren(s, i + 1, depth + 1)
    } else if s[i] == ')' {
        if depth == 0 {
            Some(i)
        } else {
            closing_paren(s, i + 1, (depth - 1) as nat)
        }
    } else {
        closing_paren(s, i + 1, depth)
    }
}

/// The proposition of the binder `(ident : prop)` in a theorem header: the
/// text after the first `(ident :` up to its closing parenthesis, trimmed.
pub open spec fn assumption_prop(header: Seq<char>, ident: Seq<char>) -> Option<Seq<char>> {
    let needle = seq!['('] + ident + " :"@;
    match occ_from(header, needle, 0) {
        Some(st) => {
            let from = st + needle.len();
            match closing_paren(header, from, 0) {
                Some(e) => Some(trim(header.subrange(from, e))),
                None => None,
            }
        },
        None => None,
    }
}

/// Bounds of `closing_paren`.
proof fn lemma_closing_paren(s: Seq<char>, i: int, depth: nat)
    requires
        0 <= i,
    ensures
        closing_paren(s, i, depth) matches Some(e) ==> i <= e < s.len(),
    decreases s.len() - i,
{
    if i < s.len() {
        if s[i] == '(' {
            lemma_closing_paren(s, i + 1, depth + 1);
        } else if s[i] == ')' {
            if depth > 0 {
                lemma_closing_paren(s, i + 1, (depth - 1) as nat);
            }
        } else {
            lemma_closing_paren(s, i + 1, depth);
        }
    }
}

/// The proposition assumed by the binder named `ident` in a theorem header.
pub fn parse_assumption_prop(header: &str, ident: &str) -> (res: Option<String>)
    ensures
        match res {
            Some(p) => assumption_prop(header@, ident@) == Some(p@),
            None => assumption_prop(header@, ident@) is None,
        },
{
    let hs = chars_of(header);
    let ids = chars_of(ident);
    let mut needle: Vec<char> = Vec::new();
    needle.push('(');
    let mut t: usize = 0;
    while t < ids.len()
        invariant
            t <= ids@.len(),
            needle@ == seq!['('] + ids@.take(t as int),
        decreases ids@.len() - t,
    {
        needle.push(ids[t]);
        proof {
            assert(ids@.take(t + 1) == ids@.take(t as int).push(ids@[t as int]));
        }
        t = t + 1;
    }
    needle.push(' ');
    needle.push(':');
    proof {
        reveal_strlit(" :");
        assert(ids@.take(ids@.len() as int) == ids@);
        assert(needle@ =~= seq!['('] + ident@ + " :"@);
    }
    let st = match find_first(&hs, &needle) {
        Some(k) => k,
        None => {
            return None;
        },
    };
    proof {
        lemma_occ_from(hs@, needle@, 0);
        assert(occ_from(hs@, needle@, 0) == Some(st as int));
        assert(st + needle@.len() <= hs@.len());
    }
    let hl = hs.len();
    let nl = needle.len();
    assert(st + nl <= hl);
    let from = st + nl;
    let mut i: usize = from;
    let mut depth: usize = 0;
    proof {
        lemma_closing_paren(hs@, from as int, 0);
    }
    while i < hs.len()
        invariant
            from <= i <= hs@.len(),
            from <= hs@.len(),
            depth <= i,
            hs@ == header@,
            needle@ == seq!['('] + ident@ + " :"@,
            occ_from(hs@, needle@, 0) == Some(st as int),
            from == st + needle@.len(),
            closing_paren(hs@, from as int, 0) == closing_paren(hs@, i as int, depth as nat),
        decreases hs@.len() - i,
    {
        let c = hs[i];
        if c == '(' {
            depth = depth + 1;
        } else if c == ')' {
            if depth == 0 {
                let prop = trim_chars(&slice(&hs, from, i));
                proof {
                    assert(closing_paren(hs@, i as int, 0) == Some(i as int));
                }
                return Some(string_from_chars(&prop));
            }
            depth = depth - 1;
        }
        i = i + 1;
    }
    None
}

/// Whether a theorem is a wrapper whose proof hands on an assumption that
/// states exactly its conclusion (`(h : P) : P := by exact h`).
pub open spec fn self_copy(stmt: Seq<char>) -> bool {
    match header_and_body(stmt) {
        None => false,
        Some((header, body)) => match wrapper_ident(body) {
            None => false,
            Some(ident) => match assumption_prop(header, ident) {
                None => false,
                Some(assumption) => match conclusion_of(header) {
                    None => false,
                    Some(conclusion) => normalized(assumption) == normalized(conclusion),
                },
            },
        },
    }
}

/// Whether a theorem only restates one of its assumptions.
pub fn is_wrapper_self_copy_theorem(stmt: &str) -> (b: bool)
    ensures
        b == self_copy(stmt@),
{
    let (header, body) = match theorem_header_and_body(stmt) {
        Some(hb) => hb,
        None => {
            return false;
        },
    };
    let ident = match wrapper_ident_from_body(body.as_str()) {
        Some(i) => i,
        None => {
            return false;
        },
    };
    let assumption = match parse_assumption_prop(header.as_str(), ident.as_str()) {
        Some(a) => a,
        None => {
            return false;
        },
    };
    let conclusion = match theorem_conclusion(header.as_str()) {
        Some(c) => c,
        None => {
            return false;
        },
    };
    let a = normalize_prop_text(assumption.as_str());
    let c = normalize_prop_text(conclusion.as_str());
    str_eq(a.as_str(), c.as_str())
}

/// `s[i..]` with the occurrences of `pat`, found left to right without
/// overlapping, replaced by `rep` (`str::replace` for a non-empty `pat`).
pub open spec fn replaced_from(s: Seq<char>, pat: Seq<char>, rep: Seq<char>, i: int) -> Seq<char>
    decreases s.len() - i,
{
    if i < 0 || i >= s.len() {
        Seq::empty()
    } else if pat.len() > 0 && i + pat.len() <= s.len() && s.subrange(i, i + pat.len()) == pat {
        rep + replaced_from(s, pat, rep, i + pat.len())
    } else {
        seq![s[i]] + replaced_from(s, pat, rep, i + 1)
    }
}

/// Replaces every occurrence of `pat` by `rep`.
fn replace_chars(s: &[char], pat: &str, rep: &str) -> (out: Vec<char>)
    requires
        pat@.len() > 0,
    ensures
        out@ == replaced_from(s@, pat@, rep@, 0),
{
    let pc = chars_of(pat);
    let rc = chars_of(rep);
    let mut out: Vec<char> = Vec::new();
    let mut i: usize = 0;
    while i < s.len()
        invariant
            pc@ == pat@,
            rc@ == rep@,
            pc@.len() > 0,
            i <= s@.len(),
            out@ + replaced_from(s@, pat@, rep@, i as int) == replaced_from(s@, pat@, rep@, 0),
        decreases s@.len() - i,
    {
        let ghost before = out@;
        if matches_at(s, &pc, i) {
            let mut t: usize = 0;
            while t < rc.len()
                invariant
                    t <= rc@.len(),
                    out@ == before + rc@.take(t as int),
                decreases rc@.len() - t,
            {
                out.push(rc[t]);
                proof {
                    assert(rc@.take(t + 1) == rc@.take(t as int).push(rc@[t as int]));
                }
                t = t + 1;
            }
            proof {
                assert(rc@.take(rc@.len() as int) == rc@);
                assert(out@ + replaced_from(s@, pat@, rep@, i + pc@.len())
                    =~= before + replaced_from(s@, pat@, rep@, i as int));
            }
            i = i + pc.len();
        } else {
            out.push(s[i]);
            proof {
                assert(out@ + replaced_from(s@, pat@, rep@, i + 1)
                    =~= before + replaced_from(s@, pat@, rep@, i as int));
            }
            i = i + 1;
        }
    }
    proof {
        assert(out@ + replaced_from(s@, pat@, rep@, i as int) =~= out@);
    }
    out
}

/// A statement without its redundant `∧ w ≥ 0` / `∧ w >= 0` conjuncts, with
/// double spaces then made single.
pub open spec fn without_nat_nonneg(stmt: Seq<char>) -> Seq<char> {
    let a = replaced_from(stmt, "∧ w ≥ 0"@, Seq::empty(), 0);
    let b = replaced_from(a, "∧ w >= 0"@, Seq::empty(), 0);
    replaced_from(b, "  "@, " "@, 0)
}

/// Drops the non-negativity conjuncts that add nothing for a natural `w`.
pub fn strip_redundant_nat_nonneg(stmt: &str) -> (out: String)
    ensures
        out@ == without_nat_nonneg(stmt@),
{
    proof {
        reveal_strlit("∧ w ≥ 0");
        reveal_strlit("∧ w >= 0");
        reveal_strlit("  ");
        reveal_strlit(" ");
        reveal_strlit("");
        assert(""@ =~= Seq::<char>::empty());
    }
    let cs = chars_of(stmt);
    let a = replace_chars(&cs, "∧ w ≥ 0", "");
    let b = replace_chars(&a, "∧ w >= 0", "");
    let c = replace_chars(&b, "  ", " ");
    string_from_chars(&c)
}

} // verus!
