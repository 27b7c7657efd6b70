//! The annotation task board: which (instance, system) pairs an experiment
//! needs adjudicated, which of them a pack already holds, and the CSV rows
//! of the assignment matrix, completion log and per-system batch queues.

use vstd::prelude::*;
use crate::text::{chars_of, push_all, str_eq, string_from_chars};
use crate::lean::{decimal_string, two_digit};
use crate::prompts::{lex_lt, chars_lt, lemma_lex_transitive, lemma_lex_trichotomy};

verus! {

/// A list of string pairs as plain values.
pub open spec fn pair_views(ps: Seq<(String, String)>) -> Seq<(Seq<char>, Seq<char>)> {
    ps.map_values(|p: (String, String)| (p.0@, p.1@))
}

/// The pairs of `instances[..i]` with every system, instance by instance,
/// systems in the order given.
pub open spec fn cross(instances: Seq<Seq<char>>, systems: Seq<Seq<char>>, i: int) -> Seq<(Seq<char>, Seq<char>)>
    decreases i,
{
    if i <= 0 || i > instances.len() {
        Seq::empty()
    } else {
        cross(instances, systems, i - 1) + systems.map_values(|s: Seq<char>| (instances[i - 1], s))
    }
}

/// A copy of `s`.
fn owned(s: &str) -> (out: String)
    ensures
        out@ == s@,
{
    string_from_chars(&chars_of(s))
}

/// Every (instance, system) pair an experiment needs: each instance of its
/// split with each of its systems, instance by instance.
pub fn required_pairs(instance_ids: &Vec<String>, systems: &Vec<String>) -> (out: Vec<(String, String)>)
    ensures
        pair_views(out@) == cross(instance_ids@.map_values(|s: String| s@), systems@.map_values(|s: String| s@),
            instance_ids@.len() as int),
{
    let ghost iv = instance_ids@.map_values(|s: String| s@);
    let ghost sv = systems@.map_values(|s: String| s@);
    let mut out: Vec<(String, String)> = Vec::new();
    let mut i: usize = 0;
    while i < instance_ids.len()
        invariant
            i <= instance_ids@.len(),
            iv == instance_ids@.map_values(|s: String| s@),
            sv == systems@.map_values(|s: String| s@),
            pair_views(out@) == cross(iv, sv, i as int),
        decreases instance_ids@.len() - i,
    {
        let ghost base = pair_views(out@);
        let mut j: usize = 0;
        while j < systems.len()
            invariant
                i < instance_ids@.len(),
                j <= systems@.len(),
                iv == instance_ids@.map_values(|s: String| s@),
                sv == systems@.map_values(|s: String| s@),
                pair_views(out@) == base + sv.take(j as int).map_values(|s: Seq<char>| (iv[i as int], s)),
            decreases systems@.len() - j,
        {
            let ghost before = pair_views(out@);
            out.push((owned(instance_ids[i].as_str()), owned(systems[j].as_str())));
            proof {
                assert(pair_views(out@) =~= before.push((iv[i as int], sv[j as int])));
                assert(sv.take(j + 1).map_values(|s: Seq<char>| (iv[i as int], s))
                    =~= sv.take(j as int).map_values(|s: Seq<char>| (iv[i as int], s)).push((iv[i as int], sv[j as int])));
            }
            j = j + 1;
        }
        proof {
            assert(sv.take(sv.len() as int) =~= sv);
        }
        i = i + 1;
    }
    out
}

/// Whether `p` is one of `present`.
fn holds_pair(present: &Vec<(String, String)>, a: &str, b: &str) -> (r: bool)
    ensures
        r == pair_views(present@).contains((a@, b@)),
{
    let ghost pv = pair_views(present@);
    let mut k: usize = 0;
    while k < present.len()
        invariant
            k <= present@.len(),
            pv == pair_views(present@),
            forall|j: int| 0 <= j < k ==> pv[j] != (a@, b@),
        decreases present@.len() - k,
    {
        if str_eq(present[k].0.as_str(), a) && str_eq(present[k].1.as_str(), b) {
            proof {
                assert(pv[k as int] == (a@, b@));
            }
            return true;
        }
        proof {
            assert(pv[k as int] == (present@[k as int].0@, present@[k as int].1@));
        }
        k = k + 1;
    }
    false
}

/// The pairs of `required[..k]` that `present` lacks, in order.
pub open spec fn lacking(required: Seq<(Seq<char>, Seq<char>)>, present: Seq<(Seq<char>, Seq<char>)>, k: int)
    -> Seq<(Seq<char>, Seq<char>)>
    decreases k,
{
    if k <= 0 || k > required.len() {
        Seq::empty()
    } else {
        let r = lacking(required, present, k - 1);
        if present.contains(required[k - 1]) { r } else { r.push(required[k - 1]) }
    }
}

/// The required pairs that the pack does not hold yet, in order.
pub fn missing_pairs(required: &Vec<(String, String)>, present: &Vec<(String, String)>) -> (out: Vec<(String, String)>)
    ensures
        pair_views(out@) == lacking(pair_views(required@), pair_views(present@), required@.len() as int),
{
    let ghost rv = pair_views(required@);
    let ghost pv = pair_views(present@);
    let mut out: Vec<(String, String)> = Vec::new();
    let mut k: usize = 0;
    while k < required.len()
        invariant
            k <= required@.len(),
            rv == pair_views(required@),
            pv == pair_views(present@),
            pair_views(out@) == lacking(rv, pv, k as int),
        decreases required@.len() - k,
    {
        proof {
            assert(rv[k as int] == (required@[k as int].0@, required@[k as int].1@));
        }
        if !holds_pair(present, required[k].0.as_str(), required[k].1.as_str()) {
            let ghost before = pair_views(out@);
            out.push((owned(required[k].0.as_str()), owned(required[k].1.as_str())));
            proof {
                assert(pair_views(out@) =~= before.push(rv[k as int]));
            }
        }
        k = k + 1;
    }
    out
}

/// One row of the assignment matrix: the pair, three empty annotator
/// columns, its status, the three raw annotation paths and empty notes.
pub open spec fn matrix_row(version: Seq<char>, iid: Seq<char>, sid: Seq<char>, packed: bool) -> Seq<char> {
    let stem = iid + "__"@ + sid + ".json,"@;
    let raw = "benchmark/"@ + version + "/annotation/raw/"@;
    iid + ","@ + sid + ",,,,"@ + (if packed { "packed"@ } else { "unassigned"@ }) + ","@
        + raw + "ann_01/"@ + stem + raw + "ann_02/"@ + stem + raw + "adjudicator/"@ + stem
}

/// The header of the assignment matrix.
pub open spec fn matrix_header() -> Seq<char> {
    "instance_id,system_id,annotator_1,annotator_2,adjudicator,status,raw_ann_01_path,raw_ann_02_path,adjudicated_path,notes"@
}

/// The assignment matrix, header first, one row per required pair.
pub fn assignment_matrix_lines(version: &str, required: &Vec<(String, String)>, present: &Vec<(String, String)>)
    -> (lines: Vec<String>)
    ensures
        lines@.len() == required@.len() + 1,
        lines@[0]@ == matrix_header(),
        forall|k: int| 0 <= k < required@.len() ==> (#[trigger] lines@[k + 1])@
            == matrix_row(version@, required@[k].0@, required@[k].1@,
                pair_views(present@).contains((required@[k].0@, required@[k].1@))),
{
    let mut lines: Vec<String> = Vec::new();
    lines.push(owned("instance_id,system_id,annotator_1,annotator_2,adjudicator,status,raw_ann_01_path,raw_ann_02_path,adjudicated_path,notes"));
    let mut k: usize = 0;
    while k < required.len()
        invariant
            k <= required@.len(),
            lines@.len() == k + 1,
            lines@[0]@ == matrix_header(),
            forall|j: int| 0 <= j < k ==> (#[trigger] lines@[j + 1])@
                == matrix_row(version@, required@[j].0@, required@[j].1@,
                    pair_views(present@).contains((required@[j].0@, required@[j].1@))),
        decreases required@.len() - k,
    {
        let iid = required[k].0.as_str();
        let sid = required[k].1.as_str();
        let packed = holds_pair(present, iid, sid);
        let mut stem = owned(iid);
        push_all(&mut stem, "__");
        push_all(&mut stem, sid);
        push_all(&mut stem, ".json,");
        let mut raw = owned("benchmark/");
        push_all(&mut raw, version);
        push_all(&mut raw, "/annotation/raw/");
        let mut row = owned(iid);
        push_all(&mut row, ",");
        push_all(&mut row, sid);
        push_all(&mut row, ",,,,");
        push_all(&mut row, if packed { "packed" } else { "unassigned" });
        push_all(&mut row, ",");
        push_all(&mut row, raw.as_str());
        push_all(&mut row, "ann_01/");
        push_all(&mut row, stem.as_str());
        push_all(&mut row, raw.as_str());
        push_all(&mut row, "ann_02/");
        push_all(&mut row, stem.as_str());
        push_all(&mut row, raw.as_str());
        push_all(&mut row, "adjudicator/");
        push_all(&mut row, stem.as_str());
        proof {
            assert(row@ =~= matrix_row(version@, iid@, sid@, packed));
        }
        lines.push(row);
        k = k + 1;
    }
    lines
}

/// The completion log: its header, and when nothing is missing one row
/// stamped `timestamp` saying so.
pub fn completion_log_lines(missing: &Vec<(String, String)>, timestamp: &str) -> (lines: Vec<String>)
    ensures
        lines@.len() == if missing@.len() == 0 { 2int } else { 1int },
        lines@[0]@ == "timestamp,instance_id,system_id,status,notes"@,
        missing@.len() == 0 ==> lines@[1]@ == timestamp@ + ",,,packed,all required pairs currently covered"@,
{
    let mut lines: Vec<String> = Vec::new();
    lines.push(owned("timestamp,instance_id,system_id,status,notes"));
    if missing.len() == 0 {
        let mut row = owned(timestamp);
        push_all(&mut row, ",,,packed,all required pairs currently covered");
        lines.push(row);
    }
    lines
}

/// The pairs of `pairs[..k]` for `system`, in order.
pub open spec fn of_system(pairs: Seq<(Seq<char>, Seq<char>)>, system: Seq<char>, k: int) -> Seq<(Seq<char>, Seq<char>)>
    decreases k,
{
    if k <= 0 || k > pairs.len() {
        Seq::empty()
    } else {
        let r = of_system(pairs, system, k - 1);
        if pairs[k - 1].1 == system { r.push(pairs[k - 1]) } else { r }
    }
}

/// `batch_NN` for the `n`-th batch (at least two digits).
pub fn batch_id(n: u32) -> (out: String)
    ensures
        out@ == "batch_"@ + two_digit(n as nat),
{
    let mut out = owned("batch_");
    if n < 10 {
        push_all(&mut out, "0");
    }
    push_all(&mut out, string_from_chars(&decimal_string(n as u64)).as_str());
    proof {
        reveal_strlit("0");
        assert(out@ =~= "batch_"@ + two_digit(n as nat));
    }
    out
}


/// `s` with `x` inserted after every entry whose id does not come after
/// its own (so entries with equal ids keep their order).
pub open spec fn insert_by_id(s: Seq<(Seq<char>, Seq<char>)>, x: (Seq<char>, Seq<char>)) -> Seq<(Seq<char>, Seq<char>)>
    decreases s.len(),
{
    if s.len() == 0 {
        seq![x]
    } else if !lex_lt(x.0, s.last().0) {
        s.push(x)
    } else {
        insert_by_id(s.drop_last(), x).push(s.last())
    }
}

/// `s` stably sorted by instance id.
pub open spec fn sort_by_id(s: Seq<(Seq<char>, Seq<char>)>) -> Seq<(Seq<char>, Seq<char>)>
    decreases s.len(),
{
    if s.len() == 0 {
        Seq::empty()
    } else {
        insert_by_id(sort_by_id(s.drop_last()), s.last())
    }
}

/// Sorting keeps the length.
proof fn lemma_sort_len(s: Seq<(Seq<char>, Seq<char>)>)
    ensures
        sort_by_id(s).len() == s.len(),
    decreases s.len(),
{
    if s.len() > 0 {
        lemma_sort_len(s.drop_last());
        lemma_insert_len(sort_by_id(s.drop_last()), s.last());
    }
}

/// Inserting adds one entry.
proof fn lemma_insert_len(s: Seq<(Seq<char>, Seq<char>)>, x: (Seq<char>, Seq<char>))
    ensures
        insert_by_id(s, x).len() == s.len() + 1,
    decreases s.len(),
{
    if s.len() > 0 {
        lemma_insert_len(s.drop_last(), x);
    }
}

/// Scanning back from the end while `x` comes before the entry finds where
/// `insert_by_id` puts it.
proof fn lemma_insert_at(s: Seq<(Seq<char>, Seq<char>)>, x: (Seq<char>, Seq<char>), p: int)
    requires
        0 <= p <= s.len(),
        p == 0 || !lex_lt(x.0, s[p - 1].0),
        forall|j: int| p <= j < s.len() ==> lex_lt(x.0, #[trigger] s[j].0),
    ensures
        insert_by_id(s, x) == s.take(p).push(x) + s.skip(p),
    decreases s.len() - p,
{
    if s.len() == p {
        if s.len() == 0 {
            assert(s.take(p).push(x) + s.skip(p) =~= seq![x]);
        } else {
            assert(s.take(p) =~= s);
            assert(s.take(p).push(x) + s.skip(p) =~= s.push(x));
        }
    } else {
        assert(lex_lt(x.0, s.last().0));
        let t = s.drop_last();
        assert forall|j: int| p <= j < t.len() implies lex_lt(x.0, #[trigger] t[j].0) by {
            assert(t[j] == s[j]);
        }
        if p > 0 {
            assert(t[p - 1] == s[p - 1]);
        }
        lemma_insert_at(t, x, p);
        assert(t.take(p) =~= s.take(p));
        assert((t.take(p).push(x) + t.skip(p)).push(s.last()) =~= s.take(p).push(x) + s.skip(p));
    }
}

/// Inserts `x` where `insert_by_id` puts it.
fn insert_pair(v: &mut Vec<(String, String)>, x: (String, String))
    ensures
        pair_views(final(v)@) == insert_by_id(pair_views(old(v)@), (x.0@, x.1@)),
{
    let ghost s = pair_views(v@);
    let xc = chars_of(x.0.as_str());
    let mut p = v.len();
    while p > 0 && chars_lt(xc.as_slice(), chars_of(v[p - 1].0.as_str()).as_slice())
        invariant
            p <= v@.len(),
            s == pair_views(v@),
            xc@ == x.0@,
            forall|j: int| p <= j < s.len() ==> lex_lt(x.0@, #[trigger] s[j].0),
        decreases p,
    {
        proof {
            assert(s[p - 1] == (v@[p - 1].0@, v@[p - 1].1@));
        }
        p = p - 1;
    }
    proof {
        if p > 0 {
            assert(s[p - 1] == (v@[p - 1].0@, v@[p - 1].1@));
        }
        lemma_insert_at(s, (x.0@, x.1@), p as int);
    }
    let ghost xv = (x.0@, x.1@);
    v.insert(p, x);
    proof {
        assert(pair_views(v@) =~= s.take(p as int).push(xv) + s.skip(p as int));
    }
}

/// The queue of one batch: its header, then the pairs of `system` stably
/// sorted by instance id, each marked `queued`.
pub fn batch_queue_lines(pairs: &Vec<(String, String)>, system: &str) -> (lines: Vec<String>)
    ensures
        lines@.len() == of_system(pair_views(pairs@), system@, pairs@.len() as int).len() + 1,
        lines@[0]@ == "instance_id,system_id,status,notes"@,
        forall|k: int| 0 <= k < lines@.len() - 1 ==> (#[trigger] lines@[k + 1])@ == ({
            let p = sort_by_id(of_system(pair_views(pairs@), system@, pairs@.len() as int))[k];
            p.0 + ","@ + p.1 + ",queued,"@
        }),
{
    let ghost pv = pair_views(pairs@);
    let mut chosen: Vec<(String, String)> = Vec::new();
    let mut k: usize = 0;
    while k < pairs.len()
        invariant
            k <= pairs@.len(),
            pv == pair_views(pairs@),
            pair_views(chosen@) == sort_by_id(of_system(pv, system@, k as int)),
        decreases pairs@.len() - k,
    {
        proof {
            assert(pv[k as int] == (pairs@[k as int].0@, pairs@[k as int].1@));
        }
        if str_eq(pairs[k].1.as_str(), system) {
            let ghost before = of_system(pv, system@, k as int);
            insert_pair(&mut chosen, (owned(pairs[k].0.as_str()), owned(pairs[k].1.as_str())));
            proof {
                assert(of_system(pv, system@, k + 1) == before.push(pv[k as int]));
                assert(of_system(pv, system@, k + 1).drop_last() =~= before);
            }
        }
        k = k + 1;
    }
    let ghost sorted = sort_by_id(of_system(pv, system@, pairs@.len() as int));
    let mut lines: Vec<String> = Vec::new();
    lines.push(owned("instance_id,system_id,status,notes"));
    let mut j: usize = 0;
    while j < chosen.len()
        invariant
            j <= chosen@.len(),
            pair_views(chosen@) == sorted,
            lines@.len() == j + 1,
            lines@[0]@ == "instance_id,system_id,status,notes"@,
            forall|t: int| 0 <= t < j ==> (#[trigger] lines@[t + 1])@ == sorted[t].0 + ","@ + sorted[t].1 + ",queued,"@,
        decreases chosen@.len() - j,
    {
        let mut row = owned(chosen[j].0.as_str());
        push_all(&mut row, ",");
        push_all(&mut row, chosen[j].1.as_str());
        push_all(&mut row, ",queued,");
        proof {
            assert(sorted[j as int] == (chosen@[j as int].0@, chosen@[j as int].1@));
        }
        lines.push(row);
        j = j + 1;
    }
    proof {
        assert(pair_views(chosen@).len() == chosen@.len());
        lemma_sort_len(of_system(pv, system@, pairs@.len() as int));
    }
    lines
}


/// Pairs ordered by instance id, then system id.
pub open spec fn pair_lt(a: (Seq<char>, Seq<char>), b: (Seq<char>, Seq<char>)) -> bool {
    lex_lt(a.0, b.0) || (a.0 == b.0 && lex_lt(a.1, b.1))
}

/// Each pair comes before every later one (so none repeats).
pub open spec fn increasing(s: Seq<(Seq<char>, Seq<char>)>) -> bool {
    forall|i: int, j: int| 0 <= i < j < s.len() ==> pair_lt(#[trigger] s[i], #[trigger] s[j])
}

/// The pair order is a strict total order.
proof fn lemma_pair_order(a: (Seq<char>, Seq<char>), b: (Seq<char>, Seq<char>), c: (Seq<char>, Seq<char>))
    ensures
        !pair_lt(a, a),
        a == b || pair_lt(a, b) || pair_lt(b, a),
        !(pair_lt(a, b) && pair_lt(b, a)),
        pair_lt(a, b) && pair_lt(b, c) ==> pair_lt(a, c),
{
    lemma_lex_trichotomy(a.0, b.0);
    lemma_lex_trichotomy(a.1, b.1);
    lemma_lex_trichotomy(a.0, a.0);
    lemma_lex_trichotomy(a.1, a.1);
    if pair_lt(a, b) && pair_lt(b, c) {
        if lex_lt(a.0, b.0) && lex_lt(b.0, c.0) {
            lemma_lex_transitive(a.0, b.0, c.0);
        }
        if a.0 == b.0 && b.0 == c.0 {
            lemma_lex_transitive(a.1, b.1, c.1);
        }
    }
}

/// `pair_lt` on strings.
pub(crate) fn pair_less(a0: &str, a1: &str, b0: &str, b1: &str) -> (r: bool)
    ensures
        r == pair_lt((a0@, a1@), (b0@, b1@)),
{
    let x0 = chars_of(a0);
    let y0 = chars_of(b0);
    if chars_lt(x0.as_slice(), y0.as_slice()) {
        return true;
    }
    if !str_eq(a0, b0) {
        return false;
    }
    chars_lt(chars_of(a1).as_slice(), chars_of(b1).as_slice())
}

/// Inserts a pair into an increasing list unless it is there already.
fn insert_unique(v: &mut Vec<(String, String)>, a: &str, b: &str)
    requires
        increasing(pair_views(old(v)@)),
    ensures
        increasing(pair_views(final(v)@)),
        pair_views(final(v)@).to_set() == pair_views(old(v)@).to_set().insert((a@, b@)),
{
    let ghost s = pair_views(v@);
    let ghost x = (a@, b@);
    let mut p: usize = 0;
    while p < v.len() && pair_less(v[p].0.as_str(), v[p].1.as_str(), a, b)
        invariant
            p <= v@.len(),
            s == pair_views(v@),
            x == (a@, b@),
            forall|j: int| 0 <= j < p ==> pair_lt(#[trigger] s[j], x),
        decreases v@.len() - p,
    {
        proof {
            assert(s[p as int] == (v@[p as int].0@, v@[p as int].1@));
        }
        p = p + 1;
    }
    if p < v.len() && str_eq(v[p].0.as_str(), a) && str_eq(v[p].1.as_str(), b) {
        proof {
            assert(s[p as int] == x);
            assert(s.to_set().insert(x) =~= s.to_set());
        }
        return;
    }
    proof {
        if p < v@.len() {
            assert(s[p as int] == (v@[p as int].0@, v@[p as int].1@));
            assert(!pair_lt(s[p as int], x));
            assert(s[p as int] != x);
            lemma_pair_order(s[p as int], x, x);
            assert(pair_lt(x, s[p as int]));
        }
    }
    v.insert(p, (owned(a), owned(b)));
    proof {
        let t = pair_views(v@);
        assert(t =~= s.take(p as int).push(x) + s.skip(p as int));
        assert forall|i: int, j: int| 0 <= i < j < t.len() implies pair_lt(#[trigger] t[i], #[trigger] t[j]) by {
            if j < p {
                assert(t[i] == s[i] && t[j] == s[j]);
            } else if j == p {
                assert(t[i] == s[i] && t[j] == x);
            } else if i == p {
                assert(t[i] == x && t[j] == s[j - 1]);
                if j - 1 > p {
                    assert(pair_lt(s[p as int], s[j - 1]));
                    lemma_pair_order(x, s[p as int], s[j - 1]);
                }
            } else if i < p {
                assert(t[i] == s[i] && t[j] == s[j - 1]);
                if j - 1 < s.len() {
                    assert(pair_lt(s[i], s[j - 1]) || i == j - 1);
                }
            } else {
                assert(t[i] == s[i - 1] && t[j] == s[j - 1]);
            }
        }
        assert forall|y: (Seq<char>, Seq<char>)| t.to_set().contains(y) == s.to_set().insert(x).contains(y) by {
            if t.contains(y) {
                let i = choose|i: int| 0 <= i < t.len() && t[i] == y;
                if i < p {
                    assert(s[i] == y);
                } else if i > p {
                    assert(s[i - 1] == y);
                }
            }
            if s.contains(y) {
                let i = choose|i: int| 0 <= i < s.len() && s[i] == y;
                if i < p {
                    assert(t[i] == y);
                } else {
                    assert(t[i + 1] == y);
                }
            }
            if y == x {
                assert(t[p as int] == x);
            }
        }
        assert(t.to_set() =~= s.to_set().insert(x));
    }
}

/// Pushing a pair adds it to the set of pairs.
proof fn lemma_push_pair_to_set(s: Seq<(Seq<char>, Seq<char>)>, x: (Seq<char>, Seq<char>))
    ensures
        s.push(x).to_set() == s.to_set().insert(x),
{
    assert forall|y: (Seq<char>, Seq<char>)| s.push(x).to_set().contains(y) == s.to_set().insert(x).contains(y) by {
        if s.push(x).contains(y) {
            let i = choose|i: int| 0 <= i < s.push(x).len() && s.push(x)[i] == y;
            if i < s.len() {
                assert(s[i] == y);
            }
        }
        if s.contains(y) {
            let i = choose|i: int| 0 <= i < s.len() && s[i] == y;
            assert(s.push(x)[i] == y);
        }
        if y == x {
            assert(s.push(x)[s.len() as int] == x);
        }
    }
    assert(s.push(x).to_set() =~= s.to_set().insert(x));
}

/// The pairs listed once each, in increasing order.
pub fn sorted_pairs(pairs: &Vec<(String, String)>) -> (out: Vec<(String, String)>)
    ensures
        increasing(pair_views(out@)),
        pair_views(out@).to_set() == pair_views(pairs@).to_set(),
{
    let ghost pv = pair_views(pairs@);
    let mut out: Vec<(String, String)> = Vec::new();
    let mut k: usize = 0;
    proof {
        assert(pair_views(out@).to_set() =~= pv.take(0).to_set());
    }
    while k < pairs.len()
        invariant
            k <= pairs@.len(),
            pv == pair_views(pairs@),
            increasing(pair_views(out@)),
            pair_views(out@).to_set() == pv.take(k as int).to_set(),
        decreases pairs@.len() - k,
    {
        insert_unique(&mut out, pairs[k].0.as_str(), pairs[k].1.as_str());
        proof {
            assert(pv[k as int] == (pairs@[k as int].0@, pairs@[k as int].1@));
            assert(pv.take(k + 1) =~= pv.take(k as int).push(pv[k as int]));
            lemma_push_pair_to_set(pv.take(k as int), pv[k as int]);
        }
        k = k + 1;
    }
    proof {
        assert(pv.take(pv.len() as int) =~= pv);
    }
    out
}

/// How many of `required[..k]` `available` holds.
pub open spec fn held(required: Seq<(Seq<char>, Seq<char>)>, available: Seq<(Seq<char>, Seq<char>)>, k: int) -> nat
    decreases k,
{
    if k <= 0 || k > required.len() {
        0
    } else {
        held(required, available, k - 1) + if available.contains(required[k - 1]) { 1nat } else { 0nat }
    }
}

/// What an annotation pack covers of the pairs an experiment requires.
#[derive(Debug, Clone)]
pub struct CoverageSummary {
    /// Number of required pairs.
    pub required_pairs: usize,
    /// Number of them the pack holds.
    pub covered_pairs: usize,
    /// Number of them it lacks.
    pub missing_pairs: usize,
    /// The first (at most twenty) pairs it lacks.
    pub missing_examples: Vec<(String, String)>,
}

/// The summary when no experiment requires full coverage: all zero.
pub fn no_coverage() -> (c: CoverageSummary)
    ensures
        c.required_pairs == 0 && c.covered_pairs == 0 && c.missing_pairs == 0 && c.missing_examples@.len() == 0,
{
    CoverageSummary { required_pairs: 0, covered_pairs: 0, missing_pairs: 0, missing_examples: Vec::new() }
}

/// The summary of `required` against `available`.
pub open spec fn summary_of(c: CoverageSummary, required: Seq<(Seq<char>, Seq<char>)>, available: Seq<(Seq<char>, Seq<char>)>) -> bool {
    let lack = lacking(required, available, required.len() as int);
    &&& c.required_pairs == required.len()
    &&& c.covered_pairs == held(required, available, required.len() as int)
    &&& c.missing_pairs == required.len() - held(required, available, required.len() as int)
    &&& pair_views(c.missing_examples@) == lack.take(if lack.len() < 20 { lack.len() as int } else { 20 })
}

/// Lacking and held split the required pairs.
proof fn lemma_lacking_held(required: Seq<(Seq<char>, Seq<char>)>, available: Seq<(Seq<char>, Seq<char>)>, k: int)
    requires
        0 <= k <= required.len(),
    ensures
        lacking(required, available, k).len() + held(required, available, k) == k,
    decreases k,
{
    if k > 0 {
        lemma_lacking_held(required, available, k - 1);
    }
}

/// Coverage of the pairs an experiment requires (each instance of its
/// split with each of its systems, as a set listed in increasing order) by
/// the pairs an annotation pack holds.
pub fn annotation_coverage(instance_ids: &Vec<String>, systems: &Vec<String>, available: &Vec<(String, String)>)
    -> (c: CoverageSummary)
    ensures
        exists|listing: Seq<(Seq<char>, Seq<char>)>| increasing(listing)
            && listing.to_set() == cross(instance_ids@.map_values(|s: String| s@), systems@.map_values(|s: String| s@),
                instance_ids@.len() as int).to_set()
            && #[trigger] summary_of(c, listing, pair_views(available@)),
{
    let all = required_pairs(instance_ids, systems);
    let req = sorted_pairs(&all);
    let ghost rv = pair_views(req@);
    let ghost av = pair_views(available@);
    let missing = missing_pairs(&req, available);
    let mut examples: Vec<(String, String)> = Vec::new();
    let limit: usize = if missing.len() < 20 { missing.len() } else { 20 };
    let mut k: usize = 0;
    while k < limit
        invariant
            k <= limit <= missing@.len(),
            pair_views(examples@) == pair_views(missing@).take(k as int),
        decreases limit - k,
    {
        let ghost before = pair_views(examples@);
        examples.push((owned(missing[k].0.as_str()), owned(missing[k].1.as_str())));
        proof {
            assert(pair_views(examples@) =~= before.push(pair_views(missing@)[k as int]));
            assert(pair_views(missing@).take(k + 1) =~= pair_views(missing@).take(k as int).push(pair_views(missing@)[k as int]));
        }
        k = k + 1;
    }
    proof {
        lemma_lacking_held(rv, av, rv.len() as int);
    }
    let covered = req.len() - missing.len();
    let c = CoverageSummary {
        required_pairs: req.len(),
        covered_pairs: covered,
        missing_pairs: missing.len(),
        missing_examples: examples,
    };
    proof {
        assert(summary_of(c, rv, av));
    }
    c
}

} // verus!
