//! The dashboard's per-key summaries (by gap reason, by system, by family)
//! and the execution plan's tracks: the global batch grouped by gap reason,
//! each group ranked and cut to eight.

use vstd::prelude::*;
use crate::text::{chars_of, str_eq, string_from_chars};
use crate::prompts::{lex_lt, chars_lt, lemma_lex_trichotomy, lemma_lex_transitive};
use crate::dashboard::WorkItem;

verus! {

/// Keys in strictly ascending order (so none repeats).
pub open spec fn ascending(s: Seq<Seq<char>>) -> bool {
    forall|i: int, j: int| 0 <= i < j < s.len() ==> lex_lt(#[trigger] s[i], #[trigger] s[j])
}

/// The strings as plain text.
pub open spec fn string_views(v: Seq<String>) -> Seq<Seq<char>> {
    v.map_values(|s: String| s@)
}

/// A copy of `s`.
fn owned(s: &str) -> (out: String)
    ensures
        out@ == s@,
{
    string_from_chars(&chars_of(s))
}

/// Inserts a key into an ascending list unless it is there already.
fn insert_key(v: &mut Vec<String>, key: &str)
    requires
        ascending(string_views(old(v)@)),
    ensures
        ascending(string_views(final(v)@)),
        string_views(final(v)@).to_set() == string_views(old(v)@).to_set().insert(key@),
{
    let ghost s = string_views(v@);
    let ghost x = key@;
    let kc = chars_of(key);
    let mut p: usize = 0;
    while p < v.len() && chars_lt(chars_of(v[p].as_str()).as_slice(), kc.as_slice())
        invariant
            p <= v@.len(),
            s == string_views(v@),
            x == key@,
            kc@ == key@,
            forall|j: int| 0 <= j < p ==> lex_lt(#[trigger] s[j], x),
        decreases v@.len() - p,
    {
        proof {
            assert(s[p as int] == v@[p as int]@);
        }
        p = p + 1;
    }
    if p < v.len() && str_eq(v[p].as_str(), key) {
        proof {
            assert(s[p as int] == x);
            assert(s.to_set().insert(x) =~= s.to_set());
        }
        return;
    }
    proof {
        if p < v@.len() {
            assert(s[p as int] == v@[p as int]@);
            lemma_lex_trichotomy(s[p as int], x);
            assert(lex_lt(x, s[p as int]));
        }
    }
    v.insert(p, owned(key));
    proof {
        let t = string_views(v@);
        assert(t =~= s.take(p as int).push(x) + s.skip(p as int));
        assert forall|i: int, j: int| 0 <= i < j < t.len() implies lex_lt(#[trigger] t[i], #[trigger] t[j]) by {
            if j < p {
                assert(t[i] == s[i] && t[j] == s[j]);
            } else if j == p {
                assert(t[i] == s[i] && t[j] == x);
            } else if i == p {
                assert(t[i] == x && t[j] == s[j - 1]);
                if j - 1 > p {
                    assert(lex_lt(s[p as int], s[j - 1]));
                    lemma_lex_transitive(x, s[p as int], s[j - 1]);
                }
            } else if i < p {
                assert(t[i] == s[i] && t[j] == s[j - 1]);
            } else {
                assert(t[i] == s[i - 1] && t[j] == s[j - 1]);
            }
        }
        assert forall|y: Seq<char>| t.to_set().contains(y) == s.to_set().insert(x).contains(y) by {
            if t.contains(y) {
                let i = choose|i: int| 0 <= i < t.len() && t[i] == y;
                if i < p {
                    assert(s[i] == y);
                } else if i > p {
                    assert(s[i - 1] == y);
                }
            }
            if s.contains(y) {
                let i = choose|i: int| 0 <= i < s.len() && s[i] == y;
                if i < p {
                    assert(t[i] == y);
                } else {
                    assert(t[i + 1] == y);
                }
            }
            if y == x {
                assert(t[p as int] == x);
            }
        }
        assert(t.to_set() =~= s.to_set().insert(x));
    }
}

/// Pushing a key adds it to the set of keys.
proof fn lemma_push_to_set(s: Seq<Seq<char>>, x: Seq<char>)
    ensures
        s.push(x).to_set() == s.to_set().insert(x),
{
    assert forall|y: Seq<char>| s.push(x).to_set().contains(y) == s.to_set().insert(x).contains(y) by {
        if s.push(x).contains(y) {
            let i = choose|i: int| 0 <= i < s.push(x).len() && s.push(x)[i] == y;
            if i < s.len() {
                assert(s[i] == y);
            }
        }
        if s.contains(y) {
            let i = choose|i: int| 0 <= i < s.len() && s[i] == y;
            assert(s.push(x)[i] == y);
        }
        if y == x {
            assert(s.push(x)[s.len() as int] == x);
        }
    }
    assert(s.push(x).to_set() =~= s.to_set().insert(x));
}

/// The keys listed once each, in ascending order.
pub fn distinct_keys(keys: &Vec<String>) -> (out: Vec<String>)
    ensures
        ascending(string_views(out@)),
        string_views(out@).to_set() == string_views(keys@).to_set(),
{
    let ghost kv = string_views(keys@);
    let mut out: Vec<String> = Vec::new();
    let mut k: usize = 0;
    proof {
        assert(string_views(out@).to_set() =~= kv.take(0).to_set());
    }
    while k < keys.len()
        invariant
            k <= keys@.len(),
            kv == string_views(keys@),
            ascending(string_views(out@)),
            string_views(out@).to_set() == kv.take(k as int).to_set(),
        decreases keys@.len() - k,
    {
        insert_key(&mut out, keys[k].as_str());
        proof {
            assert(kv[k as int] == keys@[k as int]@);
            assert(kv.take(k + 1) =~= kv.take(k as int).push(kv[k as int]));
            lemma_push_to_set(kv.take(k as int), kv[k as int]);
        }
        k = k + 1;
    }
    proof {
        assert(kv.take(kv.len() as int) =~= kv);
    }
    out
}

/// A packet as a summary counts it: its key, whether it elaborated, and
/// its placeholder proofs.
pub open spec fn entry_views(v: Seq<(String, bool, u64)>) -> Seq<(Seq<char>, bool, u64)> {
    v.map_values(|e: (String, bool, u64)| (e.0@, e.1, e.2))
}

/// How many entries have key `key`.
pub open spec fn key_total(s: Seq<(Seq<char>, bool, u64)>, key: Seq<char>) -> nat
    decreases s.len(),
{
    if s.len() == 0 { 0 } else { key_total(s.drop_last(), key) + if s.last().0 == key { 1nat } else { 0nat } }
}

/// How many entries with key `key` elaborated.
pub open spec fn key_elaborated(s: Seq<(Seq<char>, bool, u64)>, key: Seq<char>) -> nat
    decreases s.len(),
{
    if s.len() == 0 {
        0
    } else {
        key_elaborated(s.drop_last(), key) + if s.last().0 == key && s.last().1 { 1nat } else { 0nat }
    }
}

/// The placeholder proofs of the entries with key `key`.
pub open spec fn key_admits(s: Seq<(Seq<char>, bool, u64)>, key: Seq<char>) -> nat
    decreases s.len(),
{
    if s.len() == 0 {
        0
    } else {
        key_admits(s.drop_last(), key) + if s.last().0 == key { s.last().2 as nat } else { 0nat }
    }
}

/// The placeholder proofs of all entries.
pub open spec fn all_admits(s: Seq<(Seq<char>, bool, u64)>) -> nat
    decreases s.len(),
{
    if s.len() == 0 { 0 } else { all_admits(s.drop_last()) + s.last().2 as nat }
}

/// One key's line of a summary.
#[derive(Debug, Clone)]
pub struct KeySummary {
    /// The key (a gap reason, a system id or a family).
    pub key: String,
    /// Packets with the key.
    pub total: u64,
    /// Of those, the elaborated ones.
    pub elaborated: u64,
    /// Their placeholder proofs together.
    pub admit_debt: u64,
}

/// The keys of a summary.
pub open spec fn summary_keys(v: Seq<KeySummary>) -> Seq<Seq<char>> {
    v.map_values(|e: KeySummary| e.key@)
}

/// The keys of the entries.
pub open spec fn entry_keys(s: Seq<(Seq<char>, bool, u64)>) -> Seq<Seq<char>> {
    s.map_values(|e: (Seq<char>, bool, u64)| e.0)
}

/// A prefix has no more placeholder proofs than the whole.
proof fn lemma_prefix_admits(s: Seq<(Seq<char>, bool, u64)>, k: int)
    requires
        0 <= k <= s.len(),
    ensures
        all_admits(s.take(k)) <= all_admits(s),
    decreases s.len() - k,
{
    if k < s.len() {
        lemma_prefix_admits(s, k + 1);
        assert(s.take(k + 1).drop_last() =~= s.take(k));
    } else {
        assert(s.take(k) =~= s);
    }
}

/// One key's placeholder proofs are no more than all of them.
proof fn lemma_key_admits_bounded(s: Seq<(Seq<char>, bool, u64)>, key: Seq<char>)
    ensures
        key_admits(s, key) <= all_admits(s),
        key_elaborated(s, key) <= key_total(s, key),
        key_total(s, key) <= s.len(),
    decreases s.len(),
{
    if s.len() > 0 {
        lemma_key_admits_bounded(s.drop_last(), key);
    }
}

/// Counts the entries with key `key`.
fn count_key(entries: &Vec<(String, bool, u64)>, key: &str) -> (r: (u64, u64, u64))
    requires
        all_admits(entry_views(entries@)) <= u64::MAX,
    ensures
        r.0 == key_total(entry_views(entries@), key@),
        r.1 == key_elaborated(entry_views(entries@), key@),
        r.2 == key_admits(entry_views(entries@), key@),
{
    let ghost ev = entry_views(entries@);
    let mut total: u64 = 0;
    let mut elaborated: u64 = 0;
    let mut admits: u64 = 0;
    let mut k: usize = 0;
    while k < entries.len()
        invariant
            k <= entries@.len(),
            ev == entry_views(entries@),
            all_admits(ev) <= u64::MAX,
            total == key_total(ev.take(k as int), key@),
            elaborated == key_elaborated(ev.take(k as int), key@),
            admits == key_admits(ev.take(k as int), key@),
        decreases entries@.len() - k,
    {
        proof {
            let t = ev.take(k + 1);
            assert(t.drop_last() =~= ev.take(k as int));
            assert(ev[k as int] == (entries@[k as int].0@, entries@[k as int].1, entries@[k as int].2));
            lemma_key_admits_bounded(t, key@);
            lemma_prefix_admits(ev, k + 1);
            assert(k + 1 <= usize::MAX);
        }
        if str_eq(entries[k].0.as_str(), key) {
            total = total + 1;
            if entries[k].1 {
                elaborated = elaborated + 1;
            }
            admits = admits + entries[k].2;
        }
        k = k + 1;
    }
    proof {
        assert(ev.take(ev.len() as int) =~= ev);
    }
    (total, elaborated, admits)
}

/// The summary of the entries by key: each key once, in ascending order,
/// with its packets, elaborated packets and placeholder proofs.
pub fn summarize_by_key(entries: &Vec<(String, bool, u64)>) -> (out: Vec<KeySummary>)
    requires
        all_admits(entry_views(entries@)) <= u64::MAX,
    ensures
        ascending(summary_keys(out@)),
        summary_keys(out@).to_set() == entry_keys(entry_views(entries@)).to_set(),
        forall|i: int| 0 <= i < out@.len() ==> {
            let e = #[trigger] out@[i];
            &&& e.total == key_total(entry_views(entries@), e.key@)
            &&& e.elaborated == key_elaborated(entry_views(entries@), e.key@)
            &&& e.admit_debt == key_admits(entry_views(entries@), e.key@)
        },
{
    let ghost ev = entry_views(entries@);
    let mut keys: Vec<String> = Vec::new();
    let mut k: usize = 0;
    while k < entries.len()
        invariant
            k <= entries@.len(),
            ev == entry_views(entries@),
            string_views(keys@) == entry_keys(ev.take(k as int)),
        decreases entries@.len() - k,
    {
        let ghost before = string_views(keys@);
        keys.push(owned(entries[k].0.as_str()));
        proof {
            assert(ev[k as int].0 == entries@[k as int].0@);
            assert(ev.take(k + 1) =~= ev.take(k as int).push(ev[k as int]));
            assert(entry_keys(ev.take(k + 1)) =~= entry_keys(ev.take(k as int)).push(ev[k as int].0));
            assert(string_views(keys@) =~= before.push(entries@[k as int].0@));
            assert(string_views(keys@) =~= entry_keys(ev.take(k + 1)));
        }
        k = k + 1;
    }
    proof {
        assert(ev.take(ev.len() as int) =~= ev);
    }
    let sorted = distinct_keys(&keys);
    let mut out: Vec<KeySummary> = Vec::new();
    let mut j: usize = 0;
    while j < sorted.len()
        invariant
            j <= sorted@.len(),
            ev == entry_views(entries@),
            all_admits(ev) <= u64::MAX,
            out@.len() == j,
            forall|i: int| 0 <= i < j ==> (#[trigger] out@[i]).key@ == sorted@[i]@,
            forall|i: int| 0 <= i < j ==> {
                let e = #[trigger] out@[i];
                &&& e.total == key_total(ev, e.key@)
                &&& e.elaborated == key_elaborated(ev, e.key@)
                &&& e.admit_debt == key_admits(ev, e.key@)
            },
        decreases sorted@.len() - j,
    {
        let (total, elaborated, admit_debt) = count_key(entries, sorted[j].as_str());
        out.push(KeySummary { key: owned(sorted[j].as_str()), total, elaborated, admit_debt });
        j = j + 1;
    }
    proof {
        assert(summary_keys(out@) =~= string_views(sorted@));
    }
    out
}

/// A worklist row as plain values: instance, system, family, admits, proof
/// mode, gap reason, packet path, scaffold path.
pub type WorkView = (Seq<char>, Seq<char>, Seq<char>, u64, Seq<char>, Seq<char>, Seq<char>, Seq<char>);

/// A worklist row as plain values.
pub open spec fn work_view(w: WorkItem) -> WorkView {
    (w.instance_id@, w.system_id@, w.family@, w.admit_count, w.proof_mode@, w.gap_reason@, w.packet_path@, w.scaffold_path@)
}

/// Worklist rows as plain values.
pub open spec fn work_views(v: Seq<WorkItem>) -> Seq<WorkView> {
    v.map_values(|w: WorkItem| work_view(w))
}

/// `a` ranks strictly before `b` within a track: more placeholder proofs
/// first, then by family, system id and instance id.
pub open spec fn track_before(a: WorkView, b: WorkView) -> bool {
    if a.3 != b.3 {
        a.3 > b.3
    } else if a.2 != b.2 {
        lex_lt(a.2, b.2)
    } else if a.1 != b.1 {
        lex_lt(a.1, b.1)
    } else {
        lex_lt(a.0, b.0)
    }
}

/// `s` with `x` inserted after every entry it does not rank before.
pub open spec fn insert_track(s: Seq<WorkView>, x: WorkView) -> Seq<WorkView>
    decreases s.len(),
{
    if s.len() == 0 {
        seq![x]
    } else if !track_before(x, s.last()) {
        s.push(x)
    } else {
        insert_track(s.drop_last(), x).push(s.last())
    }
}

/// `s` stably sorted in track order.
pub open spec fn rank_track(s: Seq<WorkView>) -> Seq<WorkView>
    decreases s.len(),
{
    if s.len() == 0 {
        Seq::empty()
    } else {
        insert_track(rank_track(s.drop_last()), s.last())
    }
}

/// The rows of `s` with gap reason `reason`, in order.
pub open spec fn with_reason(s: Seq<WorkView>, reason: Seq<char>) -> Seq<WorkView>
    decreases s.len(),
{
    if s.len() == 0 {
        Seq::empty()
    } else if s.last().5 == reason {
        with_reason(s.drop_last(), reason).push(s.last())
    } else {
        with_reason(s.drop_last(), reason)
    }
}

/// The first eight of `s` (all of it when shorter).
pub open spec fn first_eight(s: Seq<WorkView>) -> Seq<WorkView> {
    if s.len() <= 8 { s } else { s.take(8) }
}

/// The gap reasons of the rows.
pub open spec fn reasons_of(s: Seq<WorkView>) -> Seq<Seq<char>> {
    s.map_values(|w: WorkView| w.5)
}

/// Where `insert_track` puts `x`, found by scanning back from the end.
proof fn lemma_insert_track_at(s: Seq<WorkView>, x: WorkView, p: int)
    requires
        0 <= p <= s.len(),
        p == 0 || !track_before(x, s[p - 1]),
        forall|j: int| p <= j < s.len() ==> track_before(x, #[trigger] s[j]),
    ensures
        insert_track(s, x) == s.take(p).push(x) + s.skip(p),
    decreases s.len() - p,
{
    if s.len() == p {
        if s.len() == 0 {
            assert(s.take(p).push(x) + s.skip(p) =~= seq![x]);
        } else {
            assert(s.take(p) =~= s);
            assert(s.take(p).push(x) + s.skip(p) =~= s.push(x));
        }
    } else {
        assert(track_before(x, s.last()));
        let t = s.drop_last();
        assert forall|j: int| p <= j < t.len() implies track_before(x, #[trigger] t[j]) by {
            assert(t[j] == s[j]);
        }
        if p > 0 {
            assert(t[p - 1] == s[p - 1]);
        }
        lemma_insert_track_at(t, x, p);
        assert(t.take(p) =~= s.take(p));
        assert((t.take(p).push(x) + t.skip(p)).push(s.last()) =~= s.take(p).push(x) + s.skip(p));
    }
}

/// `track_before` on rows.
fn track_ranks_before(a: &WorkItem, b: &WorkItem) -> (r: bool)
    ensures
        r == track_before(work_view(*a), work_view(*b)),
{
    if a.admit_count != b.admit_count {
        a.admit_count > b.admit_count
    } else if !str_eq(a.family.as_str(), b.family.as_str()) {
        chars_lt(chars_of(a.family.as_str()).as_slice(), chars_of(b.family.as_str()).as_slice())
    } else if !str_eq(a.system_id.as_str(), b.system_id.as_str()) {
        chars_lt(chars_of(a.system_id.as_str()).as_slice(), chars_of(b.system_id.as_str()).as_slice())
    } else {
        chars_lt(chars_of(a.instance_id.as_str()).as_slice(), chars_of(b.instance_id.as_str()).as_slice())
    }
}

/// A copy of a worklist row.
fn copy_work(w: &WorkItem) -> (c: WorkItem)
    ensures
        work_view(c) == work_view(*w),
{
    WorkItem {
        instance_id: owned(w.instance_id.as_str()),
        system_id: owned(w.system_id.as_str()),
        family: owned(w.family.as_str()),
        admit_count: w.admit_count,
        proof_mode: owned(w.proof_mode.as_str()),
        gap_reason: owned(w.gap_reason.as_str()),
        packet_path: owned(w.packet_path.as_str()),
        scaffold_path: owned(w.scaffold_path.as_str()),
    }
}

/// The rows with gap reason `reason`, ranked in track order.
fn ranked_with_reason(items: &Vec<WorkItem>, reason: &str) -> (out: Vec<WorkItem>)
    ensures
        work_views(out@) == rank_track(with_reason(work_views(items@), reason@)),
{
    let ghost iv = work_views(items@);
    let mut out: Vec<WorkItem> = Vec::new();
    let mut k: usize = 0;
    while k < items.len()
        invariant
            k <= items@.len(),
            iv == work_views(items@),
            work_views(out@) == rank_track(with_reason(iv.take(k as int), reason@)),
        decreases items@.len() - k,
    {
        let x = &items[k];
        proof {
            assert(iv[k as int] == work_view(*x));
            assert(iv.take(k + 1).drop_last() =~= iv.take(k as int));
        }
        if str_eq(x.gap_reason.as_str(), reason) {
            let ghost s = work_views(out@);
            let mut p = out.len();
            while p > 0 && track_ranks_before(x, &out[p - 1])
                invariant
                    p <= out@.len(),
                    s == work_views(out@),
                    forall|j: int| p <= j < s.len() ==> track_before(work_view(*x), #[trigger] s[j]),
                decreases p,
            {
                p = p - 1;
            }
            proof {
                lemma_insert_track_at(s, work_view(*x), p as int);
                assert(with_reason(iv.take(k + 1), reason@).drop_last() == with_reason(iv.take(k as int), reason@));
            }
            let ghost xv = work_view(*x);
            out.insert(p, copy_work(x));
            proof {
                assert(work_views(out@) =~= s.take(p as int).push(xv) + s.skip(p as int));
            }
        }
        k = k + 1;
    }
    proof {
        assert(iv.take(iv.len() as int) =~= iv);
    }
    out
}

/// One track of the execution plan.
#[derive(Debug, Clone)]
pub struct Track {
    /// The gap reason that the track's rows share.
    pub gap_reason: String,
    /// Its rows, ranked, at most eight.
    pub items: Vec<WorkItem>,
}

/// The gap reasons of the tracks.
pub open spec fn track_reasons(v: Seq<Track>) -> Seq<Seq<char>> {
    v.map_values(|t: Track| t.gap_reason@)
}

/// The execution plan's tracks: one per gap reason of the rows, in
/// ascending order of reason, each holding the first eight of its rows in
/// track order.
pub fn execution_tracks(items: &Vec<WorkItem>) -> (out: Vec<Track>)
    ensures
        ascending(track_reasons(out@)),
        track_reasons(out@).to_set() == reasons_of(work_views(items@)).to_set(),
        forall|i: int| 0 <= i < out@.len() ==> work_views((#[trigger] out@[i]).items@)
            == first_eight(rank_track(with_reason(work_views(items@), out@[i].gap_reason@))),
{
    let ghost iv = work_views(items@);
    let mut reasons: Vec<String> = Vec::new();
    let mut k: usize = 0;
    while k < items.len()
        invariant
            k <= items@.len(),
            iv == work_views(items@),
            string_views(reasons@) == reasons_of(iv.take(k as int)),
        decreases items@.len() - k,
    {
        let ghost before = string_views(reasons@);
        reasons.push(owned(items[k].gap_reason.as_str()));
        proof {
            assert(iv[k as int] == work_view(items@[k as int]));
            assert(iv.take(k + 1) =~= iv.take(k as int).push(iv[k as int]));
            assert(reasons_of(iv.take(k + 1)) =~= reasons_of(iv.take(k as int)).push(iv[k as int].5));
            assert(string_views(reasons@) =~= before.push(items@[k as int].gap_reason@));
        }
        k = k + 1;
    }
    proof {
        assert(iv.take(iv.len() as int) =~= iv);
    }
    let sorted = distinct_keys(&reasons);
    let mut out: Vec<Track> = Vec::new();
    let mut j: usize = 0;
    while j < sorted.len()
        invariant
            j <= sorted@.len(),
            iv == work_views(items@),
            out@.len() == j,
            forall|i: int| 0 <= i < j ==> (#[trigger] out@[i]).gap_reason@ == sorted@[i]@,
            forall|i: int| 0 <= i < j ==> work_views((#[trigger] out@[i]).items@)
                == first_eight(rank_track(with_reason(iv, out@[i].gap_reason@))),
        decreases sorted@.len() - j,
    {
        let mut ranked = ranked_with_reason(items, sorted[j].as_str());
        let ghost whole = work_views(ranked@);
        ranked.truncate(8);
        proof {
            if whole.len() > 8 {
                assert(work_views(ranked@) =~= whole.take(8));
            } else {
                assert(work_views(ranked@) =~= whole);
            }
        }
        out.push(Track { gap_reason: owned(sorted[j].as_str()), items: ranked });
        j = j + 1;
    }
    proof {
        assert(track_reasons(out@) =~= string_views(sorted@));
    }
    out
}

} // verus!
