//! The checks a review packet must pass before its verification summary is
//! signed: the schema, a non-empty obligation list, the required files of
//! its directory and a raw model output that is not blank.

use vstd::prelude::*;
use crate::lean_text::{is_ws, ws_char};
use crate::lint::{path_push, push_path};
use crate::text::{chars_of, push_all, string_from_chars, string_push};
use crate::lean::{decimal, decimal_string};

verus! {

/// The files every packet directory must hold, in the order they are
/// checked.
pub open spec fn required_files() -> Seq<Seq<char>> {
    seq![
        "packet.json"@, "semantic_units.json"@, "reference_obligations.json"@, "generated_output.json"@,
        "raw_output.txt"@, "scaffold.lean"@, "reference.rs"@, "rust_summary.json"@, "lean_diagnostics.json"@,
        "behavior_report.json"@,
    ]
}

/// The required file `k` (`required_files()[k]`).
pub fn required_file(k: usize) -> (name: &'static str)
    requires
        k < 10,
    ensures
        name@ == required_files()[k as int],
{
    let name = if k == 0 {
        "packet.json"
    } else if k == 1 {
        "semantic_units.json"
    } else if k == 2 {
        "reference_obligations.json"
    } else if k == 3 {
        "generated_output.json"
    } else if k == 4 {
        "raw_output.txt"
    } else if k == 5 {
        "scaffold.lean"
    } else if k == 6 {
        "reference.rs"
    } else if k == 7 {
        "rust_summary.json"
    } else if k == 8 {
        "lean_diagnostics.json"
    } else {
        "behavior_report.json"
    };
    proof {
        reveal_strlit("packet.json");
        reveal_strlit("semantic_units.json");
        reveal_strlit("reference_obligations.json");
        reveal_strlit("generated_output.json");
        reveal_strlit("raw_output.txt");
        reveal_strlit("scaffold.lean");
        reveal_strlit("reference.rs");
        reveal_strlit("rust_summary.json");
        reveal_strlit("lean_diagnostics.json");
        reveal_strlit("behavior_report.json");
    }
    name
}

/// Every character is white space (so `str::trim` leaves nothing).
pub open spec fn blank(t: Seq<char>) -> bool {
    forall|i: int| 0 <= i < t.len() ==> is_ws(#[trigger] t[i])
}

/// The missing-file messages for the first `k` required files.
pub open spec fn missing_files(dir: Seq<char>, present: Seq<bool>, k: int) -> Seq<Seq<char>>
    decreases k,
{
    if k <= 0 {
        Seq::empty()
    } else if present[k - 1] {
        missing_files(dir, present, k - 1)
    } else {
        missing_files(dir, present, k - 1).push("missing required file: "@ + path_push(dir, required_files()[k - 1]))
    }
}

/// The issues of a packet, in order: the schema's complaint, an empty
/// obligation list, each required file that is missing, a blank raw output.
pub open spec fn packet_issues(
    dir: Seq<char>,
    schema_error: Option<Seq<char>>,
    has_obligations: bool,
    present: Seq<bool>,
    raw_output: Option<Seq<char>>,
) -> Seq<Seq<char>> {
    (match schema_error { Some(e) => seq![e], None => Seq::empty() })
        + (if has_obligations { Seq::empty() } else { seq!["generated_obligations must be non-empty"@] })
        + missing_files(dir, present, 10)
        + (match raw_output {
            Some(t) => if blank(t) {
                seq!["empty raw_output.txt: "@ + path_push(dir, "raw_output.txt"@)]
            } else {
                Seq::empty()
            },
            None => Seq::empty(),
        })
}

/// The strings as plain text.
pub open spec fn texts(v: Seq<String>) -> Seq<Seq<char>> {
    v.map_values(|s: String| s@)
}

/// `prefix` followed by `dir` with `file` pushed onto it.
fn message_with_path(prefix: &str, dir: &str, file: &str) -> (out: String)
    ensures
        out@ == prefix@ + path_push(dir@, file@),
{
    let mut path = string_from_chars(&chars_of(dir));
    push_path(&mut path, file);
    let mut out = string_from_chars(&chars_of(prefix));
    push_all(&mut out, path.as_str());
    out
}

/// Whether every character of `t` is white space.
fn is_blank(t: &str) -> (b: bool)
    ensures
        b == blank(t@),
{
    let cs = chars_of(t);
    let mut i: usize = 0;
    while i < cs.len()
        invariant
            i <= cs@.len(),
            cs@ == t@,
            forall|j: int| 0 <= j < i ==> is_ws(#[trigger] t@[j]),
        decreases cs@.len() - i,
    {
        if !ws_char(cs[i]) {
            return false;
        }
        i = i + 1;
    }
    true
}

/// The issues of a packet in directory `dir` (see `packet_issues`):
/// `schema_error` is what the schema check reported, `present[k]` says
/// whether required file `k` is there, `raw_output` is the raw output's
/// text when that file is there.
pub fn review_packet_issues(
    dir: &str,
    schema_error: Option<&str>,
    has_obligations: bool,
    present: &[bool],
    raw_output: Option<&str>,
) -> (out: Vec<String>)
    requires
        present@.len() == 10,
    ensures
        texts(out@) == packet_issues(
            dir@,
            match schema_error { Some(e) => Some(e@), None => None },
            has_obligations,
            present@,
            match raw_output { Some(t) => Some(t@), None => None },
        ),
{
    let mut out: Vec<String> = Vec::new();
    if let Some(e) = schema_error {
        out.push(string_from_chars(&chars_of(e)));
    }
    if !has_obligations {
        out.push(string_from_chars(&chars_of("generated_obligations must be non-empty")));
    }
    let ghost head = texts(out@);
    assert(head =~= (match schema_error { Some(e) => seq![e@], None => Seq::<Seq<char>>::empty() })
        + (if has_obligations { Seq::empty() } else { seq!["generated_obligations must be non-empty"@] }));
    let mut k: usize = 0;
    while k < 10
        invariant
            k <= 10,
            present@.len() == 10,
            texts(out@) == head + missing_files(dir@, present@, k as int),
        decreases 10 - k,
    {
        if !present[k] {
            let ghost before = texts(out@);
            out.push(message_with_path("missing required file: ", dir, required_file(k)));
            proof {
                assert(texts(out@) =~= before.push("missing required file: "@ + path_push(dir@, required_files()[k as int])));
            }
        }
        proof {
            assert(texts(out@) =~= head + missing_files(dir@, present@, k + 1));
        }
        k = k + 1;
    }
    let ghost mid = texts(out@);
    if let Some(t) = raw_output {
        if is_blank(t) {
            out.push(message_with_path("empty raw_output.txt: ", dir, "raw_output.txt"));
            assert(texts(out@) =~= mid + seq!["empty raw_output.txt: "@ + path_push(dir@, "raw_output.txt"@)]);
        } else {
            assert(texts(out@) =~= mid + Seq::empty());
        }
    } else {
        assert(texts(out@) =~= mid + Seq::empty());
    }
    assert(texts(out@) =~= packet_issues(
        dir@,
        match schema_error { Some(e) => Some(e@), None => None },
        has_obligations,
        present@,
        match raw_output { Some(t) => Some(t@), None => None },
    ));
    out
}


/// The positions, in order, of the packets among the first `k` whose
/// issue list is not empty.
pub open spec fn failing_packets(issues: Seq<Vec<String>>, k: int) -> Seq<usize>
    decreases k,
{
    if k <= 0 {
        Seq::empty()
    } else if issues[k - 1]@.len() > 0 {
        failing_packets(issues, k - 1).push((k - 1) as usize)
    } else {
        failing_packets(issues, k - 1)
    }
}

/// The totals of a verification run over review packets.
#[derive(Debug)]
pub struct PacketTally {
    /// Packets checked.
    pub total: usize,
    /// Packets with no issue.
    pub passed: usize,
    /// Positions of the packets with issues, in order.
    pub failed: Vec<usize>,
}

/// Tallies the issue lists of the packets, one list per packet in path
/// order: a packet passes when its list is empty.
pub fn tally_packets(issues: &Vec<Vec<String>>) -> (t: PacketTally)
    ensures
        t.total == issues@.len(),
        t.failed@ == failing_packets(issues@, issues@.len() as int),
        t.passed + t.failed@.len() == t.total,
{
    let mut failed: Vec<usize> = Vec::new();
    let mut passed: usize = 0;
    let mut k: usize = 0;
    while k < issues.len()
        invariant
            k <= issues@.len(),
            failed@ == failing_packets(issues@, k as int),
            passed + failed@.len() == k,
        decreases issues@.len() - k,
    {
        if issues[k].len() > 0 {
            failed.push(k);
        } else {
            passed = passed + 1;
        }
        k = k + 1;
    }
    PacketTally { total: issues.len(), passed, failed }
}

/// The refusal when packets failed: `packet verification failed: <n>
/// packet(s) have issues; see <summary path>`.
pub open spec fn failed_run_message(n: nat, summary_path: Seq<char>) -> Seq<char> {
    "packet verification failed: "@ + decimal(n) + " packet(s) have issues; see "@ + summary_path
}

/// A verification run succeeds exactly when no packet failed; otherwise it
/// is refused, naming how many failed and where the signed summary is.
pub fn verification_outcome(t: &PacketTally, summary_path: &str) -> (r: Result<(), String>)
    ensures
        t.failed@.len() == 0 <==> r is Ok,
        r matches Err(m) ==> m@ == failed_run_message(t.failed@.len(), summary_path@),
{
    let n = t.failed.len();
    if n == 0 {
        return Ok(());
    }
    let mut m = string_from_chars(&chars_of("packet verification failed: "));
    let digits = decimal_string(n as u64);
    let ghost before = m@;
    let mut i: usize = 0;
    while i < digits.len()
        invariant
            i <= digits@.len(),
            m@ == before + digits@.take(i as int),
        decreases digits@.len() - i,
    {
        string_push(&mut m, digits[i]);
        proof {
            assert(digits@.take(i as int + 1) =~= digits@.take(i as int).push(digits@[i as int]));
        }
        i = i + 1;
    }
    assert(digits@.take(digits@.len() as int) =~= digits@);
    push_all(&mut m, " packet(s) have issues; see ");
    push_all(&mut m, summary_path);
    Err(m)
}

} // verus!
