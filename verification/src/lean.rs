use vstd::prelude::*;
use crate::basics::ids::{InstanceId, SystemId};
use crate::text::{chars_of, push_all, string_from_chars, string_push, str_eq};
use crate::cli_rules::{path_join, join_path};

verus! {

/// Errors produced by Lean integration, apart from I/O failures.
#[derive(Debug)]
pub enum LeanError {
    /// The Lean toolchain could not be invoked.
    Toolchain(String),
    /// Failed to parse Lean diagnostics.
    DiagnosticsParse(String),
    /// The Lean subprocess exceeded the configured timeout (milliseconds).
    Timeout(u64),
}

/// Request to elaborate a generated Lean file.
#[derive(Debug, Clone)]
pub struct ElaborateRequest {
    /// Lean toolchain invocation (`lake` binary, typically).
    pub lake_bin: String,
    /// Working directory for the Lean project (contains `lakefile.lean`).
    pub lean_project_dir: String,
    /// Path to the file to elaborate.
    pub file_path: String,
    /// Hard timeout for the entire Lean subprocess, in milliseconds.
    pub timeout_ms: u64,
}

/// Single normalized diagnostic line.
#[derive(Debug, Clone)]
pub struct Diagnostic {
    /// Severity reported by Lean: `"error"`, `"warning"` or `"info"`.
    pub severity: String,
    /// 1-indexed line number, if parsed.
    pub line: Option<u32>,
    /// 1-indexed column, if parsed.
    pub column: Option<u32>,
    /// Coarse error class (see [`classify_error`]).
    pub error_class: String,
    /// First line of the diagnostic message.
    pub message: String,
    /// Any continuation lines that belong to this diagnostic.
    pub message_tail: Vec<String>,
}

/// Result of an elaboration attempt.
#[derive(Debug, Clone)]
pub struct ElaborateResult {
    /// Whether the file elaborated cleanly (exit 0, no error-severity diagnostics).
    pub elaborates: bool,
    /// Structured diagnostics.
    pub diagnostics: Vec<Diagnostic>,
    /// Raw stdout captured from the Lean process.
    pub stdout: String,
    /// Raw stderr captured from the Lean process.
    pub stderr: String,
    /// Exit code if the process finished, `None` if it was killed.
    pub exit_code: Option<i32>,
    /// Path to the file elaborated.
    pub file_path: String,
    /// Theorem names declared in the source file.
    pub theorem_names: Vec<String>,
}

/// Decimal digits of `n`, most significant first, without leading zeros.
pub open spec fn decimal(n: nat) -> Seq<char>
    decreases n,
{
    if n < 10 {
        seq![digit_of(n)]
    } else {
        decimal(n / 10).push(digit_of(n % 10))
    }
}

/// The digit character for `d < 10`.
pub open spec fn digit_of(d: nat) -> char {
    ((d + 48) as u8) as char
}

/// `n` in decimal with at least two digits (zero-padded).
pub open spec fn two_digit(n: nat) -> Seq<char> {
    if n < 10 { seq!['0'] + decimal(n) } else { decimal(n) }
}

/// Decimal rendering of `n`.
pub(crate) fn decimal_string(n: u64) -> (out: Vec<char>)
    ensures
        out@ == decimal(n as nat),
    decreases n,
{
    if n < 10 {
        let mut v: Vec<char> = Vec::new();
        v.push(((n as u8) + 48) as char);
        v
    } else {
        let mut v = decimal_string(n / 10);
        v.push((((n % 10) as u8) + 48) as char);
        v
    }
}

/// Deterministic theorem name `<instance>__<system>__obl_<index>`, with the
/// index written in at least two digits.
pub fn theorem_name(instance: &InstanceId, system: &SystemId, index: u32) -> (name: String)
    ensures
        name@ == instance@ + "__"@ + system@ + "__obl_"@ + two_digit(index as nat),
{
    let mut out = String::new();
    push_all(&mut out, instance.as_str());
    push_all(&mut out, "__");
    push_all(&mut out, system.as_str());
    push_all(&mut out, "__obl_");
    let ghost before = out@;
    if index < 10 {
        string_push(&mut out, '0');
    }
    let digits = decimal_string(index as u64);
    let d = string_from_chars(&digits);
    push_all(&mut out, d.as_str());
    proof {
        if index < 10 {
            assert(out@ =~= before + two_digit(index as nat));
        } else {
            assert(out@ =~= before + two_digit(index as nat));
        }
    }
    out
}

/// ASCII lowercase of a character: `A`..`Z` become `a`..`z`, anything else
/// is kept.
pub open spec fn ascii_lower(c: char) -> char {
    if 'A' <= c <= 'Z' { ((c as u32 + 32) as u8) as char } else { c }
}

/// ASCII lowercase of every character.
pub open spec fn ascii_lower_seq(s: Seq<char>) -> Seq<char> {
    s.map_values(|c: char| ascii_lower(c))
}

/// `needle` occurs in `hay` as a contiguous run.
pub open spec fn contains_sub(hay: Seq<char>, needle: Seq<char>) -> bool {
    exists|i: int| 0 <= i && i + needle.len() <= hay.len() && #[trigger] hay.subrange(i, i + needle.len()) == needle
}

/// ASCII-lowercases a character sequence.
pub(crate) fn lower_chars(s: &[char]) -> (out: Vec<char>)
    ensures
        out@ == ascii_lower_seq(s@),
{
    let mut out: Vec<char> = Vec::new();
    let mut i: usize = 0;
    while i < s.len()
        invariant
            0 <= i <= s@.len(),
            out@ == ascii_lower_seq(s@.take(i as int)),
        decreases s@.len() - i,
    {
        let c = s[i];
        let l = if 'A' <= c && c <= 'Z' { (((c as u32) + 32) as u8) as char } else { c };
        out.push(l);
        proof {
            assert(ascii_lower_seq(s@.take(i + 1)) =~= ascii_lower_seq(s@.take(i as int)).push(ascii_lower(c)));
        }
        i = i + 1;
    }
    proof {
        assert(s@.take(s@.len() as int) == s@);
    }
    out
}

/// Whether `needle` occurs in `hay`.
pub fn has_sub(hay: &[char], needle: &[char]) -> (b: bool)
    ensures
        b == contains_sub(hay@, needle@),
{
    let n = needle.len();
    if n > hay.len() {
        proof {
            if contains_sub(hay@, needle@) {
                let i = choose|i: int| 0 <= i && i + needle@.len() <= hay@.len()
                    && #[trigger] hay@.subrange(i, i + needle@.len()) == needle@;
            }
        }
        return false;
    }
    if n == 0 {
        proof {
            assert(hay@.subrange(0int, 0int + needle@.len()) =~= needle@);
        }
        return true;
    }
    let len = hay.len();
    let mut i: usize = 0;
    let last = hay.len() - n;
    while i <= last
        invariant
            n == needle@.len(),
            0 < n <= hay@.len(),
            len == hay@.len(),
            last == hay@.len() - n,
            0 <= i <= hay@.len() - n + 1,
            forall|j: int| 0 <= j < i ==> #[trigger] hay@.subrange(j, j + n) != needle@,
        decreases hay@.len() - i,
    {
        let mut k: usize = 0;
        let mut same = true;
        while k < n
            invariant
                n == needle@.len(),
                i <= last,
                len == hay@.len(),
                last == hay@.len() - n,
                i + n <= hay@.len(),
                0 <= k <= n,
                same == (forall|t: int| 0 <= t < k ==> hay@[i + t] == needle@[t]),
            decreases n - k,
        {
            if hay[i + k] != needle[k] {
                same = false;
            }
            k = k + 1;
        }
        if same {
            proof {
                assert(hay@.subrange(i as int, i + n) =~= needle@);
            }
            return true;
        }
        proof {
            let t = choose|t: int| 0 <= t < n && hay@[i + t] != needle@[t];
            assert(hay@.subrange(i as int, i + n)[t] != needle@[t]);
        }
        i = i + 1;
    }
    false
}

/// Error class of a diagnostic, read off its severity and message.
pub open spec fn error_class(severity: Seq<char>, message: Seq<char>) -> Seq<char> {
    let lower = ascii_lower_seq(message);
    if severity == "warning"@ {
        "warning"@
    } else if severity == "info"@ {
        "info"@
    } else if contains_sub(lower, "unknown identifier"@) || contains_sub(lower, "unknown constant"@) {
        "unknown_identifier"@
    } else if contains_sub(lower, "type mismatch"@) {
        "type_mismatch"@
    } else if contains_sub(lower, "unexpected token"@)
        || (contains_sub(lower, "expected"@) && contains_sub(lower, "syntax"@)) {
        "syntax_error"@
    } else if contains_sub(lower, "unsolved goals"@) {
        "unsolved_goals"@
    } else if contains_sub(lower, "declaration uses 'sorry'"@) || contains_sub(lower, "declaration uses sorry"@) {
        "sorry"@
    } else if contains_sub(lower, "unknown tactic"@) {
        "unknown_tactic"@
    } else if contains_sub(lower, "failed to synthesize"@) {
        "typeclass_failure"@
    } else {
        "other"@
    }
}

/// Whether `needle` occurs in `hay`.
fn has_str(hay: &[char], needle: &str) -> (b: bool)
    ensures
        b == contains_sub(hay@, needle@),
{
    let n = chars_of(needle);
    has_sub(hay, &n)
}

/// Classifies a diagnostic into a coarse, purely lexical error class.
pub fn classify_error(severity: &str, message: &str) -> (class: String)
    ensures
        class@ == error_class(severity@, message@),
{
    if str_eq(severity, "warning") {
        return "warning".to_owned();
    }
    if str_eq(severity, "info") {
        return "info".to_owned();
    }
    let m = chars_of(message);
    let lower = lower_chars(&m);
    if has_str(&lower, "unknown identifier") || has_str(&lower, "unknown constant") {
        return "unknown_identifier".to_owned();
    }
    if has_str(&lower, "type mismatch") {
        return "type_mismatch".to_owned();
    }
    if has_str(&lower, "unexpected token") || (has_str(&lower, "expected") && has_str(&lower, "syntax")) {
        return "syntax_error".to_owned();
    }
    if has_str(&lower, "unsolved goals") {
        return "unsolved_goals".to_owned();
    }
    if has_str(&lower, "declaration uses 'sorry'") || has_str(&lower, "declaration uses sorry") {
        return "sorry".to_owned();
    }
    if has_str(&lower, "unknown tactic") {
        return "unknown_tactic".to_owned();
    }
    if has_str(&lower, "failed to synthesize") {
        return "typeclass_failure".to_owned();
    }
    "other".to_owned()
}

/// The Lean file to elaborate, as an absolute path when the project
/// directory is: `file` itself when it is absolute, else `file` under
/// `project_dir`.
pub fn canonical_file_path(project_dir: &str, file: &str) -> (out: String)
    ensures
        out@ == if file@.len() > 0 && file@[0] == '/' { file@ } else { path_join(project_dir@, file@) },
{
    join_path(project_dir, file)
}

} // verus!
