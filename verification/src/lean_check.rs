//! The Lean check record of a review packet: whether its generated
//! statements elaborated, how many placeholder proofs they hold, which
//! axioms they rest on, and what the diagnostics file says.

use vstd::prelude::*;
use crate::lean::{ascii_lower_seq, contains_sub, lower_chars};
use crate::lean_text::{declared_symbols_from, extract_trusted_symbols};
use crate::lint::{path_push, push_path};
use crate::paths::{normalize_workspace_path, strip_prefix_of};
use crate::prompts::{sorted_unique, string_views};
use crate::review_text::{contains, count_admit_or_sorry, placeholder_count, slashed};
use crate::text::{chars_of, string_from_chars};

verus! {

/// Whether a diagnostics file says the packet elaborated: its `elaborates`
/// flag when it has one, `false` when it says Lean was not available,
/// nothing otherwise.
pub fn infer_elaborated(elaborates: Option<bool>, available: Option<bool>) -> (r: Option<bool>)
    ensures
        r == match elaborates {
            Some(b) => Some(b),
            None => if available == Some(false) { Some(false) } else { None },
        },
{
    match elaborates {
        Some(b) => Some(b),
        None => match available {
            Some(false) => Some(false),
            _ => None,
        },
    }
}

/// Whether a diagnostics file says Lean was not available.
pub fn diagnostics_only_unavailable(available: Option<bool>) -> (b: bool)
    ensures
        b == (available == Some(false)),
{
    match available {
        Some(false) => true,
        _ => false,
    }
}

/// Whether a diagnostics file's standard error (absent reads as empty)
/// warns of an unused variable, in any ASCII case.
pub fn diagnostics_has_unused_variable_warning(stderr: Option<&str>) -> (b: bool)
    ensures
        b == contains_sub(ascii_lower_seq(match stderr { Some(s) => s@, None => Seq::empty() }), "unused variable"@),
{
    let text = match stderr {
        Some(s) => chars_of(s),
        None => Vec::new(),
    };
    proof {
        if stderr is None {
            assert(text@ =~= Seq::<char>::empty());
        }
    }
    let lower = lower_chars(text.as_slice());
    contains(lower.as_slice(), "unused variable")
}

/// The Lean check of a review packet.
#[derive(Debug, Clone)]
pub struct LeanCheck {
    /// Elaboration succeeded and no statement holds a placeholder proof.
    pub elaborated: bool,
    /// Workspace-relative path of the packet's diagnostics file.
    pub diagnostics_path: String,
    /// Number of statements with an `admit` or `sorry` proof.
    pub admit_count: u64,
    /// Trusted symbols (axioms and opaque constants), sorted, each once.
    pub axiom_dependencies: Vec<String>,
    /// `definition_backed` without trusted symbols, else `axiom_backed`.
    pub proof_mode: &'static str,
}

/// Builds the Lean check of a packet from its generated statements, the
/// symbols its imports trust, its scaffold, the outcome of running Lean
/// (if it ran) and what its diagnostics file said (if anything).
pub fn build_lean_check(
    workspace: &str,
    packet_dir: &str,
    statements: &Vec<String>,
    imported: &Vec<String>,
    scaffold_src: &str,
    elaboration: Option<bool>,
    from_diagnostics: Option<bool>,
) -> (c: LeanCheck)
    requires
        statements@.len() <= u64::MAX,
    ensures
        c.admit_count == placeholder_count(statements@.map_values(|s: String| s@)),
        sorted_unique(string_views(c.axiom_dependencies@)),
        string_views(c.axiom_dependencies@).to_set()
            == string_views(imported@).to_set() + declared_symbols_from(scaffold_src@, 0).to_set(),
        c.proof_mode@ == (if c.axiom_dependencies@.len() == 0 { "definition_backed"@ } else { "axiom_backed"@ }),
        c.elaborated == (match elaboration {
            Some(b) => b,
            None => match from_diagnostics { Some(b) => b, None => false },
        } && c.admit_count == 0),
        c.diagnostics_path@ == slashed(match strip_prefix_of(path_push(packet_dir@, "lean_diagnostics.json"@), workspace@) {
            Some(rel) => rel,
            None => path_push(packet_dir@, "lean_diagnostics.json"@),
        }),
{
    let admit_count = count_admit_or_sorry(statements.as_slice());
    let trusted = extract_trusted_symbols(imported.as_slice(), scaffold_src);
    let proof_mode = if trusted.len() == 0 { "definition_backed" } else { "axiom_backed" };
    let ran = match elaboration {
        Some(b) => b,
        None => match from_diagnostics {
            Some(b) => b,
            None => false,
        },
    };
    let mut diag = string_from_chars(&chars_of(packet_dir));
    push_path(&mut diag, "lean_diagnostics.json");
    LeanCheck {
        elaborated: ran && admit_count == 0,
        diagnostics_path: normalize_workspace_path(workspace, diag.as_str()),
        admit_count,
        axiom_dependencies: trusted,
        proof_mode,
    }
}

} // verus!
