//! Paths of review packets and generated outputs inside a workspace.

use vstd::prelude::*;
use crate::text::{chars_of, string_from_chars, push_all};
use crate::lean::{contains_sub, has_sub};
use crate::cli_rules::{path_join, join_path};
use crate::review_text::{slashed, path_to_slash_string};
use crate::prompts::{sorted_unique, string_views};

verus! {

/// What `Path::parent` gives for a path written as text.
pub uninterp spec fn parent_of(p: Seq<char>) -> Option<Seq<char>>;

/// What `Path::file_name` gives for a path written as text.
pub uninterp spec fn file_name_of(p: Seq<char>) -> Option<Seq<char>>;

/// What `Path::strip_prefix` gives for a path and a base written as text.
pub uninterp spec fn strip_prefix_of(p: Seq<char>, base: Seq<char>) -> Option<Seq<char>>;

/// `std::path::Path::parent`: the path without its final component, if it
/// has one. Nothing is claimed beyond that the result is the one named by
/// `parent_of` for this text (a path from text converts back losslessly).
#[verifier::external_body]
fn path_parent(p: &str) -> (r: Option<String>)
    ensures
        match r {
            Some(q) => parent_of(p@) == Some(q@),
            None => parent_of(p@) is None,
        },
{
    match std::path::Path::new(p).parent() {
        Some(q) => Some(q.to_string_lossy().into_owned()),
        None => None,
    }
}

/// `std::path::Path::file_name`: the final component, if there is one.
/// The result is the one named by `file_name_of` for this text.
#[verifier::external_body]
fn path_file_name(p: &str) -> (r: Option<String>)
    ensures
        match r {
            Some(q) => file_name_of(p@) == Some(q@),
            None => file_name_of(p@) is None,
        },
{
    match std::path::Path::new(p).file_name() {
        Some(q) => Some(q.to_string_lossy().into_owned()),
        None => None,
    }
}

/// `std::path::Path::strip_prefix`: the rest of `p` when `base` is a prefix
/// of it component by component. The result is the one named by
/// `strip_prefix_of` for these texts.
#[verifier::external_body]
fn path_strip_prefix(p: &str, base: &str) -> (r: Option<String>)
    ensures
        match r {
            Some(q) => strip_prefix_of(p@, base@) == Some(q@),
            None => strip_prefix_of(p@, base@) is None,
        },
{
    match std::path::Path::new(p).strip_prefix(base) {
        Ok(q) => Some(q.to_string_lossy().into_owned()),
        Err(_) => None,
    }
}

/// The instance id of a review packet: the name of the directory that
/// holds the packet file.
pub fn instance_id_from_packet_path(packet_path: &str) -> (r: Option<String>)
    ensures
        match parent_of(packet_path@) {
            Some(dir) => match file_name_of(dir) {
                Some(name) => r matches Some(id) && id@ == name,
                None => r is None,
            },
            None => r is None,
        },
{
    match path_parent(packet_path) {
        Some(dir) => path_file_name(dir.as_str()),
        None => None,
    }
}

/// A path relative to the workspace when it lies inside it (else the path
/// itself), written with `/` separators.
pub fn normalize_workspace_path(workspace: &str, p: &str) -> (out: String)
    ensures
        out@ == slashed(
            match strip_prefix_of(p@, workspace@) {
                Some(rel) => rel,
                None => p@,
            },
        ),
{
    match path_strip_prefix(p, workspace) {
        Some(rel) => path_to_slash_string(rel.as_str()),
        None => path_to_slash_string(p),
    }
}

/// A run that may hold generated outputs of `system_id`: its id names the
/// system and is an evaluation run.
pub open spec fn is_eval_run_of(run_id: Seq<char>, system_id: Seq<char>) -> bool {
    contains_sub(run_id, system_id) && contains_sub(run_id, "_eval_"@)
}

/// `<workspace>/runs/<run>/generated/<system>/<instance>.json`.
pub open spec fn generated_output_path(workspace: Seq<char>, run_id: Seq<char>, system_id: Seq<char>, instance_id: Seq<char>) -> Seq<char> {
    path_join(
        path_join(path_join(path_join(path_join(workspace, "runs"@), run_id), "generated"@), system_id),
        instance_id + ".json"@,
    )
}

/// Where the generated output of `(instance, system)` may be, for the runs
/// `runs[..k]`: the evaluation runs of the system, latest run id first.
pub open spec fn generated_candidates(
    workspace: Seq<char>,
    runs: Seq<Seq<char>>,
    system_id: Seq<char>,
    instance_id: Seq<char>,
    k: int,
) -> Seq<Seq<char>>
    decreases k,
{
    if k <= 0 || k > runs.len() {
        Seq::empty()
    } else {
        let rest = generated_candidates(workspace, runs, system_id, instance_id, k - 1);
        if is_eval_run_of(runs[k - 1], system_id) {
            seq![generated_output_path(workspace, runs[k - 1], system_id, instance_id)] + rest
        } else {
            rest
        }
    }
}

/// The paths to try, in order, for the generated output of
/// `(instance_id, system_id)`: for each evaluation run of the system, from
/// the greatest run id down, its file for the instance. `run_ids` are the
/// run index's keys, in increasing order.
pub fn generated_output_candidates(workspace: &str, run_ids: &[String], system_id: &str, instance_id: &str) -> (out: Vec<String>)
    requires
        sorted_unique(string_views(run_ids@)),
    ensures
        string_views(out@) == generated_candidates(workspace@, string_views(run_ids@), system_id@, instance_id@,
            run_ids@.len() as int),
{
    let ghost runs = string_views(run_ids@);
    let sys = chars_of(system_id);
    let eval = chars_of("_eval_");
    let mut file = string_from_chars(&chars_of(instance_id));
    push_all(&mut file, ".json");
    let mut out: Vec<String> = Vec::new();
    let mut k: usize = run_ids.len();
    proof {
        assert(string_views(out@) =~= Seq::<Seq<char>>::empty());
    }
    while k > 0
        invariant
            runs == string_views(run_ids@),
            sys@ == system_id@,
            eval@ == "_eval_"@,
            file@ == instance_id@ + ".json"@,
            k <= run_ids@.len(),
            string_views(out@) + generated_candidates(workspace@, runs, system_id@, instance_id@, k as int)
                == generated_candidates(workspace@, runs, system_id@, instance_id@, run_ids@.len() as int),
        decreases k,
    {
        let run = &run_ids[k - 1];
        let rc = chars_of(run.as_str());
        let ghost before = string_views(out@);
        proof {
            assert(runs[k - 1] == run@);
        }
        if has_sub(&rc, &sys) && has_sub(&rc, &eval) {
            let a = join_path(workspace, "runs");
            let b = join_path(a.as_str(), run.as_str());
            let c = join_path(b.as_str(), "generated");
            let d = join_path(c.as_str(), system_id);
            let e = join_path(d.as_str(), file.as_str());
            let ghost ev = e@;
            out.push(e);
            proof {
                assert(ev == generated_output_path(workspace@, runs[k - 1], system_id@, instance_id@));
                assert(string_views(out@) =~= before.push(ev));
                assert(string_views(out@) + generated_candidates(workspace@, runs, system_id@, instance_id@, k - 1)
                    =~= before + generated_candidates(workspace@, runs, system_id@, instance_id@, k as int));
            }
        }
        k = k - 1;
    }
    proof {
        assert(string_views(out@) + generated_candidates(workspace@, runs, system_id@, instance_id@, 0)
            =~= string_views(out@));
    }
    out
}

} // verus!
