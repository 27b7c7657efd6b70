use vstd::prelude::*;
use crate::basics::ids::InstanceId;
use crate::basics::versions::BenchmarkVersion;
use crate::text::str_eq;

verus! {

/// Canonical split names recognised by the release pipeline.
#[derive(Debug, Clone, Copy, PartialEq, Eq, Structural, PartialOrd, Ord, Hash)]
pub enum SplitName {
    /// Diagnostic split used while designing prompts and tuning systems.
    Dev,
    /// Frozen evaluation split.
    Eval,
    /// Optional stress split (hard, adversarial).
    Challenge,
}

/// Canonical name of a split.
pub open spec fn split_name_str(n: SplitName) -> Seq<char> {
    match n {
        SplitName::Dev => "dev"@,
        SplitName::Eval => "eval"@,
        SplitName::Challenge => "challenge"@,
    }
}

/// The split whose canonical name is `s`, if any.
pub open spec fn split_from_str(s: Seq<char>) -> Option<SplitName> {
    if s == "dev"@ {
        Some(SplitName::Dev)
    } else if s == "eval"@ {
        Some(SplitName::Eval)
    } else if s == "challenge"@ {
        Some(SplitName::Challenge)
    } else {
        None
    }
}

impl SplitName {
    /// Splits that must exist and be non-empty in a released benchmark.
    pub const REQUIRED: [SplitName; 2] = [SplitName::Dev, SplitName::Eval];

    /// Canonical string form (matches the file stem).
    pub fn as_str(self) -> (s: &'static str)
        ensures
            s@ == split_name_str(self),
    {
        match self {
            SplitName::Dev => "dev",
            SplitName::Eval => "eval",
            SplitName::Challenge => "challenge",
        }
    }

    /// Parses the canonical string form; `None` for any other string.
    pub fn parse(s: &str) -> (res: Option<Self>)
        ensures
            res == split_from_str(s@),
    {
        if str_eq(s, "dev") {
            Some(SplitName::Dev)
        } else if str_eq(s, "eval") {
            Some(SplitName::Eval)
        } else if str_eq(s, "challenge") {
            Some(SplitName::Challenge)
        } else {
            None
        }
    }
}

/// Parsing the canonical name of a split gives the split back.
pub proof fn lemma_split_name_round_trip(n: SplitName)
    ensures
        split_from_str(split_name_str(n)) == Some(n),
{
    reveal_strlit("dev");
    reveal_strlit("eval");
    reveal_strlit("challenge");
    assert("dev"@.len() == 3);
    assert("eval"@.len() == 4);
    assert("challenge"@.len() == 9);
}

/// In-memory representation of a single split file.
#[derive(Debug, Clone)]
pub struct Split {
    /// Schema version constant (`schema_v1`).
    pub schema_version: String,
    /// Declared benchmark version (e.g. `v0.1`).
    pub benchmark_version: BenchmarkVersion,
    /// Split discriminant (matches the file stem).
    pub split: SplitName,
    /// Instance ids selected for this split, in the author's order.
    pub instance_ids: Vec<InstanceId>,
    /// Path the split was loaded from.
    pub source_path: String,
}

impl Split {
    /// True if this split has no instances.
    pub fn is_empty(&self) -> (b: bool)
        ensures
            b == (self.instance_ids@.len() == 0),
    {
        self.instance_ids.len() == 0
    }

    /// Number of instance ids in this split.
    pub fn len(&self) -> (n: usize)
        ensures
            n == self.instance_ids@.len(),
    {
        self.instance_ids.len()
    }
}

/// Why a split file is refused once read.
#[derive(Debug)]
pub enum SplitError {
    /// The file's `benchmark_version` is not that of its directory.
    VersionMismatch {
        /// Path of the file.
        path: String,
        /// Declared version.
        declared: String,
        /// Expected version.
        expected: String,
    },
    /// The file's `split` is not the split its file stem names.
    NameMismatch {
        /// Path of the file.
        path: String,
        /// Declared split name.
        declared: String,
        /// File stem.
        stem: String,
    },
}

/// Position of a split name in the name order: dev, eval, challenge.
pub open spec fn split_rank(n: SplitName) -> int {
    match n {
        SplitName::Dev => 0,
        SplitName::Eval => 1,
        SplitName::Challenge => 2,
    }
}

/// Split names strictly increase along the list, in the order dev, eval,
/// challenge (so each name occurs at most once).
pub open spec fn names_increasing(splits: Seq<Split>) -> bool {
    forall|a: int, b: int| 0 <= a < b < splits.len()
        ==> split_rank((#[trigger] splits[a]).split) < split_rank((#[trigger] splits[b]).split)
}

/// Accepts a split read from the file at `path`, whose stem `stem` names
/// split `name`: its declared version must be `expected_version` (checked
/// first), its declared split must be `name`. The accepted split records
/// `path` as its source.
pub fn accept_split(split: Split, name: SplitName, stem: &str, expected_version: &str, path: &str)
    -> (res: Result<Split, SplitError>)
    ensures
        match res {
            Ok(s) => split.benchmark_version@ == expected_version@ && split.split == name
                && s.schema_version == split.schema_version && s.benchmark_version == split.benchmark_version
                && s.split == split.split && s.instance_ids == split.instance_ids && s.source_path@ == path@,
            Err(SplitError::VersionMismatch { path: p, declared, expected }) =>
                split.benchmark_version@ != expected_version@ && p@ == path@ && declared@ == split.benchmark_version@
                    && expected@ == expected_version@,
            Err(SplitError::NameMismatch { path: p, declared, stem: st }) =>
                split.benchmark_version@ == expected_version@ && split.split != name && p@ == path@
                    && declared@ == split_name_str(split.split) && st@ == stem@,
        },
{
    if !str_eq(split.benchmark_version.as_str(), expected_version) {
        return Err(SplitError::VersionMismatch {
            path: path.to_owned(),
            declared: split.benchmark_version.as_str().to_owned(),
            expected: expected_version.to_owned(),
        });
    }
    if split.split != name {
        return Err(SplitError::NameMismatch {
            path: path.to_owned(),
            declared: split.split.as_str().to_owned(),
            stem: stem.to_owned(),
        });
    }
    let mut s = split;
    s.source_path = path.to_owned();
    Ok(s)
}

/// Adds a split to a list ordered by name, replacing one of the same name.
pub fn insert_split(splits: &mut Vec<Split>, split: Split)
    requires
        names_increasing(old(splits)@),
    ensures
        names_increasing(final(splits)@),
        final(splits)@.contains(split),
        forall|i: int| 0 <= i < old(splits)@.len() && (#[trigger] old(splits)@[i]).split != split.split
            ==> final(splits)@.contains(old(splits)@[i]),
        forall|i: int| 0 <= i < final(splits)@.len() && (#[trigger] final(splits)@[i]) != split
            ==> old(splits)@.contains(final(splits)@[i]),
{
    let ghost s = splits@;
    let mut p: usize = 0;
    while p < splits.len() && split_less(splits[p].split, split.split)
        invariant
            p <= splits@.len(),
            s == splits@,
            forall|j: int| 0 <= j < p ==> split_rank(#[trigger] s[j].split) < split_rank(split.split),
        decreases splits@.len() - p,
    {
        p = p + 1;
    }
    if p < splits.len() && splits[p].split == split.split {
        splits.set(p, split);
        proof {
            let t = splits@;
            assert(t[p as int] == split);
            assert forall|a: int, b: int| 0 <= a < b < t.len() implies
                split_rank((#[trigger] t[a]).split) < split_rank((#[trigger] t[b]).split) by {
                assert(s[a].split == t[a].split && s[b].split == t[b].split);
            }
            assert forall|i: int| 0 <= i < s.len() && (#[trigger] s[i]).split != split.split implies t.contains(s[i]) by {
                assert(i != p);
                assert(t[i] == s[i]);
            }
            assert forall|i: int| 0 <= i < t.len() && (#[trigger] t[i]) != split implies s.contains(t[i]) by {
                assert(t[i] == s[i]);
            }
        }
    } else {
        proof {
            if p < s.len() {
                assert(split_rank(s[p as int].split) > split_rank(split.split));
            }
        }
        splits.insert(p, split);
        proof {
            let t = splits@;
            assert(t =~= s.take(p as int).push(split) + s.skip(p as int));
            assert forall|a: int, b: int| 0 <= a < b < t.len() implies
                split_rank((#[trigger] t[a]).split) < split_rank((#[trigger] t[b]).split) by {
                if b < p {
                    assert(t[a] == s[a] && t[b] == s[b]);
                } else if b == p {
                    assert(t[a] == s[a]);
                } else if a == p {
                    assert(t[b] == s[b - 1]);
                    if b - 1 > p {
                        assert(split_rank(s[p as int].split) < split_rank(s[b - 1].split));
                    }
                } else if a < p {
                    assert(t[a] == s[a] && t[b] == s[b - 1]);
                } else {
                    assert(t[a] == s[a - 1] && t[b] == s[b - 1]);
                }
            }
            assert(t[p as int] == split);
            assert forall|i: int| 0 <= i < s.len() && (#[trigger] s[i]).split != split.split implies t.contains(s[i]) by {
                if i < p {
                    assert(t[i] == s[i]);
                } else {
                    assert(t[i + 1] == s[i]);
                }
            }
            assert forall|i: int| 0 <= i < t.len() && (#[trigger] t[i]) != split implies s.contains(t[i]) by {
                if i < p {
                    assert(t[i] == s[i]);
                } else if i > p {
                    assert(t[i] == s[i - 1]);
                }
            }
        }
    }
}

/// `split_rank(a) < split_rank(b)`.
fn split_less(a: SplitName, b: SplitName) -> (r: bool)
    ensures
        r == (split_rank(a) < split_rank(b)),
{
    let ra: u8 = match a {
        SplitName::Dev => 0,
        SplitName::Eval => 1,
        SplitName::Challenge => 2,
    };
    let rb: u8 = match b {
        SplitName::Dev => 0,
        SplitName::Eval => 1,
        SplitName::Challenge => 2,
    };
    ra < rb
}


/// A JSON file of a `splits/` directory, read: its file stem, its path and
/// what it holds.
#[derive(Debug)]
pub struct SplitFile {
    /// File stem (`dev` for `dev.json`).
    pub stem: String,
    /// Path of the file.
    pub path: String,
    /// The split the file holds.
    pub split: Split,
}

/// The split a file's stem names, if it is a canonical split name.
pub open spec fn stem_name(f: SplitFile) -> Option<SplitName> {
    split_from_str(f.stem@)
}

/// A file with a canonical stem is refused when its declared version is not
/// `expected` or its declared split is not the one its stem names.
pub open spec fn split_file_refused(f: SplitFile, expected: Seq<char>) -> bool {
    match stem_name(f) {
        Some(n) => f.split.benchmark_version@ != expected || f.split.split != n,
        None => false,
    }
}

/// The first refused file at or after `k`.
pub open spec fn first_refused_file(files: Seq<SplitFile>, expected: Seq<char>, k: int) -> Option<int>
    decreases files.len() - k,
{
    if k < 0 || k >= files.len() {
        None
    } else if split_file_refused(files[k], expected) {
        Some(k)
    } else {
        first_refused_file(files, expected, k + 1)
    }
}

/// `s` is the split of file `f`, accepted: its contents with `f`'s path as
/// its source.
pub open spec fn accepted_from(s: Split, f: SplitFile) -> bool {
    &&& s.schema_version == f.split.schema_version
    &&& s.benchmark_version == f.split.benchmark_version
    &&& s.split == f.split.split
    &&& s.instance_ids == f.split.instance_ids
    &&& s.source_path@ == f.path@
}

/// `out` holds, in name order, the accepted split of the last file with
/// each canonical stem among the first `k` files, and nothing else.
pub open spec fn gathered(out: Seq<Split>, files: Seq<SplitFile>, k: int) -> bool {
    &&& names_increasing(out)
    &&& forall|t: int| 0 <= t < out.len() ==> #[trigger] gathered_entry(out, files, k, t)
    &&& forall|j: int| 0 <= j < k && #[trigger] stem_name(files[j]) is Some
        ==> exists|t: int| 0 <= t < out.len() && Some(#[trigger] out[t].split) == stem_name(files[j])
}

/// Entry `t` of `out` is the accepted split of the last file with its
/// stem among the first `k`.
pub open spec fn gathered_entry(out: Seq<Split>, files: Seq<SplitFile>, k: int, t: int) -> bool {
    exists|j: int| #[trigger] last_accepted(out[t], files, k, j)
}

/// `s` is the accepted split of file `j`, the last among the first `k`
/// files with its canonical stem.
pub open spec fn last_accepted(s: Split, files: Seq<SplitFile>, k: int, j: int) -> bool {
    &&& 0 <= j < k
    &&& stem_name(files[j]) == Some(s.split)
    &&& accepted_from(s, files[j])
    &&& forall|j2: int| j < j2 < k ==> #[trigger] stem_name(files[j2]) != stem_name(files[j])
}

proof fn lemma_names_unique(v: Seq<Split>, a: int, b: int)
    requires
        names_increasing(v),
        0 <= a < v.len(),
        0 <= b < v.len(),
        v[a].split == v[b].split,
    ensures
        a == b,
{
    if a < b {
        assert(split_rank(v[a].split) < split_rank(v[b].split));
    } else if b < a {
        assert(split_rank(v[b].split) < split_rank(v[a].split));
    }
}

/// Reads the files of a `splits/` directory, in path order: files whose
/// stem is not a canonical split name are skipped; each other file is
/// accepted (`accept_split`) or the first refusal is the error; the
/// accepted splits are kept one per name, the last file's, in name order.
pub fn gather_splits(files: Vec<SplitFile>, expected_version: &str) -> (res: Result<Vec<Split>, SplitError>)
    ensures
        match first_refused_file(files@, expected_version@, 0) {
            Some(i) => {
                let f = files@[i];
                match res {
                    Err(SplitError::VersionMismatch { path, declared, expected }) =>
                        f.split.benchmark_version@ != expected_version@ && path@ == f.path@
                            && declared@ == f.split.benchmark_version@ && expected@ == expected_version@,
                    Err(SplitError::NameMismatch { path, declared, stem }) =>
                        f.split.benchmark_version@ == expected_version@ && path@ == f.path@
                            && declared@ == split_name_str(f.split.split) && stem@ == f.stem@,
                    _ => false,
                }
            },
            None => res matches Ok(out) && gathered(out@, files@, files@.len() as int),
        },
{
    let n = files.len();
    let ghost all = files@;
    let mut rest = files;
    let mut out: Vec<Split> = Vec::new();
    let mut k: usize = 0;
    while rest.len() > 0
        invariant
            rest@ == all.skip(k as int),
            files@ == all,
            k <= all.len(),
            all.len() <= usize::MAX,
            first_refused_file(all, expected_version@, 0) == first_refused_file(all, expected_version@, k as int),
            gathered(out@, all, k as int),
        decreases rest@.len(),
    {
        assert(k < all.len());
        let f = rest.remove(0);
        assert(f == all[k as int]);
        let ghost fv = f;
        match SplitName::parse(f.stem.as_str()) {
            None => {
                proof {
                    lemma_gather_skip(out@, all, k as int);
                }
            },
            Some(name) => {
                let SplitFile { stem, path, split } = f;
                match accept_split(split, name, stem.as_str(), expected_version, path.as_str()) {
                    Err(e) => {
                        assert(first_refused_file(all, expected_version@, k as int) == Some(k as int));
                        return Err(e);
                    },
                    Ok(s) => {
                        let ghost old_out = out@;
                        insert_split(&mut out, s);
                        proof {
                            lemma_gather_insert(old_out, out@, all, k as int, s);
                        }
                    },
                }
            },
        }
        proof {
            assert(all.skip(k as int).drop_first() =~= all.skip(k as int + 1));
            assert(first_refused_file(all, expected_version@, k as int)
                == first_refused_file(all, expected_version@, k as int + 1));
        }
        k = k + 1;
    }
    proof {
        assert(all.skip(k as int).len() == 0);
    }
    Ok(out)
}

/// Skipping a file whose stem is not a split name keeps what was gathered.
proof fn lemma_gather_skip(out: Seq<Split>, all: Seq<SplitFile>, k: int)
    requires
        0 <= k < all.len(),
        stem_name(all[k]) is None,
        gathered(out, all, k),
    ensures
        gathered(out, all, k + 1),
{
    assert forall|j: int| 0 <= j < k + 1 && #[trigger] stem_name(all[j]) is Some
        implies exists|t: int| 0 <= t < out.len() && Some(#[trigger] out[t].split) == stem_name(all[j]) by {
        assert(j < k);
    }
    assert forall|t: int| 0 <= t < out.len() implies #[trigger] gathered_entry(out, all, k + 1, t) by {
        assert(gathered_entry(out, all, k, t));
        let j = choose|j: int| #[trigger] last_accepted(out[t], all, k, j);
        assert forall|j2: int| j < j2 < k + 1 implies #[trigger] stem_name(all[j2]) != stem_name(all[j]) by {
            if j2 == k {
                assert(stem_name(all[j2]) is None);
            }
        }
        assert(last_accepted(out[t], all, k + 1, j));
    }
}

/// Inserting the accepted split of file `k` into what was gathered from
/// the first `k` files gathers the first `k + 1`.
proof fn lemma_gather_insert(old_out: Seq<Split>, out: Seq<Split>, all: Seq<SplitFile>, k: int, sk: Split)
    requires
        0 <= k < all.len(),
        stem_name(all[k]) == Some(sk.split),
        accepted_from(sk, all[k]),
        gathered(old_out, all, k),
        names_increasing(out),
        out.contains(sk),
        forall|i: int| 0 <= i < old_out.len() && (#[trigger] old_out[i]).split != sk.split ==> out.contains(old_out[i]),
        forall|i: int| 0 <= i < out.len() && (#[trigger] out[i]) != sk ==> old_out.contains(out[i]),
    ensures
        gathered(out, all, k + 1),
{
    let ts = choose|ts: int| 0 <= ts < out.len() && out[ts] == sk;
    assert forall|t: int| 0 <= t < out.len() implies #[trigger] gathered_entry(out, all, k + 1, t) by {
        if out[t] == sk {
            assert(last_accepted(out[t], all, k + 1, k));
        } else {
            assert(old_out.contains(out[t]));
            let t0 = choose|t0: int| 0 <= t0 < old_out.len() && old_out[t0] == out[t];
            assert(gathered_entry(old_out, all, k, t0));
            let j = choose|j: int| #[trigger] last_accepted(old_out[t0], all, k, j);
            if out[t].split == sk.split {
                lemma_names_unique(out, t, ts);
            }
            assert forall|j2: int| j < j2 < k + 1 implies #[trigger] stem_name(all[j2]) != stem_name(all[j]) by {
                if j2 == k {
                    assert(stem_name(all[j]) == Some(out[t].split));
                }
            }
            assert(last_accepted(out[t], all, k + 1, j));
        }
    }
    assert forall|j: int| 0 <= j < k + 1 && #[trigger] stem_name(all[j]) is Some
        implies exists|t: int| 0 <= t < out.len() && Some(#[trigger] out[t].split) == stem_name(all[j]) by {
        if stem_name(all[j]) == Some(sk.split) {
            assert(Some(out[ts].split) == stem_name(all[j]));
        } else {
            assert(j < k);
            let t0 = choose|t0: int| 0 <= t0 < old_out.len() && Some(#[trigger] old_out[t0].split) == stem_name(all[j]);
            assert(out.contains(old_out[t0]));
            let t1 = choose|t1: int| 0 <= t1 < out.len() && out[t1] == old_out[t0];
            assert(Some(out[t1].split) == stem_name(all[j]));
        }
    }
}

} // verus!
