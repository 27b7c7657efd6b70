//! The release manifest: per-domain counts, per-instance directory hashes
//! and the rollup fingerprint over them.

use vstd::prelude::*;
use vstd::utf8::encode_utf8;
use crate::basics::enums::{Domain, domain_name};
use crate::basics::versions::{BenchmarkVersion, MetricsVersion, RubricVersion};
use crate::hashing::{hex_of, sha256_of, sha256_hex, prefixed_hex_of_text};
use crate::records::BenchmarkManifest;
use crate::text::{chars_of, push_all, string_from_chars};

verus! {

/// `out` with the bytes of `b` appended.
fn push_bytes(out: &mut Vec<u8>, b: &[u8])
    ensures
        final(out)@ == old(out)@ + b@,
{
    let ghost start = out@;
    let mut k: usize = 0;
    while k < b.len()
        invariant
            k <= b@.len(),
            out@ == start + b@.take(k as int),
        decreases b@.len() - k,
    {
        out.push(b[k]);
        proof {
            assert(b@.take(k + 1) =~= b@.take(k as int).push(b@[k as int]));
        }
        k = k + 1;
    }
    proof {
        assert(b@.take(b@.len() as int) =~= b@);
    }
}

/// A relative path with every backslash turned into a slash.
pub open spec fn forward_slashes(p: Seq<char>) -> Seq<char> {
    p.map_values(|c: char| if c == '\\' { '/' } else { c })
}

/// The bytes hashed for an instance directory: for each file, in the order
/// given, its relative path (with forward slashes), a zero byte, its
/// contents and a newline.
pub open spec fn directory_digest_input(files: Seq<(Seq<char>, Seq<u8>)>) -> Seq<u8>
    decreases files.len(),
{
    if files.len() == 0 {
        Seq::empty()
    } else {
        let f = files.last();
        directory_digest_input(files.drop_last()) + encode_utf8(forward_slashes(f.0)) + seq![0u8] + f.1 + seq![10u8]
    }
}

/// The files of a directory as plain values.
pub open spec fn file_views(files: Seq<(String, Vec<u8>)>) -> Seq<(Seq<char>, Seq<u8>)> {
    files.map_values(|f: (String, Vec<u8>)| (f.0@, f.1@))
}

/// Lowercase hexadecimal SHA-256 over an instance directory's files, given
/// as relative path and contents in sorted path order.
pub fn hash_instance_files(files: &Vec<(String, Vec<u8>)>) -> (out: String)
    ensures
        out@ == hex_of(sha256_of(directory_digest_input(file_views(files@)))),
{
    let mut bytes: Vec<u8> = Vec::new();
    let mut k: usize = 0;
    while k < files.len()
        invariant
            k <= files@.len(),
            bytes@ == directory_digest_input(file_views(files@.take(k as int))),
        decreases files@.len() - k,
    {
        let cs = chars_of(files[k].0.as_str());
        let mut fixed: Vec<char> = Vec::new();
        let mut i: usize = 0;
        while i < cs.len()
            invariant
                i <= cs@.len(),
                fixed@ == forward_slashes(cs@.take(i as int)),
            decreases cs@.len() - i,
        {
            let c = if cs[i] == '\\' { '/' } else { cs[i] };
            fixed.push(c);
            proof {
                assert(forward_slashes(cs@.take(i + 1)) =~= forward_slashes(cs@.take(i as int)).push(c));
            }
            i = i + 1;
        }
        proof {
            assert(cs@.take(cs@.len() as int) =~= cs@);
        }
        let rel = string_from_chars(&fixed);
        push_bytes(&mut bytes, rel.as_str().as_bytes());
        bytes.push(0u8);
        push_bytes(&mut bytes, files[k].1.as_slice());
        bytes.push(10u8);
        proof {
            let fv = file_views(files@.take(k + 1));
            assert(fv.drop_last() =~= file_views(files@.take(k as int)));
            assert(fv.last() == (files@[k as int].0@, files@[k as int].1@));
            assert(bytes@ =~= directory_digest_input(fv));
        }
        k = k + 1;
    }
    proof {
        assert(files@.take(files@.len() as int) =~= files@);
    }
    sha256_hex(bytes.as_slice())
}

/// The bytes of the rollup fingerprint: for each (id, hash) entry, in order,
/// the id, a zero byte, the hash and a newline.
pub open spec fn rollup_input(entries: Seq<(Seq<char>, Seq<char>)>) -> Seq<u8>
    decreases entries.len(),
{
    if entries.len() == 0 {
        Seq::empty()
    } else {
        let e = entries.last();
        rollup_input(entries.drop_last()) + encode_utf8(e.0) + seq![0u8] + encode_utf8(e.1) + seq![10u8]
    }
}

/// The entries of a (key, value) list of strings as plain values.
pub open spec fn entry_views(entries: Seq<(String, String)>) -> Seq<(Seq<char>, Seq<char>)> {
    entries.map_values(|e: (String, String)| (e.0@, e.1@))
}

/// `sha256:` and the hexadecimal SHA-256 of the rollup of `entries`.
pub fn rollup_hash(entries: &Vec<(String, String)>) -> (out: String)
    ensures
        out@ == "sha256:"@ + hex_of(sha256_of(rollup_input(entry_views(entries@)))),
{
    let mut bytes: Vec<u8> = Vec::new();
    let mut k: usize = 0;
    while k < entries.len()
        invariant
            k <= entries@.len(),
            bytes@ == rollup_input(entry_views(entries@.take(k as int))),
        decreases entries@.len() - k,
    {
        push_bytes(&mut bytes, entries[k].0.as_str().as_bytes());
        bytes.push(0u8);
        push_bytes(&mut bytes, entries[k].1.as_str().as_bytes());
        bytes.push(10u8);
        proof {
            let ev = entry_views(entries@.take(k + 1));
            assert(ev.drop_last() =~= entry_views(entries@.take(k as int)));
            assert(ev.last() == (entries@[k as int].0@, entries@[k as int].1@));
            assert(bytes@ =~= rollup_input(ev));
        }
        k = k + 1;
    }
    proof {
        assert(entries@.take(entries@.len() as int) =~= entries@);
    }
    prefixed_hex_of_text(sha256_hex(bytes.as_slice()).as_str())
}

/// Number of instances in domain `d`.
pub open spec fn domain_count(domains: Seq<Domain>, d: Domain) -> nat
    decreases domains.len(),
{
    if domains.len() == 0 {
        0
    } else {
        domain_count(domains.drop_last(), d) + if domains.last() == d { 1nat } else { 0nat }
    }
}

/// The domains in increasing order of their names.
pub open spec fn domains_by_name() -> Seq<Domain> {
    seq![Domain::Arrays, Domain::Dp, Domain::Graph, Domain::Greedy, Domain::Sorting, Domain::Trees]
}

/// Per-domain counts by increasing domain name, every domain included.
pub open spec fn domain_counts(domains: Seq<Domain>) -> Seq<(Seq<char>, int)> {
    domains_by_name().map_values(|d: Domain| (domain_name(d), domain_count(domains, d) as int))
}

/// The per-domain counts of a manifest as plain values.
pub open spec fn count_views(counts: Seq<(String, u32)>) -> Seq<(Seq<char>, int)> {
    counts.map_values(|e: (String, u32)| (e.0@, e.1 as int))
}

/// Counts the instances of each domain.
pub fn count_domains(domains: &[Domain]) -> (out: Vec<(String, u32)>)
    requires
        domains@.len() <= u32::MAX,
    ensures
        count_views(out@) == domain_counts(domains@),
{
    let order: [Domain; 6] = [Domain::Arrays, Domain::Dp, Domain::Graph, Domain::Greedy, Domain::Sorting, Domain::Trees];
    let mut out: Vec<(String, u32)> = Vec::new();
    let mut j: usize = 0;
    while j < 6
        invariant
            j <= 6,
            order@ == domains_by_name(),
            domains@.len() <= u32::MAX,
            count_views(out@) == domain_counts(domains@).take(j as int),
        decreases 6 - j,
    {
        let d = order[j];
        let mut c: u32 = 0;
        let mut k: usize = 0;
        while k < domains.len()
            invariant
                k <= domains@.len(),
                domains@.len() <= u32::MAX,
                c == domain_count(domains@.take(k as int), d),
                c <= k,
            decreases domains@.len() - k,
        {
            proof {
                assert(domains@.take(k + 1).drop_last() =~= domains@.take(k as int));
            }
            if domains[k] == d {
                c = c + 1;
            }
            k = k + 1;
        }
        proof {
            assert(domains@.take(domains@.len() as int) =~= domains@);
        }
        let name = string_from_chars(&chars_of(d.as_str()));
        let ghost before = count_views(out@);
        out.push((name, c));
        proof {
            assert(count_views(out@) =~= before.push((domain_name(d), c as int)));
            assert(domain_counts(domains@).take(j + 1) =~= domain_counts(domains@).take(j as int).push((domain_name(d), c as int)));
        }
        j = j + 1;
    }
    proof {
        assert(domain_counts(domains@).take(6) =~= domain_counts(domains@));
    }
    out
}

/// An instance of the benchmark as the manifest sees it: id, domain and the
/// hexadecimal hash of its directory.
pub open spec fn manifest_entries(instances: Seq<(String, Domain, String)>) -> Seq<(Seq<char>, Seq<char>)> {
    instances.map_values(|t: (String, Domain, String)| (t.0@, "sha256:"@ + t.2@))
}

/// Builds the manifest of a benchmark given its instances in id order (id,
/// domain, directory hash): every domain is counted, each id
/// maps to `sha256:<hash>`, and the content hash is the rollup over those
/// entries.
pub fn build_manifest(
    version: BenchmarkVersion,
    rubric: RubricVersion,
    metrics: MetricsVersion,
    created_at: &str,
    instances: &Vec<(String, Domain, String)>,
) -> (m: BenchmarkManifest)
    requires
        instances@.len() <= u32::MAX,
    ensures
        m.schema_version@ == "schema_v1"@,
        m.benchmark_version == version,
        m.rubric_version == rubric,
        m.metrics_version == metrics,
        m.created_at@ == created_at@,
        count_views(m.instance_count_by_domain@)
            == domain_counts(instances@.map_values(|t: (String, Domain, String)| t.1)),
        entry_views(m.instance_hashes@) == manifest_entries(instances@),
        m.content_hash@ == "sha256:"@ + hex_of(sha256_of(rollup_input(manifest_entries(instances@)))),
{
    let mut domains: Vec<Domain> = Vec::new();
    let mut hashes: Vec<(String, String)> = Vec::new();
    let mut k: usize = 0;
    while k < instances.len()
        invariant
            k <= instances@.len(),
            domains@ == instances@.take(k as int).map_values(|t: (String, Domain, String)| t.1),
            entry_views(hashes@) == manifest_entries(instances@.take(k as int)),
        decreases instances@.len() - k,
    {
        let mut h = string_from_chars(&chars_of("sha256:"));
        push_all(&mut h, instances[k].2.as_str());
        let id = string_from_chars(&chars_of(instances[k].0.as_str()));
        let ghost before = entry_views(hashes@);
        hashes.push((id, h));
        domains.push(instances[k].1);
        proof {
            assert(entry_views(hashes@) =~= before.push((instances@[k as int].0@, "sha256:"@ + instances@[k as int].2@)));
            assert(manifest_entries(instances@.take(k + 1))
                =~= manifest_entries(instances@.take(k as int)).push((instances@[k as int].0@, "sha256:"@ + instances@[k as int].2@)));
            assert(instances@.take(k + 1).map_values(|t: (String, Domain, String)| t.1)
                =~= instances@.take(k as int).map_values(|t: (String, Domain, String)| t.1).push(instances@[k as int].1));
        }
        k = k + 1;
    }
    proof {
        assert(instances@.take(instances@.len() as int) =~= instances@);
    }
    let counts = count_domains(domains.as_slice());
    let content_hash = rollup_hash(&hashes);
    BenchmarkManifest {
        schema_version: string_from_chars(&chars_of("schema_v1")),
        benchmark_version: version,
        rubric_version: rubric,
        metrics_version: metrics,
        created_at: string_from_chars(&chars_of(created_at)),
        instance_count_by_domain: counts,
        instance_hashes: hashes,
        content_hash,
    }
}

} // verus!
