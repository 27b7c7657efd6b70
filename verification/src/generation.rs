//! Generating for one instance: render the prompt, ask the provider, and
//! package its reply as an output bundle with the prompt's hash and the
//! provider's metadata. The offline stub provider answers from here; a live
//! provider's reply is packaged by the same `assemble_outcome`.

use vstd::prelude::*;
use vstd::utf8::encode_utf8;
use crate::basics::ids::{InstanceId, RunId, SystemId};
use crate::records::{ParseStatus, ProviderMetadata, StubProvider};
use crate::normalize::{NormalizedObligation, normalize_response, response_outcome, loose_parse, not_json_message,
    obligation_view, status_view, lemma_response_outcome_determined};
use crate::providers::ProviderReply;
use crate::prompts::{PromptContext, PromptTemplate, render_from};
use crate::hashing::{hash_prompt, hex_of, sha256_of};
use crate::lean::{decimal, decimal_string};
use crate::text::{chars_of, push_all, string_from_chars, string_push};

verus! {

/// Parameters of one generation (its sampling temperature, a fraction,
/// stays with the caller).
#[derive(Debug)]
pub struct GenerateParams {
    /// Run id.
    pub run_id: RunId,
    /// System id (e.g. `full_method_v1`).
    pub system_id: SystemId,
    /// Instance id.
    pub instance_id: InstanceId,
    /// Seed forwarded to the provider.
    pub seed: u64,
    /// Token limit of the completion.
    pub max_tokens: u32,
    /// Where the raw response is stored, relative to the run directory.
    pub raw_output_path: String,
}

/// The output of one generation.
#[derive(Debug)]
pub struct GeneratedOutputBundle {
    /// Schema version (`schema_v1`).
    pub schema_version: String,
    /// Run id.
    pub run_id: RunId,
    /// System id.
    pub system_id: SystemId,
    /// Instance id.
    pub instance_id: InstanceId,
    /// Provider metadata.
    pub provider_metadata: ProviderMetadata,
    /// Path of the raw output.
    pub raw_output_path: String,
    /// How normalising the reply went.
    pub parse_status: ParseStatus,
    /// The normalised obligations (none when normalising failed).
    pub normalized_obligations: Vec<NormalizedObligation>,
    /// `sha256:<hex>` of the rendered prompt.
    pub prompt_hash: String,
    /// Seed forwarded to the provider.
    pub seed: u64,
}

/// A bundle with the raw reply it was normalised from.
#[derive(Debug)]
pub struct GenerationOutcome {
    /// The bundle.
    pub bundle: GeneratedOutputBundle,
    /// The raw reply, as the provider gave it.
    pub raw: String,
}

/// The canonical hash of a prompt.
pub open spec fn prompt_hash_of(prompt: Seq<char>) -> Seq<char> {
    "sha256:"@ + hex_of(sha256_of(encode_utf8(prompt)))
}

/// `o` packages the reply `reply` of provider `name` (model `model`) to a
/// generation with parameters `p` and prompt hash `hash`; absent token
/// counts are recorded as zero.
pub open spec fn outcome_of(
    o: GenerationOutcome,
    name: Seq<char>,
    model: Seq<char>,
    p: GenerateParams,
    hash: Seq<char>,
    reply: ProviderReply,
) -> bool {
    let b = o.bundle;
    let m = b.provider_metadata;
    &&& b.schema_version@ == "schema_v1"@
    &&& b.run_id@ == p.run_id@
    &&& b.system_id@ == p.system_id@
    &&& b.instance_id@ == p.instance_id@
    &&& m.name@ == name
    &&& m.model@ == model
    &&& m.model_version@ == reply.model_version@
    &&& m.latency_ms == Some(reply.latency_ms)
    &&& m.prompt_tokens == Some(match reply.tokens { Some(t) => t.0, None => 0u64 })
    &&& m.completion_tokens == Some(match reply.tokens { Some(t) => t.1, None => 0u64 })
    &&& b.raw_output_path@ == p.raw_output_path@
    &&& b.parse_status == reply.parse_status
    &&& b.normalized_obligations == reply.obligations
    &&& b.prompt_hash@ == hash
    &&& b.seed == p.seed
    &&& o.raw == reply.raw
}

/// A copy of a string.
fn owned(s: &str) -> (out: String)
    ensures
        out@ == s@,
{
    string_from_chars(&chars_of(s))
}

/// Packages a provider's reply (see `outcome_of`).
pub fn assemble_outcome(
    provider_name: &str,
    model: &str,
    params: &GenerateParams,
    prompt_hash: String,
    reply: ProviderReply,
) -> (o: GenerationOutcome)
    ensures
        outcome_of(o, provider_name@, model@, *params, prompt_hash@, reply),
{
    let (prompt_tokens, completion_tokens) = match reply.tokens {
        Some(t) => t,
        None => (0, 0),
    };
    let provider_metadata = ProviderMetadata {
        name: owned(provider_name),
        model: owned(model),
        model_version: reply.model_version,
        latency_ms: Some(reply.latency_ms),
        prompt_tokens: Some(prompt_tokens),
        completion_tokens: Some(completion_tokens),
    };
    let bundle = GeneratedOutputBundle {
        schema_version: owned("schema_v1"),
        run_id: params.run_id.duplicate(),
        system_id: params.system_id.duplicate(),
        instance_id: params.instance_id.duplicate(),
        provider_metadata,
        raw_output_path: owned(params.raw_output_path.as_str()),
        parse_status: reply.parse_status,
        normalized_obligations: reply.obligations,
        prompt_hash,
        seed: params.seed,
    };
    GenerationOutcome { bundle, raw: reply.raw }
}

/// What the stub answers for a seed: one structural obligation whose gloss
/// names the seed.
pub open spec fn stub_text(seed: u64) -> Seq<char> {
    "{\"obligations\": [{\"kind\": \"structural\", \"lean_statement\": \"True\", \"nl_gloss\": \"stub obligation for seed "@
        + decimal(seed as nat) + "\"}]}"@
}

/// `r` is the stub's reply for `seed`: its text normalised, no latency,
/// zero tokens and the stub's model version.
pub open spec fn stub_reply(r: ProviderReply, version: Seq<char>, seed: u64) -> bool {
    &&& r.raw@ == stub_text(seed)
    &&& response_outcome(r.raw@, loose_parse(encode_utf8(r.raw@)), not_json_message(encode_utf8(r.raw@).len()),
        (r.obligations, r.parse_status))
    &&& r.latency_ms == 0
    &&& r.tokens == Some((0u64, 0u64))
    &&& r.model_version@ == version
}

impl StubProvider {
    /// The provider name, `stub`.
    pub fn name(&self) -> (s: &'static str)
        ensures
            s@ == "stub"@,
    {
        "stub"
    }

    /// The model family, `stub-local`.
    pub fn model(&self) -> (s: &'static str)
        ensures
            s@ == "stub-local"@,
    {
        "stub-local"
    }

    /// Answers offline and deterministically (see `stub_reply`).
    pub fn generate(&self, seed: u64) -> (r: ProviderReply)
        ensures
            stub_reply(r, self.version(), seed),
    {
        let mut raw = owned("{\"obligations\": [{\"kind\": \"structural\", \"lean_statement\": \"True\", \"nl_gloss\": \"stub obligation for seed ");
        let digits = decimal_string(seed);
        let ghost before = raw@;
        let mut i: usize = 0;
        while i < digits.len()
            invariant
                i <= digits@.len(),
                raw@ == before + digits@.take(i as int),
            decreases digits@.len() - i,
        {
            string_push(&mut raw, digits[i]);
            proof {
                assert(digits@.take(i as int + 1) =~= digits@.take(i as int).push(digits@[i as int]));
            }
            i = i + 1;
        }
        assert(digits@.take(digits@.len() as int) =~= digits@);
        push_all(&mut raw, "\"}]}");
        let (obligations, parse_status) = normalize_response(raw.as_str());
        ProviderReply {
            raw,
            obligations,
            parse_status,
            latency_ms: 0,
            tokens: Some((0, 0)),
            model_version: owned(self.model_version()),
        }
    }
}

/// The stub is deterministic under a fixed seed: two of its replies for
/// one seed agree in their text, obligations, status, latency, tokens and
/// model version.
pub proof fn lemma_stub_deterministic(version: Seq<char>, seed: u64, r1: ProviderReply, r2: ProviderReply)
    requires
        stub_reply(r1, version, seed),
        stub_reply(r2, version, seed),
    ensures
        r1.raw@ == r2.raw@,
        r1.obligations@.map_values(|o: NormalizedObligation| obligation_view(o))
            == r2.obligations@.map_values(|o: NormalizedObligation| obligation_view(o)),
        status_view(r1.parse_status) == status_view(r2.parse_status),
        r1.latency_ms == r2.latency_ms,
        r1.tokens == r2.tokens,
        r1.model_version@ == r2.model_version@,
{
    let t = stub_text(seed);
    lemma_response_outcome_determined(t, loose_parse(encode_utf8(t)), not_json_message(encode_utf8(t).len()),
        (r1.obligations, r1.parse_status), (r2.obligations, r2.parse_status));
}

/// Generates with the stub provider: renders the template with `ctx`,
/// hashes the prompt, and packages the stub's reply for the seed.
pub fn generate_with_stub(
    provider: &StubProvider,
    template: &PromptTemplate,
    ctx: &PromptContext,
    params: &GenerateParams,
) -> (o: GenerationOutcome)
    requires
        ctx.well_formed(),
    ensures
        exists|r: ProviderReply| stub_reply(r, provider.version(), params.seed)
            && outcome_of(o, "stub"@, "stub-local"@, *params,
                prompt_hash_of(render_from(template.body@, ctx.entries(), 0)), r),
{
    let prompt = template.render(ctx);
    let hash = hash_prompt(prompt.as_str());
    let reply = provider.generate(params.seed);
    let ghost r = reply;
    let o = assemble_outcome(provider.name(), provider.model(), params, hash, reply);
    assert(stub_reply(r, provider.version(), params.seed)
        && outcome_of(o, "stub"@, "stub-local"@, *params, prompt_hash_of(render_from(template.body@, ctx.entries(), 0)), r));
    o
}

} // verus!
