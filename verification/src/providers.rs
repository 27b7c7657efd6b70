//! Reading a generation provider's reply body: the model's text, the model
//! version it reports, its token counts, and the obligations normalised
//! from the text. Sending the request is the caller's part.

use vstd::prelude::*;
use vstd::utf8::encode_utf8;
use crate::json::{JsonTree, json_of, parse_json, member, text_of, u64_of, first_element, get_member, get_text, get_u64, get_first};
use crate::normalize::{NormalizedObligation, normalize_response, response_outcome, loose_parse, not_json_message};
use crate::records::ParseStatus;
use crate::text::{chars_of, push_all, string_from_chars};

verus! {

/// The reply format of a provider.
#[derive(Debug, Clone, Copy, PartialEq, Eq, Structural)]
pub enum ReplyDialect {
    /// Chat completions: the text is `choices[0].message.content`; tokens
    /// are `prompt_tokens` and `completion_tokens`.
    OpenAi,
    /// Messages: the text is the `text` of the `content` blocks, joined;
    /// tokens are `input_tokens` and `output_tokens`.
    Anthropic,
}

/// What a provider's reply gave.
#[derive(Debug)]
pub struct ProviderReply {
    /// The model's text.
    pub raw: String,
    /// The obligations normalised from it (none when that failed).
    pub obligations: Vec<NormalizedObligation>,
    /// How normalising went.
    pub parse_status: ParseStatus,
    /// Latency in milliseconds, as measured by the caller.
    pub latency_ms: u64,
    /// Tokens consumed (prompt, completion), when the reply reports usage.
    pub tokens: Option<(u64, u64)>,
    /// The model version the reply reports, else the configured model.
    pub model_version: String,
}

/// The member `key` of an optional value.
pub open spec fn member_in(t: Option<JsonTree>, key: Seq<char>) -> Option<JsonTree> {
    match t {
        Some(x) => member(x, key),
        None => None,
    }
}

/// The `text` strings of the blocks `b`, joined.
pub open spec fn block_texts(b: Seq<JsonTree>) -> Seq<char>
    decreases b.len(),
{
    if b.len() == 0 {
        Seq::empty()
    } else {
        block_texts(b.drop_last()) + match text_of(member(b.last(), "text"@)) {
            Some(s) => s,
            None => Seq::empty(),
        }
    }
}

/// The model's text in a reply (empty when absent).
pub open spec fn reply_text(doc: JsonTree, dialect: ReplyDialect) -> Seq<char> {
    match dialect {
        ReplyDialect::OpenAi => match text_of(member_in(member_in(first_element(member(doc, "choices"@)), "message"@), "content"@)) {
            Some(s) => s,
            None => Seq::empty(),
        },
        ReplyDialect::Anthropic => match member(doc, "content"@) {
            Some(JsonTree::Array(a)) => block_texts(a@),
            _ => Seq::empty(),
        },
    }
}

/// The model version a reply reports, else `fallback`.
pub open spec fn reply_model(doc: JsonTree, fallback: Seq<char>) -> Seq<char> {
    match text_of(member(doc, "model"@)) {
        Some(s) => s,
        None => fallback,
    }
}

/// The token counts of a reply: present when it has `usage`, each count 0
/// when missing or not a `u64`.
pub open spec fn reply_tokens(doc: JsonTree, dialect: ReplyDialect) -> Option<(u64, u64)> {
    let (a, b) = match dialect {
        ReplyDialect::OpenAi => ("prompt_tokens"@, "completion_tokens"@),
        ReplyDialect::Anthropic => ("input_tokens"@, "output_tokens"@),
    };
    match member(doc, "usage"@) {
        Some(u) => Some((
            match u64_of(member(u, a)) { Some(n) => n, None => 0 },
            match u64_of(member(u, b)) { Some(n) => n, None => 0 },
        )),
        None => None,
    }
}

/// `r` is what the reply document `doc` gives.
pub open spec fn reply_of(r: ProviderReply, doc: JsonTree, latency_ms: u64, fallback: Seq<char>, dialect: ReplyDialect) -> bool {
    &&& r.raw@ == reply_text(doc, dialect)
    &&& r.model_version@ == reply_model(doc, fallback)
    &&& r.tokens == reply_tokens(doc, dialect)
    &&& r.latency_ms == latency_ms
    &&& response_outcome(r.raw@, loose_parse(encode_utf8(r.raw@)), not_json_message(encode_utf8(r.raw@).len()),
        (r.obligations, r.parse_status))
}

/// A copy of a string.
fn owned(s: &str) -> (out: String)
    ensures
        out@ == s@,
{
    string_from_chars(&chars_of(s))
}

/// The `text` strings of blocks, joined (see `block_texts`).
fn joined_block_texts(blocks: &Vec<JsonTree>) -> (out: String)
    ensures
        out@ == block_texts(blocks@),
{
    let mut out = String::new();
    let mut k: usize = 0;
    while k < blocks.len()
        invariant
            k <= blocks@.len(),
            out@ == block_texts(blocks@.take(k as int)),
        decreases blocks@.len() - k,
    {
        proof {
            assert(blocks@.take(k + 1).drop_last() =~= blocks@.take(k as int));
            assert(blocks@.take(k + 1).last() == blocks@[k as int]);
        }
        match get_text(get_member(&blocks[k], "text")) {
            Some(t) => push_all(&mut out, t),
            None => {
                assert(out@ =~= out@ + Seq::<char>::empty());
            },
        }
        k = k + 1;
    }
    proof {
        assert(blocks@.take(blocks@.len() as int) =~= blocks@);
    }
    out
}

/// The member `key` of an optional value (see `member_in`).
fn get_member_in<'a>(t: Option<&'a JsonTree>, key: &str) -> (r: Option<&'a JsonTree>)
    ensures
        match r {
            Some(x) => member_in(match t { Some(y) => Some(*y), None => None }, key@) == Some(*x),
            None => member_in(match t { Some(y) => Some(*y), None => None }, key@) is None,
        },
{
    match t {
        Some(x) => get_member(x, key),
        None => None,
    }
}

/// Reads a parsed reply document (see `reply_of`).
pub fn reply_of_doc(doc: &JsonTree, latency_ms: u64, fallback_model: &str, dialect: ReplyDialect) -> (r: ProviderReply)
    ensures
        reply_of(r, *doc, latency_ms, fallback_model@, dialect),
{
    let raw = match dialect {
        ReplyDialect::OpenAi => {
            let content = get_member_in(get_member_in(get_first(get_member(doc, "choices")), "message"), "content");
            match get_text(content) {
                Some(s) => owned(s),
                None => String::new(),
            }
        },
        ReplyDialect::Anthropic => match get_member(doc, "content") {
            Some(JsonTree::Array(a)) => joined_block_texts(a),
            _ => String::new(),
        },
    };
    let model_version = match get_text(get_member(doc, "model")) {
        Some(s) => owned(s),
        None => owned(fallback_model),
    };
    let (ka, kb) = match dialect {
        ReplyDialect::OpenAi => ("prompt_tokens", "completion_tokens"),
        ReplyDialect::Anthropic => ("input_tokens", "output_tokens"),
    };
    let tokens = match get_member(doc, "usage") {
        Some(u) => {
            let a = match get_u64(get_member(u, ka)) { Some(n) => n, None => 0 };
            let b = match get_u64(get_member(u, kb)) { Some(n) => n, None => 0 };
            Some((a, b))
        },
        None => None,
    };
    let (obligations, parse_status) = normalize_response(raw.as_str());
    ProviderReply { raw, obligations, parse_status, latency_ms, tokens, model_version }
}

/// Reads a provider's reply body: a body that is not JSON is refused with
/// `json error: <the parser's message>`; otherwise see `reply_of`.
pub fn parse_provider_reply(body: &str, latency_ms: u64, fallback_model: &str, dialect: ReplyDialect)
    -> (r: Result<ProviderReply, String>)
    ensures
        match json_of(encode_utf8(body@)) {
            Ok(doc) => r matches Ok(rep) && reply_of(rep, doc, latency_ms, fallback_model@, dialect),
            Err(m) => r matches Err(e) && e@ == "json error: "@ + m,
        },
{
    match parse_json(body.as_bytes()) {
        Ok(doc) => Ok(reply_of_doc(&doc, latency_ms, fallback_model, dialect)),
        Err(m) => {
            let mut e = owned("json error: ");
            push_all(&mut e, m.as_str());
            Err(e)
        },
    }
}

} // verus!
