//! Normalising a provider's response into generated obligations. The
//! response is read leniently: as a whole if it is JSON, else the first
//! bracketed region, longest first, that is; an object's `obligations`
//! list or a bare list are both accepted; missing optional fields take
//! defaults and unknown kinds become `unknown`.

use vstd::prelude::*;
use crate::text::{chars_of, string_from_chars, push_all};
use crate::lean::{ascii_lower_seq, lower_chars, decimal, decimal_string};
use crate::cli_rules::{trim, trim_chars};
use crate::records::ParseStatus;
use crate::prompts::string_views;
use crate::json::{JsonTree, json_of, parse_json, member, text_of, get_member, get_text};
use crate::scan::{scrape_candidates, bracket_spans, longest_first};
use vstd::utf8::encode_utf8;

verus! {

/// Obligation kinds the output schema allows.
pub open spec fn is_known_kind(k: Seq<char>) -> bool {
    ||| k == "precondition"@ || k == "postcondition"@ || k == "invariant"@ || k == "termination"@
    ||| k == "bounds"@ || k == "uniqueness"@ || k == "monotonicity"@ || k == "optimality"@
    ||| k == "structural"@ || k == "auxiliary"@ || k == "unknown"@
}

/// What one item of a response's obligation list holds, as read from JSON:
/// whether it is an object, its string fields (`None` when absent or not a
/// string) and the strings among its linked semantic units.
#[derive(Debug)]
pub struct ObligationFields {
    /// Whether the item is a JSON object.
    pub is_object: bool,
    /// `kind`, if a string.
    pub kind: Option<String>,
    /// `lean_statement`, if a string.
    pub lean_statement: Option<String>,
    /// `nl_gloss`, if a string.
    pub nl_gloss: Option<String>,
    /// The string entries of `linked_semantic_units` (none when it is not a list).
    pub linked_semantic_units: Vec<String>,
}

/// How a response read as JSON.
#[derive(Debug)]
pub enum ParsedResponse {
    /// Neither the response nor any bracketed region of it is JSON.
    NotJson(String),
    /// JSON, but neither an `obligations` list nor a bare list.
    NoObligations,
    /// The items of the obligation list.
    Items(Vec<ObligationFields>),
}

/// A normalised obligation (its confidence, a fraction, stays with the caller).
#[derive(Debug)]
pub struct NormalizedObligation {
    /// Canonical kind.
    pub kind: String,
    /// Lean statement, trimmed.
    pub lean_statement: String,
    /// Natural-language gloss.
    pub nl_gloss: String,
    /// Linked semantic units.
    pub linked_semantic_units: Vec<String>,
}

/// The kind of an item: its `kind` trimmed and lowercased when that is a
/// known kind, else `unknown`.
pub open spec fn kind_of(raw: Option<String>) -> Seq<char> {
    let k = ascii_lower_seq(trim(match raw { Some(s) => s@, None => "unknown"@ }));
    if is_known_kind(k) { k } else { "unknown"@ }
}

/// Why an item is refused, if it is.
pub open spec fn item_error(f: ObligationFields) -> Option<Seq<char>> {
    if !f.is_object {
        Some("obligation is not a JSON object"@)
    } else {
        match f.lean_statement {
            None => Some("missing `lean_statement`"@),
            Some(s) => if trim(s@).len() == 0 { Some("`lean_statement` is empty"@) } else { None },
        }
    }
}

/// `o` is the normalised form of the accepted item `f`.
pub open spec fn normalized_item(f: ObligationFields, o: NormalizedObligation) -> bool {
    &&& o.kind@ == kind_of(f.kind)
    &&& o.lean_statement@ == trim(f.lean_statement->0@)
    &&& o.nl_gloss@ == match f.nl_gloss { Some(g) => g@, None => Seq::empty() }
    &&& string_views(o.linked_semantic_units@) == string_views(f.linked_semantic_units@)
}

/// Whether `k` is a known kind.
fn known_kind(k: &[char]) -> (b: bool)
    ensures
        b == is_known_kind(k@),
{
    let s = string_from_chars(k);
    let known = [
        "precondition", "postcondition", "invariant", "termination", "bounds", "uniqueness",
        "monotonicity", "optimality", "structural", "auxiliary", "unknown",
    ];
    let mut i: usize = 0;
    while i < 11
        invariant
            i <= 11,
            s@ == k@,
            known@ == seq!["precondition", "postcondition", "invariant", "termination", "bounds", "uniqueness",
                "monotonicity", "optimality", "structural", "auxiliary", "unknown"],
            forall|j: int| 0 <= j < i ==> k@ != known@[j]@,
        decreases 11 - i,
    {
        if crate::text::str_eq(s.as_str(), known[i]) {
            return true;
        }
        i = i + 1;
    }
    false
}

/// Copies a list of strings.
fn copy_strings(v: &Vec<String>) -> (out: Vec<String>)
    ensures
        string_views(out@) == string_views(v@),
{
    let mut out: Vec<String> = Vec::new();
    let mut k: usize = 0;
    while k < v.len()
        invariant
            k <= v@.len(),
            string_views(out@) == string_views(v@.take(k as int)),
        decreases v@.len() - k,
    {
        let c = string_from_chars(&chars_of(v[k].as_str()));
        let ghost before = out@;
        out.push(c);
        proof {
            assert(v@.take(k + 1) =~= v@.take(k as int).push(v@[k as int]));
            assert(out@ =~= before.push(c));
            assert(string_views(before.push(c)) =~= string_views(before).push(c@));
            assert(string_views(v@.take(k as int).push(v@[k as int])) =~= string_views(v@.take(k as int)).push(v@[k as int]@));
            assert(string_views(out@) =~= string_views(v@.take(k + 1)));
        }
        k = k + 1;
    }
    proof {
        assert(v@.take(v@.len() as int) =~= v@);
    }
    out
}

/// Normalises one item of an obligation list, or says why it is refused.
pub fn normalize_obligation(f: &ObligationFields) -> (res: Result<NormalizedObligation, String>)
    ensures
        match res {
            Ok(o) => item_error(*f) is None && normalized_item(*f, o),
            Err(m) => item_error(*f) == Some(m@),
        },
{
    if !f.is_object {
        return Err("obligation is not a JSON object".to_owned());
    }
    let kind_raw = match &f.kind {
        Some(k) => chars_of(k.as_str()),
        None => chars_of("unknown"),
    };
    let lowered = lower_chars(&trim_chars(&kind_raw));
    let kind = if known_kind(&lowered) { string_from_chars(&lowered) } else { "unknown".to_owned() };
    let stmt = match &f.lean_statement {
        Some(s) => trim_chars(&chars_of(s.as_str())),
        None => {
            return Err("missing `lean_statement`".to_owned());
        },
    };
    if stmt.len() == 0 {
        return Err("`lean_statement` is empty".to_owned());
    }
    let nl_gloss = match &f.nl_gloss {
        Some(g) => string_from_chars(&chars_of(g.as_str())),
        None => String::new(),
    };
    Ok(NormalizedObligation {
        kind,
        lean_statement: string_from_chars(&stmt),
        nl_gloss,
        linked_semantic_units: copy_strings(&f.linked_semantic_units),
    })
}


/// An item of an obligation list as plain values: whether it is an object,
/// its `kind`, `lean_statement` and `nl_gloss` strings, and the strings among
/// its linked semantic units.
pub type FieldsView = (bool, Option<Seq<char>>, Option<Seq<char>>, Option<Seq<char>>, Seq<Seq<char>>);

/// What an item of an obligation list holds, as plain values: whether it is
/// an object, its `kind`, `lean_statement` and `nl_gloss` strings, and the
/// strings among its linked semantic units.
pub open spec fn fields_view(f: ObligationFields)
    -> FieldsView
{
    (f.is_object,
        match f.kind { Some(s) => Some(s@), None => None },
        match f.lean_statement { Some(s) => Some(s@), None => None },
        match f.nl_gloss { Some(s) => Some(s@), None => None },
        string_views(f.linked_semantic_units@))
}

/// The strings among `s`, in order.
pub open spec fn texts_in(s: Seq<JsonTree>) -> Seq<Seq<char>>
    decreases s.len(),
{
    if s.len() == 0 {
        Seq::empty()
    } else {
        match s.last() {
            JsonTree::Text(t) => texts_in(s.drop_last()).push(t@),
            _ => texts_in(s.drop_last()),
        }
    }
}

/// What an item of a parsed obligation list holds (see `fields_view`).
pub open spec fn item_fields(t: JsonTree)
    -> FieldsView
{
    (t is Object,
        text_of(member(t, "kind"@)),
        text_of(member(t, "lean_statement"@)),
        text_of(member(t, "nl_gloss"@)),
        match member(t, "linked_semantic_units"@) {
            Some(JsonTree::Array(a)) => texts_in(a@),
            _ => Seq::empty(),
        })
}

/// The obligation list of a document: a bare array, or an object's
/// `obligations` array.
pub open spec fn obligation_list(t: JsonTree) -> Option<Seq<JsonTree>> {
    match t {
        JsonTree::Array(a) => Some(a@),
        JsonTree::Object(_) => match member(t, "obligations"@) {
            Some(JsonTree::Array(a)) => Some(a@),
            _ => None,
        },
        _ => None,
    }
}

/// The first of the regions `spans[k..]` of `raw` that parses as JSON.
pub open spec fn first_json(raw: Seq<u8>, spans: Seq<(usize, usize)>, k: int) -> Option<JsonTree>
    decreases spans.len() - k,
{
    if k < 0 || k >= spans.len() {
        None
    } else {
        match json_of(raw.subrange(spans[k].0 as int, spans[k].1 + 1)) {
            Ok(t) => Some(t),
            Err(_) => first_json(raw, spans, k + 1),
        }
    }
}

/// The document a response holds: the whole text if it parses, else the
/// first balanced region, longest first, that does.
pub open spec fn loose_doc(raw: Seq<u8>) -> Option<JsonTree> {
    match json_of(raw) {
        Ok(t) => Some(t),
        Err(_) => first_json(raw, longest_first(bracket_spans(raw, 0)), 0),
    }
}

/// A parse as plain values: `None` when no JSON was found, `Some(None)`
/// when no obligation list, else the items' fields.
pub open spec fn parsed_view(p: ParsedResponse)
    -> Option<Option<Seq<FieldsView>>>
{
    match p {
        ParsedResponse::NotJson(_) => None,
        ParsedResponse::NoObligations => Some(None),
        ParsedResponse::Items(v) => Some(Some(v@.map_values(|f: ObligationFields| fields_view(f)))),
    }
}

/// How a response reads (see `parsed_view`).
pub open spec fn loose_parse(raw: Seq<u8>)
    -> Option<Option<Seq<FieldsView>>>
{
    match loose_doc(raw) {
        None => None,
        Some(t) => match obligation_list(t) {
            None => Some(None),
            Some(items) => Some(Some(items.map_values(|x: JsonTree| item_fields(x)))),
        },
    }
}

/// The message when no JSON is found in a response of `n` bytes.
pub open spec fn not_json_message(n: nat) -> Seq<char> {
    "response is not valid JSON and no JSON object could be scraped (len="@ + decimal(n) + " bytes)"@
}

/// A copy of a string.
fn owned_text(s: &str) -> (out: String)
    ensures
        out@ == s@,
{
    string_from_chars(&chars_of(s))
}

/// The strings among `items`, in order (see `texts_in`).
fn texts_of(items: &Vec<JsonTree>) -> (out: Vec<String>)
    ensures
        string_views(out@) == texts_in(items@),
{
    let mut out: Vec<String> = Vec::new();
    let mut k: usize = 0;
    while k < items.len()
        invariant
            k <= items@.len(),
            string_views(out@) == texts_in(items@.take(k as int)),
        decreases items@.len() - k,
    {
        proof {
            assert(items@.take(k + 1).drop_last() =~= items@.take(k as int));
            assert(items@.take(k + 1).last() == items@[k as int]);
        }
        match &items[k] {
            JsonTree::Text(t) => {
                let ghost before = string_views(out@);
                out.push(owned_text(t.as_str()));
                proof {
                    assert(string_views(out@) =~= before.push(t@));
                }
            },
            _ => {},
        }
        k = k + 1;
    }
    proof {
        assert(items@.take(items@.len() as int) =~= items@);
    }
    out
}

/// The fields of one item (see `item_fields`).
fn fields_of(t: &JsonTree) -> (f: ObligationFields)
    ensures
        fields_view(f) == item_fields(*t),
{
    let text = |x: Option<&str>| -> (o: Option<String>)
        ensures
            match o { Some(s) => x matches Some(y) && s@ == y@, None => x is None },
    {
        match x {
            Some(y) => Some(owned_text(y)),
            None => None,
        }
    };
    let kind = text(get_text(get_member(t, "kind")));
    let lean_statement = text(get_text(get_member(t, "lean_statement")));
    let nl_gloss = text(get_text(get_member(t, "nl_gloss")));
    let linked_semantic_units = match get_member(t, "linked_semantic_units") {
        Some(JsonTree::Array(a)) => texts_of(a),
        _ => Vec::new(),
    };
    let is_object = match t {
        JsonTree::Object(_) => true,
        _ => false,
    };
    let f = ObligationFields { is_object, kind, lean_statement, nl_gloss, linked_semantic_units };
    proof {
        assert(string_views(Seq::<String>::empty()) =~= Seq::<Seq<char>>::empty());
    }
    f
}

/// The items' fields of a document's obligation list, if it has one.
fn items_of(t: &JsonTree) -> (r: ParsedResponse)
    ensures
        parsed_view(r) == match obligation_list(*t) {
            None => Some(None),
            Some(items) => Some(Some(items.map_values(|x: JsonTree| item_fields(x)))),
        },
{
    let list: Option<&Vec<JsonTree>> = match t {
        JsonTree::Array(a) => Some(a),
        JsonTree::Object(_) => match get_member(t, "obligations") {
            Some(JsonTree::Array(a)) => Some(a),
            _ => None,
        },
        _ => None,
    };
    match list {
        None => ParsedResponse::NoObligations,
        Some(a) => {
            let mut out: Vec<ObligationFields> = Vec::new();
            let mut k: usize = 0;
            while k < a.len()
                invariant
                    k <= a@.len(),
                    out@.map_values(|f: ObligationFields| fields_view(f))
                        == a@.take(k as int).map_values(|x: JsonTree| item_fields(x)),
                decreases a@.len() - k,
            {
                let f = fields_of(&a[k]);
                let ghost before = out@;
                let ghost fv = fields_view(f);
                out.push(f);
                proof {
                    assert(fv == item_fields(a@[k as int]));
                    assert(out@ =~= before.push(f));
                    assert(out@.map_values(|f: ObligationFields| fields_view(f))
                        =~= before.map_values(|f: ObligationFields| fields_view(f)).push(fv));
                    assert(a@.take(k + 1) =~= a@.take(k as int).push(a@[k as int]));
                    assert(a@.take(k + 1).map_values(|x: JsonTree| item_fields(x))
                        =~= a@.take(k as int).map_values(|x: JsonTree| item_fields(x)).push(item_fields(a@[k as int])));
                    assert(out@.map_values(|f: ObligationFields| fields_view(f))
                        =~= a@.take(k + 1).map_values(|x: JsonTree| item_fields(x)));
                }
                k = k + 1;
            }
            proof {
                assert(a@.take(a@.len() as int) =~= a@);
            }
            ParsedResponse::Items(out)
        },
    }
}

/// Reads a response leniently (see `loose_parse`); when no JSON is found the
/// message gives the response's length in bytes.
pub fn parse_loose(raw: &str) -> (r: ParsedResponse)
    ensures
        parsed_view(r) == loose_parse(encode_utf8(raw@)),
        r matches ParsedResponse::NotJson(m) ==> m@ == not_json_message(encode_utf8(raw@).len()),
{
    let bytes = raw.as_bytes();
    let ghost b = bytes@;
    match parse_json(bytes) {
        Ok(t) => {
            return items_of(&t);
        },
        Err(_) => {},
    }
    let spans = scrape_candidates(bytes);
    let n = bytes.len();
    let mut k: usize = 0;
    while k < spans.len()
        invariant
            b == bytes@,
            n == b.len(),
            b == encode_utf8(raw@),
            json_of(b) is Err,
            spans@ == longest_first(bracket_spans(b, 0)),
            forall|q: int| 0 <= q < spans@.len() ==> (#[trigger] spans@[q]).0 <= spans@[q].1 < b.len(),
            k <= spans@.len(),
            first_json(b, spans@, 0) == first_json(b, spans@, k as int),
        decreases spans@.len() - k,
    {
        let (s, e) = spans[k];
        proof {
            assert(spans@[k as int].0 <= spans@[k as int].1 < b.len());
        }
        let region = vstd::slice::slice_subrange(bytes, s, e + 1);
        match parse_json(region) {
            Ok(t) => {
                return items_of(&t);
            },
            Err(_) => {},
        }
        k = k + 1;
    }
    let mut msg = owned_text("response is not valid JSON and no JSON object could be scraped (len=");
    push_all(&mut msg, string_from_chars(&decimal_string(bytes.len() as u64)).as_str());
    push_all(&mut msg, " bytes)");
    ParsedResponse::NotJson(msg)
}

/// `st` is a failure of class `class` with message `msg`.
pub open spec fn failed_with(st: ParseStatus, class: Seq<char>, msg: Seq<char>) -> bool {
    &&& !st.ok
    &&& (st.error_class matches Some(c) && c@ == class)
    &&& (st.error_message matches Some(m) && m@ == msg)
}

/// Index of the first refused item, if any.
pub open spec fn first_refused(items: Seq<ObligationFields>, k: int) -> Option<int>
    decreases items.len() - k,
{
    if k < 0 || k >= items.len() {
        None
    } else if item_error(items[k]) is Some {
        Some(k)
    } else {
        first_refused(items, k + 1)
    }
}

/// Normalises a provider response. An empty (or blank) response is
/// `empty_output`; one that is not JSON is `json_parse_error` with the
/// reader's message; JSON without an obligation list is `missing_fields`;
/// the first refused item makes the whole response
/// `schema_validation_error` (`obligation #<i>: <why>`); otherwise every
/// item is normalised, in order.
pub fn normalize_parsed(raw: &str, parsed: &ParsedResponse) -> (r: (Vec<NormalizedObligation>, ParseStatus))
    ensures
        trim(raw@).len() == 0 ==> r.0@.len() == 0
            && failed_with(r.1, "empty_output"@, "provider returned empty response"@),
        trim(raw@).len() > 0 ==> match parsed {
            ParsedResponse::NotJson(msg) => r.0@.len() == 0 && failed_with(r.1, "json_parse_error"@, msg@),
            ParsedResponse::NoObligations => r.0@.len() == 0
                && failed_with(r.1, "missing_fields"@, "expected top-level `obligations` list or bare array"@),
            ParsedResponse::Items(items) => match first_refused(items@, 0) {
                Some(i) => r.0@.len() == 0 && failed_with(r.1, "schema_validation_error"@,
                    "obligation #"@ + decimal(i as nat) + ": "@ + item_error(items@[i])->0),
                None => r.1.ok && r.1.error_class is None && r.1.error_message is None
                    && r.0@.len() == items@.len()
                    && forall|k: int| 0 <= k < items@.len() ==> normalized_item(items@[k], #[trigger] r.0@[k]),
            },
        },
{
    let t = trim_chars(&chars_of(raw));
    if t.len() == 0 {
        return (Vec::new(), ParseStatus::err("empty_output", "provider returned empty response"));
    }
    match parsed {
        ParsedResponse::NotJson(msg) => (Vec::new(), ParseStatus::err("json_parse_error", msg.as_str())),
        ParsedResponse::NoObligations => (
            Vec::new(),
            ParseStatus::err("missing_fields", "expected top-level `obligations` list or bare array"),
        ),
        ParsedResponse::Items(items) => {
            let mut out: Vec<NormalizedObligation> = Vec::new();
            let mut k: usize = 0;
            while k < items.len()
                invariant
                    trim(raw@).len() > 0,
                    match *parsed {
                        ParsedResponse::Items(its) => its@ == items@,
                        _ => false,
                    },
                    k <= items@.len(),
                    out@.len() == k,
                    first_refused(items@, 0) == first_refused(items@, k as int),
                    forall|j: int| 0 <= j < k ==> normalized_item(items@[j], #[trigger] out@[j]),
                decreases items@.len() - k,
            {
                match normalize_obligation(&items[k]) {
                    Ok(o) => {
                        out.push(o);
                    },
                    Err(why) => {
                        let mut msg = string_from_chars(&chars_of("obligation #"));
                        push_all(&mut msg, string_from_chars(&decimal_string(k as u64)).as_str());
                        push_all(&mut msg, ": ");
                        push_all(&mut msg, why.as_str());
                        return (Vec::new(), ParseStatus::err("schema_validation_error", msg.as_str()));
                    },
                }
                k = k + 1;
            }
            (out, ParseStatus::ok())
        },
    }
}

/// The kind of an item (see `kind_of`), from its plain values.
pub open spec fn view_kind(raw: Option<Seq<char>>) -> Seq<char> {
    let k = ascii_lower_seq(trim(match raw { Some(s) => s, None => "unknown"@ }));
    if is_known_kind(k) { k } else { "unknown"@ }
}

/// Why an item is refused (see `item_error`), from its plain values.
pub open spec fn view_error(v: FieldsView) -> Option<Seq<char>> {
    if !v.0 {
        Some("obligation is not a JSON object"@)
    } else {
        match v.2 {
            None => Some("missing `lean_statement`"@),
            Some(s) => if trim(s).len() == 0 { Some("`lean_statement` is empty"@) } else { None },
        }
    }
}

/// `o` is the normalised form of the accepted item `v` (see `normalized_item`).
pub open spec fn view_normalized(v: FieldsView, o: NormalizedObligation) -> bool {
    &&& o.kind@ == view_kind(v.1)
    &&& o.lean_statement@ == trim(v.2->0)
    &&& o.nl_gloss@ == match v.3 { Some(g) => g, None => Seq::empty() }
    &&& string_views(o.linked_semantic_units@) == v.4
}

/// Index of the first refused item among `items[k..]`, if any.
pub open spec fn view_first_refused(items: Seq<FieldsView>, k: int) -> Option<int>
    decreases items.len() - k,
{
    if k < 0 || k >= items.len() {
        None
    } else if view_error(items[k]) is Some {
        Some(k)
    } else {
        view_first_refused(items, k + 1)
    }
}

/// What normalising a response of text `text` gives, when it reads as `p`
/// (see `loose_parse`) and a response with no JSON is refused with
/// `not_json`.
pub open spec fn response_outcome(
    text: Seq<char>,
    p: Option<Option<Seq<FieldsView>>>,
    not_json: Seq<char>,
    r: (Vec<NormalizedObligation>, ParseStatus),
) -> bool {
    if trim(text).len() == 0 {
        r.0@.len() == 0 && failed_with(r.1, "empty_output"@, "provider returned empty response"@)
    } else {
        match p {
            None => r.0@.len() == 0 && failed_with(r.1, "json_parse_error"@, not_json),
            Some(None) => r.0@.len() == 0
                && failed_with(r.1, "missing_fields"@, "expected top-level `obligations` list or bare array"@),
            Some(Some(items)) => match view_first_refused(items, 0) {
                Some(i) => r.0@.len() == 0 && failed_with(r.1, "schema_validation_error"@,
                    "obligation #"@ + decimal(i as nat) + ": "@ + view_error(items[i])->0),
                None => r.1.ok && r.1.error_class is None && r.1.error_message is None
                    && r.0@.len() == items.len()
                    && forall|k: int| 0 <= k < items.len() ==> view_normalized(items[k], #[trigger] r.0@[k]),
            },
        }
    }
}

/// The plain-value reading of an item agrees with the reading of the item.
proof fn lemma_item_agrees(f: ObligationFields, o: NormalizedObligation)
    ensures
        view_error(fields_view(f)) == item_error(f),
        item_error(f) is None ==> (view_normalized(fields_view(f), o) == normalized_item(f, o)),
{
    match f.kind {
        Some(k) => {},
        None => {},
    }
}

/// The plain-value reading of items agrees with the reading of the items.
proof fn lemma_views_agree(items: Seq<ObligationFields>, k: int)
    requires
        0 <= k <= items.len(),
    ensures
        view_first_refused(items.map_values(|f: ObligationFields| fields_view(f)), k) == first_refused(items, k),
        first_refused(items, k) is None ==> forall|j: int| k <= j < items.len() ==> (#[trigger] item_error(items[j])) is None,
    decreases items.len() - k,
{
    let v = items.map_values(|f: ObligationFields| fields_view(f));
    if k < items.len() {
        lemma_views_agree(items, k + 1);
        assert(v[k] == fields_view(items[k]));
        lemma_item_agrees(items[k], arbitrary());
    }
}

/// The first refused index lies in range.
proof fn lemma_first_refused_range(items: Seq<ObligationFields>, k: int)
    requires
        0 <= k,
    ensures
        first_refused(items, k) matches Some(i) ==> k <= i < items.len(),
    decreases items.len() - k,
{
    if k < items.len() {
        lemma_first_refused_range(items, k + 1);
    }
}

/// Normalises a raw provider response: reads it leniently (`parse_loose`),
/// then normalises what it holds (`normalize_parsed`).
pub fn normalize_response(raw: &str) -> (r: (Vec<NormalizedObligation>, ParseStatus))
    ensures
        response_outcome(raw@, loose_parse(encode_utf8(raw@)), not_json_message(encode_utf8(raw@).len()), r),
{
    let parsed = parse_loose(raw);
    let r = normalize_parsed(raw, &parsed);
    proof {
        if trim(raw@).len() > 0 {
            match parsed {
                ParsedResponse::Items(items) => {
                    lemma_views_agree(items@, 0);
                    let v = items@.map_values(|f: ObligationFields| fields_view(f));
                    match first_refused(items@, 0) {
                        Some(i) => {
                            lemma_first_refused_range(items@, 0);
                            lemma_item_agrees(items@[i], arbitrary());
                            assert(v[i] == fields_view(items@[i]));
                        },
                        None => {
                            assert forall|k: int| 0 <= k < v.len() implies view_normalized(v[k], #[trigger] r.0@[k]) by {
                                assert(normalized_item(items@[k], r.0@[k]));
                                assert(item_error(items@[k]) is None);
                                lemma_item_agrees(items@[k], r.0@[k]);
                                assert(v[k] == fields_view(items@[k]));
                            }
                        },
                    }
                },
                _ => {},
            }
        }
    }
    r
}


/// The plain values of a normalised obligation.
pub open spec fn obligation_view(o: NormalizedObligation) -> (Seq<char>, Seq<char>, Seq<char>, Seq<Seq<char>>) {
    (o.kind@, o.lean_statement@, o.nl_gloss@, string_views(o.linked_semantic_units@))
}

/// The plain values of a parse status.
pub open spec fn status_view(st: ParseStatus) -> (bool, Option<Seq<char>>, Option<Seq<char>>) {
    (
        st.ok,
        match st.error_class { Some(c) => Some(c@), None => None },
        match st.error_message { Some(m) => Some(m@), None => None },
    )
}

/// Normalising is a function of the response: two outcomes that both meet
/// `response_outcome` for the same text and reading agree, field by field.
pub proof fn lemma_response_outcome_determined(
    text: Seq<char>,
    p: Option<Option<Seq<FieldsView>>>,
    not_json: Seq<char>,
    r1: (Vec<NormalizedObligation>, ParseStatus),
    r2: (Vec<NormalizedObligation>, ParseStatus),
)
    requires
        response_outcome(text, p, not_json, r1),
        response_outcome(text, p, not_json, r2),
    ensures
        r1.0@.map_values(|o: NormalizedObligation| obligation_view(o))
            == r2.0@.map_values(|o: NormalizedObligation| obligation_view(o)),
        status_view(r1.1) == status_view(r2.1),
{
    let a = r1.0@.map_values(|o: NormalizedObligation| obligation_view(o));
    let b = r2.0@.map_values(|o: NormalizedObligation| obligation_view(o));
    if trim(text).len() > 0 {
        if let Some(Some(items)) = p {
            if view_first_refused(items, 0) is None {
                assert forall|k: int| 0 <= k < a.len() implies a[k] == b[k] by {
                    assert(view_normalized(items[k], r1.0@[k]));
                    assert(view_normalized(items[k], r2.0@[k]));
                }
            }
        }
    }
    assert(a =~= b);
}
} // verus!
